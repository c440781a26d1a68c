use sequencer::generator::{Generator, Step};

#[test]
fn new_generator_mutates_its_base() {
    let mut g = Generator::new(7, 'a');
    assert_eq!(g.seed(), 7);
    assert!(!g.unwinding());
    assert_eq!(g.next_step(true), Step::Mutate('a'));
    assert!(!g.unwinding());
}

#[test]
fn commit_pushes_and_reseeds() {
    let mut g = Generator::new(1, 10u8);
    assert_eq!(g.next_step(false), Step::Mutate(10));
    g.commit(11, 2);
    assert_eq!(g.seed(), 2);
    assert_eq!(g.next_step(false), Step::Mutate(11));
}

#[test]
fn draw_unwinds_only_above_five_sections() {
    let mut g = Generator::new(0, 0u8);
    for s in 1..5u8 {
        assert_eq!(g.next_step(true), Step::Mutate(s - 1));
        assert!(!g.unwinding());
        g.commit(s, 0);
    }
    // Five sections: a draw does not unwind yet.
    assert_eq!(g.next_step(true), Step::Mutate(4));
    assert!(!g.unwinding());
    g.commit(5, 0);
    // Six sections: a false draw keeps going, a true one unwinds.
    assert_eq!(g.next_step(false), Step::Mutate(5));
    assert!(!g.unwinding());
    assert_eq!(g.next_step(true), Step::Mutate(5));
    assert!(g.unwinding());
}

#[test]
fn unwinding_replays_latest_first_then_falls_silent() {
    let mut g = Generator::new(0, 0u8);
    for s in 1..6u8 {
        g.next_step(false);
        g.commit(s, 0);
    }
    assert_eq!(g.next_step(true), Step::Mutate(5));
    g.commit(6, 9);
    assert!(g.unwinding());
    for s in (1..=6u8).rev() {
        assert_eq!(g.next_step(false), Step::Replay(s));
    }
    assert_eq!(g.next_step(false), Step::Silence);
    assert_eq!(g.next_step(true), Step::Silence);
    assert!(g.unwinding());
    assert_eq!(g.seed(), 9);
}
