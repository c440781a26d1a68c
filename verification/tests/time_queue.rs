use sequencer::time_queue::TimeQueue;

fn drain(q: &mut TimeQueue<u32>, t: u32) -> Vec<u32> {
    let mut out = Vec::new();
    while let Some(e) = q.advance(t) {
        out.push(e);
    }
    out
}

#[test]
fn empty_queue_hands_out_nothing() {
    let mut q: TimeQueue<&str> = TimeQueue::new();
    assert_eq!(q.advance(u32::MAX), None);
    assert_eq!(q.advance(0), None);
}

#[test]
fn event_waits_for_its_time() {
    let mut q = TimeQueue::new();
    q.insert(10, "a");
    assert_eq!(q.advance(9), None);
    assert_eq!(q.advance(10), Some("a"));
    assert_eq!(q.advance(10), None);
}

#[test]
fn earliest_comes_first_after_inserts() {
    let mut q = TimeQueue::new();
    for (t, e) in [(5u32, 'e'), (3, 'c'), (9, 'i'), (1, 'a'), (7, 'g'), (2, 'b')] {
        q.insert(t, e);
    }
    assert_eq!(q.advance(u32::MAX), Some('a'));
    assert_eq!(q.advance(u32::MAX), Some('b'));
    assert_eq!(q.advance(u32::MAX), Some('c'));
    assert_eq!(q.advance(4), None);
    assert_eq!(q.advance(5), Some('e'));
    assert_eq!(q.advance(u32::MAX), Some('g'));
    assert_eq!(q.advance(u32::MAX), Some('i'));
    assert_eq!(q.advance(u32::MAX), None);
}

#[test]
fn every_inserted_event_comes_out_once() {
    let mut q = TimeQueue::new();
    let keys = [4u32, 8, 15, 16, 23, 42, 4, 0, 99, 15];
    for (i, k) in keys.iter().enumerate() {
        q.insert(*k, i as u32);
    }
    let mut out = drain(&mut q, u32::MAX);
    out.sort();
    assert_eq!(out, (0..keys.len() as u32).collect::<Vec<_>>());
}

#[test]
fn events_at_one_time_all_come_out() {
    let mut q = TimeQueue::new();
    q.insert(3, 1u32);
    q.insert(3, 2);
    q.insert(3, 3);
    let mut out = drain(&mut q, 3);
    out.sort();
    assert_eq!(out, vec![1, 2, 3]);
}

#[test]
fn out_of_order_inserts_drain_in_time_order() {
    let mut q = TimeQueue::new();
    let keys = [0u32, 0, 1, 0, 1, 1, 0, 1, 1, 1];
    for (i, k) in keys.iter().enumerate() {
        q.insert(*k, (i as u32) * 10 + *k);
    }
    let out: Vec<u32> = drain(&mut q, u32::MAX).iter().map(|e| e % 10).collect();
    assert_eq!(out, vec![0, 0, 0, 0, 1, 1, 1, 1, 1, 1]);
}

#[test]
fn due_event_under_later_keys_is_handed_out() {
    let mut q = TimeQueue::new();
    for x in [0u32, 1, 10, 2, 11, 12, 3, 13, 14, 15] {
        q.insert(x, x);
    }
    assert_eq!(q.advance(5), Some(0));
    assert_eq!(q.advance(5), Some(1));
    assert_eq!(q.advance(5), Some(2));
    assert_eq!(q.advance(5), Some(3));
    assert_eq!(q.advance(5), None);
    assert_eq!(drain(&mut q, u32::MAX), vec![10, 11, 12, 13, 14, 15]);
}

#[test]
fn interleaved_inserts_and_hand_outs() {
    let mut q = TimeQueue::new();
    q.insert(14, 14u32);
    q.insert(0, 0);
    assert_eq!(q.advance(u32::MAX), Some(0));
    for k in [10u32, 3, 5, 7] {
        q.insert(k, k);
    }
    assert_eq!(q.advance(u32::MAX), Some(3));
    q.insert(7, 7);
    q.insert(19, 19);
    assert_eq!(q.advance(u32::MAX), Some(5));
    q.insert(8, 8);
    assert_eq!(q.advance(u32::MAX), Some(7));
    assert_eq!(q.advance(u32::MAX), Some(7));
    assert_eq!(q.advance(u32::MAX), Some(8));
    assert_eq!(q.advance(u32::MAX), Some(10));
    assert_eq!(q.advance(u32::MAX), Some(14));
    assert_eq!(q.advance(u32::MAX), Some(19));
    assert_eq!(q.advance(u32::MAX), None);
}

fn pseudo_random(state: &mut u32) -> u32 {
    *state ^= *state << 13;
    *state ^= *state >> 17;
    *state ^= *state << 5;
    *state
}

#[test]
fn first_hand_out_after_inserts_is_earliest() {
    let mut state = 0x9e37_79b9u32;
    for round in 0..300u32 {
        let mut q = TimeQueue::new();
        let n = 1 + (pseudo_random(&mut state) % 40);
        let mut earliest = u32::MAX;
        for _ in 0..n {
            let k = pseudo_random(&mut state) % 50;
            earliest = earliest.min(k);
            q.insert(k, k);
        }
        assert_eq!(q.advance(u32::MAX), Some(earliest), "round {}", round);
    }
}

#[test]
fn events_inserted_in_time_order_come_out_in_time_order() {
    let mut state = 0x1357_9bdfu32;
    for _ in 0..200 {
        let mut q = TimeQueue::new();
        let mut t = 0u32;
        let mut times = Vec::new();
        for _ in 0..(pseudo_random(&mut state) % 60) {
            t += pseudo_random(&mut state) % 3;
            times.push(t);
            q.insert(t, t);
        }
        assert_eq!(drain(&mut q, u32::MAX), times);
    }
}

#[test]
fn drain_at_a_time_gives_exactly_the_due_events_in_order() {
    let mut state = 0x2468_ace1u32;
    for _ in 0..300 {
        let mut q = TimeQueue::new();
        let mut all = Vec::new();
        for _ in 0..(pseudo_random(&mut state) % 50) {
            let k = pseudo_random(&mut state) % 100;
            all.push(k);
            q.insert(k, k);
            if pseudo_random(&mut state) % 5 == 0 {
                let t = pseudo_random(&mut state) % 100;
                let least = all.iter().copied().min();
                match q.advance(t) {
                    Some(e) => {
                        assert_eq!(Some(e), least);
                        assert!(e <= t);
                        let pos = all.iter().position(|x| *x == e).unwrap();
                        all.remove(pos);
                    }
                    None => assert!(least.map_or(true, |m| t < m)),
                }
            }
        }
        let t = pseudo_random(&mut state) % 100;
        let out = drain(&mut q, t);
        let mut due: Vec<u32> = all.iter().copied().filter(|x| *x <= t).collect();
        due.sort();
        assert_eq!(out, due);
        let mut later: Vec<u32> = all.iter().copied().filter(|x| *x > t).collect();
        later.sort();
        assert_eq!(drain(&mut q, u32::MAX), later);
    }
}
