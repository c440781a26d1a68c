use sequencer::playback::{count_sample, fill_frame, SAMPLES_PER_CHANGE};

#[test]
fn counting_marks_every_change() {
    assert_eq!(count_sample(0), (1, false));
    assert_eq!(count_sample(8190), (8191, false));
    assert_eq!(count_sample(8191), (8192, true));
    assert_eq!(count_sample(2 * SAMPLES_PER_CHANGE - 1), (16384, true));
}

#[test]
fn counting_wraps_around() {
    assert_eq!(count_sample(u64::MAX), (0, true));
}

#[test]
fn frame_gets_the_value_in_every_channel() {
    let mut frame = [0i16, 5, -3];
    fill_frame(&mut frame, 42);
    assert_eq!(frame, [42, 42, 42]);
    let mut empty: [u16; 0] = [];
    fill_frame(&mut empty, 7);
    assert_eq!(empty.len(), 0);
}
