use rmenu::timing::{loop_timeout, BLINK_MS, FRAME_MS};
use std::time::{Duration, Instant};

#[test]
fn loop_timeout_sleeps_to_the_next_deadline() {
    let now = Instant::now();
    let frame = Duration::from_millis(FRAME_MS);
    assert_eq!(loop_timeout(true, now + Duration::from_millis(BLINK_MS), now), frame);
    assert_eq!(loop_timeout(false, now + Duration::from_millis(500), now), Duration::from_millis(500));
    assert_eq!(loop_timeout(false, now, now + Duration::from_millis(5)), Duration::ZERO);
}
