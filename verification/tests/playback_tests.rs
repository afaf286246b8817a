use badapple::playback::{frame_index, sort_frames, FrameFile, Schedule, FRAME_INTERVAL_NS};

fn file(name: &str) -> FrameFile {
    FrameFile {
        name: name.as_bytes().to_vec(),
        data: name.as_bytes().to_vec(),
    }
}

#[test]
fn frame_index_parses_stem() {
    assert_eq!(frame_index(b"12.txt"), 12);
    assert_eq!(frame_index(b"3.txt"), 3);
    assert_eq!(frame_index(b"007.txt"), 7);
    assert_eq!(frame_index(b"10"), 10);
    assert_eq!(frame_index(b"4294967295.txt"), u32::MAX);
}

#[test]
fn frame_index_defaults_to_zero() {
    assert_eq!(frame_index(b""), 0);
    assert_eq!(frame_index(b".txt"), 0);
    assert_eq!(frame_index(b"abc.txt"), 0);
    assert_eq!(frame_index(b"1x2.txt"), 0);
    // One past u32::MAX overflows and falls back to 0.
    assert_eq!(frame_index(b"4294967296.txt"), 0);
}

#[test]
fn numeric_not_lexical_order() {
    // Lexically "12.txt" < "3.txt"; numerically index 3 plays before 12.
    assert!(frame_index(b"12.txt") > frame_index(b"3.txt"));
    let sorted = sort_frames(vec![file("12.txt"), file("3.txt")]);
    assert_eq!(sorted.len(), 2);
    assert_eq!(sorted[0].name, b"3.txt".to_vec());
    assert_eq!(sorted[1].name, b"12.txt".to_vec());
}

#[test]
fn sort_orders_by_index_and_keeps_all_frames() {
    let input = vec![
        file("10.txt"),
        file("2.txt"),
        file("abc.txt"),
        file("1.txt"),
        file("2.bin"),
    ];
    let sorted = sort_frames(input);
    assert_eq!(sorted.len(), 5);
    // Unparsable names take index 0 and come first.
    assert_eq!(sorted[0].name, b"abc.txt".to_vec());
    assert_eq!(sorted[1].name, b"1.txt".to_vec());
    // The two index-2 entries are adjacent, in either order.
    let two_names: Vec<&[u8]> = vec![&sorted[2].name, &sorted[3].name];
    assert!(two_names.contains(&b"2.txt".as_slice()));
    assert!(two_names.contains(&b"2.bin".as_slice()));
    assert_eq!(sorted[4].name, b"10.txt".to_vec());
}

#[test]
fn sort_of_empty_is_empty() {
    let sorted = sort_frames(Vec::new());
    assert_eq!(sorted.len(), 0);
}

#[test]
fn schedule_starts_one_interval_out() {
    let s = Schedule::new(1_000, FRAME_INTERVAL_NS);
    assert_eq!(s.interval_ns, FRAME_INTERVAL_NS);
    assert_eq!(s.next_ns, 1_000 + FRAME_INTERVAL_NS);
}

#[test]
fn schedule_has_no_cumulative_drift() {
    // Deadline n is exactly start + (n + 1) intervals, however late each
    // frame ran: advancing never consults the current time.
    let start: u64 = 5_000;
    let mut s = Schedule::new(start, FRAME_INTERVAL_NS);
    for n in 0..10u64 {
        assert_eq!(s.next_ns, start + (n + 1) * FRAME_INTERVAL_NS);
        s.advance();
    }
    assert_eq!(s.next_ns, start + 11 * FRAME_INTERVAL_NS);
}

#[test]
fn wait_is_clamped_at_zero_when_late() {
    let s = Schedule::new(0, 100);
    assert_eq!(s.wait_ns(40), 60);
    assert_eq!(s.wait_ns(100), 0);
    // Past the deadline: proceed immediately.
    assert_eq!(s.wait_ns(150), 0);
}

#[test]
fn thirty_frames_span_about_one_second() {
    // 30 deadlines spaced 1/30 s apart end within one interval of 1 s.
    let mut s = Schedule::new(0, FRAME_INTERVAL_NS);
    for _ in 0..29 {
        s.advance();
    }
    let one_second: u64 = 1_000_000_000;
    assert!(s.next_ns <= one_second);
    assert!(one_second - s.next_ns < FRAME_INTERVAL_NS);
}
