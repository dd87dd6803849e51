use delay_writer::DelayWriter;
use delay_writer::sink::{VecSink, CountingPauser, LimitedSink, SINK_FULL, FLUSH_FAILED};

#[test]
fn new() {
    let writer = DelayWriter::new(VecSink::new(), CountingPauser::new(), 500);

    assert_eq!(500, writer.delay);
}

#[test]
fn write() {
    let mut writer = DelayWriter::new(VecSink::new(), CountingPauser::new(), 500);

    let _ = writer.write(b"Hello\nWorld");

    assert_eq!("Hello\nWorld", String::from_utf8(writer.inner.data).unwrap());
}

#[test]
fn bytes_written() {
    let mut writer = DelayWriter::new(VecSink::new(), CountingPauser::new(), 500);

    let result = writer.write(b"Hello\nWorld");

    assert_eq!(11, result.unwrap());
}

#[test]
fn hello_world_exact_delivery_and_delays() {
    let mut writer = DelayWriter::new(VecSink::new(), CountingPauser::new(), 250);

    let result = writer.write(b"Hello\nWorld!");

    assert_eq!(12, result.unwrap());
    assert_eq!(b"Hello\nWorld!".to_vec(), writer.inner.data);
    assert_eq!(vec![250, 250], writer.pauser.log);
}

#[test]
fn empty_write_still_delays_once() {
    let mut writer = DelayWriter::new(VecSink::new(), CountingPauser::new(), 250);

    let result = writer.write(b"");

    assert_eq!(0, result.unwrap());
    assert_eq!(0, writer.inner.data.len());
    assert_eq!(vec![250], writer.pauser.log);
}

#[test]
fn newlines_only_three_delays() {
    let mut writer = DelayWriter::new(VecSink::new(), CountingPauser::new(), 250);

    let result = writer.write(b"\n\n");

    assert_eq!(2, result.unwrap());
    assert_eq!(b"\n\n".to_vec(), writer.inner.data);
    assert_eq!(vec![250, 250, 250], writer.pauser.log);
}

#[test]
fn one_delay_per_segment() {
    let mut writer = DelayWriter::new(VecSink::new(), CountingPauser::new(), 9);

    let result = writer.write(b"a\nbb\n\nccc");

    assert_eq!(9, result.unwrap());
    assert_eq!(b"a\nbb\n\nccc".to_vec(), writer.inner.data);
    assert_eq!(vec![9, 9, 9, 9], writer.pauser.log);
}

#[test]
fn trailing_newline_delays_after_empty_last_segment() {
    let mut writer = DelayWriter::new(VecSink::new(), CountingPauser::new(), 5);

    let result = writer.write(b"abc\n");

    assert_eq!(4, result.unwrap());
    assert_eq!(b"abc\n".to_vec(), writer.inner.data);
    assert_eq!(vec![5, 5], writer.pauser.log);
}

#[test]
fn zero_delay_is_legal() {
    let mut writer = DelayWriter::new(VecSink::new(), CountingPauser::new(), 0);

    let result = writer.write(b"x");

    assert_eq!(1, result.unwrap());
    assert_eq!(vec![0], writer.pauser.log);
}

#[test]
fn consecutive_writes_do_not_share_line_state() {
    let mut writer = DelayWriter::new(VecSink::new(), CountingPauser::new(), 7);

    let first = writer.write(b"Hel");
    let second = writer.write(b"lo");

    assert_eq!(3, first.unwrap());
    assert_eq!(2, second.unwrap());
    assert_eq!(b"Hello".to_vec(), writer.inner.data);
    assert_eq!(vec![7, 7], writer.pauser.log);
}

#[test]
fn flush_passthrough_success() {
    let mut writer = DelayWriter::new(VecSink::new(), CountingPauser::new(), 100);

    let wrote = writer.write(b"Hi");
    let flushed = writer.flush();

    assert_eq!(2, wrote.unwrap());
    assert_eq!((), flushed.unwrap());
    assert_eq!(b"Hi".to_vec(), writer.inner.data);
    assert_eq!(vec![100], writer.pauser.log);
}

#[test]
fn flush_passthrough_failure_without_delay() {
    let mut writer = DelayWriter::new(LimitedSink::new(64, false), CountingPauser::new(), 100);

    let flushed = writer.flush();

    assert_eq!(FLUSH_FAILED, flushed.unwrap_err().code);
    assert_eq!(0, writer.pauser.log.len());
}

#[test]
fn failure_on_first_segment_forwards_nothing() {
    let mut writer = DelayWriter::new(LimitedSink::new(3, true), CountingPauser::new(), 10);

    let result = writer.write(b"Hello\nWorld");

    assert_eq!(SINK_FULL, result.unwrap_err().code);
    assert_eq!(0, writer.inner.data.len());
    assert_eq!(0, writer.pauser.log.len());
}

#[test]
fn failure_on_separator_keeps_earlier_segments() {
    let mut writer = DelayWriter::new(LimitedSink::new(2, true), CountingPauser::new(), 10);

    let result = writer.write(b"ab\ncd");

    assert_eq!(SINK_FULL, result.unwrap_err().code);
    assert_eq!(b"ab".to_vec(), writer.inner.data);
    assert_eq!(vec![10], writer.pauser.log);
}

#[test]
fn failure_mid_sequence_keeps_earlier_segments_and_newlines() {
    let mut writer = DelayWriter::new(LimitedSink::new(4, true), CountingPauser::new(), 10);

    let result = writer.write(b"ab\ncd\nef");

    assert_eq!(SINK_FULL, result.unwrap_err().code);
    assert_eq!(b"ab\n".to_vec(), writer.inner.data);
    assert_eq!(vec![10], writer.pauser.log);
}

#[test]
fn bytes_stay_forwarded_after_failure() {
    let mut writer = DelayWriter::new(LimitedSink::new(5, true), CountingPauser::new(), 10);

    let failed = writer.write(b"one\ntwo\nthree");
    let later = writer.write(b"x");

    assert!(failed.is_err());
    assert_eq!(1, later.unwrap());
    assert_eq!(b"one\nx".to_vec(), writer.inner.data);
    assert_eq!(vec![10, 10], writer.pauser.log);
}

#[test]
fn limited_sink_accepts_up_to_capacity() {
    let mut writer = DelayWriter::new(LimitedSink::new(11, true), CountingPauser::new(), 1);

    let result = writer.write(b"Hello\nWorld");

    assert_eq!(11, result.unwrap());
    assert_eq!(b"Hello\nWorld".to_vec(), writer.inner.data);
    assert_eq!(vec![1, 1], writer.pauser.log);
}
