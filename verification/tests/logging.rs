use os_dev_toolkit::config::require;
use os_dev_toolkit::log::{Level, LogSink, Logger, RingLog};
use os_dev_toolkit::panic::panic_line;
use os_dev_toolkit::status::{IntoStatus, OptionIntoStatus, Status};

fn ring_text<const N: usize>(rl: &RingLog<N>) -> String {
    let (a, b) = rl.as_slices();
    let mut v = Vec::new();
    v.extend_from_slice(a);
    v.extend_from_slice(b);
    String::from_utf8(v).unwrap()
}

#[test]
fn level_order_and_names() {
    assert!(Level::Error.rank() < Level::Warn.rank());
    assert!(Level::Warn.rank() < Level::Info.rank());
    assert!(Level::Info.rank() < Level::Debug.rank());
    assert!(Level::Debug.rank() < Level::Trace.rank());
    assert_eq!(Level::Info.name(), "Info");
    assert_eq!(Level::Trace.name(), "Trace");
}

#[test]
fn logger_filters_by_level() {
    let mut sink: RingLog<128> = RingLog::new();
    let mut logger = Logger::new(&mut sink, Level::Info);
    assert_eq!(logger.level(), Level::Info);
    assert!(logger.enabled(Level::Error));
    assert!(logger.enabled(Level::Warn));
    assert!(logger.enabled(Level::Info));
    assert!(!logger.enabled(Level::Debug));
    assert!(!logger.enabled(Level::Trace));
    logger.log(Level::Info, "boot ok");
    logger.log(Level::Debug, "this will be filtered out");
    logger.log(Level::Error, "disk 7");
    assert_eq!(ring_text(logger.sink_mut()), "[Info] boot ok\n[Error] disk 7\n");
}

struct Recorder {
    calls: Vec<String>,
}

impl LogSink for Recorder {
    fn write_str(&mut self, s: &str) {
        self.calls.push(s.to_string());
    }
}

#[test]
fn log_writes_line_in_fragments() {
    let mut rec = Recorder { calls: Vec::new() };
    let mut logger = Logger::new(&mut rec, Level::Debug);
    logger.log(Level::Warn, "x=1");
    logger.log(Level::Trace, "dropped");
    logger.log(Level::Debug, "");
    assert_eq!(
        rec.calls,
        vec!["[", "Warn", "] ", "x=1", "\n", "[", "Debug", "] ", "", "\n"]
    );
}

#[test]
fn ring_log_keeps_most_recent_bytes() {
    let mut rl: RingLog<4> = RingLog::default();
    rl.write_str("ab");
    assert_eq!(ring_text(&rl), "ab");
    rl.write_str("cdef");
    assert_eq!(ring_text(&rl), "cdef");
    rl.push_byte(b'g');
    assert_eq!(ring_text(&rl), "defg");
    rl.clear();
    assert_eq!(ring_text(&rl), "");
    rl.flush();
}

#[test]
fn ring_log_zero_capacity_is_a_no_op() {
    let mut rl: RingLog<0> = RingLog::new();
    rl.write_str("abc");
    assert_eq!(ring_text(&rl), "");
}

#[test]
fn status_conversions() {
    assert!(Status::Success.is_ok());
    assert!(!Status::Busy.is_ok());
    assert_eq!(Status::Success.code(), 0);
    assert_eq!(Status::Timeout.code(), 7);
    assert_eq!(Status::Unknown.code(), 255);
    assert_eq!(true.into_status(Status::IoError), Status::Success);
    assert_eq!(false.into_status(Status::IoError), Status::IoError);
    assert_eq!(Some(3u8).ok_or_status(Status::NotFound), Ok(3));
    assert_eq!(None::<u8>.ok_or_status(Status::NotFound), Err(Status::NotFound));
}

#[test]
fn require_accepts_true_and_panic_line_format() {
    require(true, "always holds");
    assert_eq!(panic_line("oops at x.rs:1"), "PANIC: oops at x.rs:1\n");
}

#[test]
fn ring_log_caller_sees_logged_bytes_after_logger_is_gone() {
    let mut r: RingLog<64> = RingLog::new();
    {
        let mut lg = Logger::new(&mut r, Level::Info);
        lg.log(Level::Debug, "this will be filtered out");
        lg.log(Level::Info, "boot ok");
    }
    assert_eq!(ring_text(&r), "[Info] boot ok\n");
}

#[test]
fn ring_log_zero_capacity_any_history_stays_empty() {
    let mut rl: RingLog<0> = RingLog::new();
    rl.push_byte(1);
    rl.write_str("abc");
    rl.clear();
    rl.write_str("d");
    let (a, b) = rl.as_slices();
    assert!(a.is_empty() && b.is_empty());
}
