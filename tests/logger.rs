use std::cell::RefCell;
use std::rc::Rc;

use delog::render::DefaultRenderer;
use delog::{AtCapacity, Delogger, Flusher, Gate, Level, LevelFilter, LoggerSlot, Record, State, Statistics, TryLog, TryLogWithStatistics};

#[derive(Clone, Default)]
struct Recorder {
    seen: Rc<RefCell<Vec<String>>>,
}

impl Flusher for Recorder {
    fn flush(&self, logs: &str) {
        self.seen.borrow_mut().push(logs.to_string());
    }
}

fn info(target: &str, message: &str) -> Record {
    Record {
        level: Level::Info,
        target: target.to_string(),
        file: None,
        line: None,
        message: message.to_string(),
    }
}

fn logger(capacity: usize, render_capacity: usize) -> (Delogger<Recorder, DefaultRenderer>, Recorder) {
    let rec = Recorder::default();
    let d = Delogger::new(LevelFilter::Info, rec.clone(), DefaultRenderer {}, capacity, render_capacity);
    (d, rec)
}

#[test]
fn deferred_until_flush() {
    let (mut d, rec) = logger(64, 64);
    assert_eq!(d.try_enqueue(&info("app", "one")), Ok(()));
    assert_eq!(d.try_enqueue(&info("app", "two")), Ok(()));
    assert!(rec.seen.borrow().is_empty());
    d.flush();
    assert_eq!(*rec.seen.borrow(), vec!["one\ntwo\n".to_string()]);
    d.flush();
    assert_eq!(rec.seen.borrow().len(), 1);
    assert_eq!(
        d.statistics(),
        Statistics { attempts: 2, successes: 2, flushes: 2, read: 8, written: 8 }
    );
}

#[test]
fn immediate_record_bypasses_ring() {
    let (mut d, rec) = logger(64, 64);
    assert_eq!(d.try_enqueue(&info("app", "later")), Ok(()));
    assert_eq!(d.try_enqueue(&info("!", "now")), Ok(()));
    assert_eq!(*rec.seen.borrow(), vec!["now\n".to_string()]);
    d.flush();
    assert_eq!(*rec.seen.borrow(), vec!["now\n".to_string(), "later\n".to_string()]);
    let s = d.statistics();
    assert_eq!((s.attempts, s.successes, s.written), (2, 2, 6));
}

#[test]
fn filtered_record_counts_nothing() {
    let (mut d, rec) = logger(64, 64);
    let mut r = info("app", "noise");
    r.level = Level::Debug;
    assert_eq!(d.try_enqueue(&r), Ok(()));
    d.flush();
    assert!(rec.seen.borrow().is_empty());
    assert_eq!(
        d.statistics(),
        Statistics { attempts: 0, successes: 0, flushes: 1, read: 0, written: 0 }
    );
}

#[test]
fn full_ring_refuses() {
    let (mut d, _rec) = logger(8, 64);
    assert_eq!(d.try_enqueue(&info("app", "12345")), Ok(()));
    assert_eq!(d.try_enqueue(&info("app", "abc")), Err(AtCapacity));
    assert_eq!(d.try_log(&info("app", "abc")), Err(()));
    d.enqueue(&info("app", "abc"));
    let s = d.statistics();
    assert_eq!((s.attempts, s.successes, s.written), (4, 1, 6));
}

#[test]
fn render_buffer_bounds_the_entry() {
    let (mut d, rec) = logger(64, 4);
    assert_eq!(d.try_enqueue(&info("app", "truncated")), Ok(()));
    d.flush();
    assert_eq!(*rec.seen.borrow(), vec!["trun".to_string()]);
}

#[test]
fn dequeue_counts_a_flush() {
    let (mut d, _rec) = logger(16, 16);
    assert_eq!(d.try_enqueue(&info("app", "abc")), Ok(()));
    let mut buf = [0u8; 2];
    assert_eq!(d.dequeue(&mut buf), 2);
    assert_eq!(&buf, b"ab");
    assert_eq!(d.flushes(), 1);
    assert_eq!(d.read(), 2);
    assert_eq!(d.written(), 4);
    assert_eq!(d.attempts(), 1);
    assert_eq!(d.successes(), 1);
    assert_eq!(d.capacity(), 16);
}

#[test]
fn interleaved_log_and_flush() {
    let (mut d, rec) = logger(25, 25);
    for _ in 0..10 {
        assert_eq!(d.try_enqueue(&info("app", "message: 1")), Ok(()));
        let s = TryLogWithStatistics::statistics(&d);
        assert!(s.written - s.read <= 25);
        d.flush();
        let s = d.statistics();
        assert_eq!(s.written, s.read);
    }
    let s = d.statistics();
    assert_eq!((s.attempts, s.successes, s.flushes), (10, 10, 10));
    assert_eq!((s.read, s.written), (110, 110));
    assert_eq!(rec.seen.borrow().len(), 10);
    assert!(rec.seen.borrow().iter().all(|t| t == "message: 1\n"));
}

#[test]
fn logging_without_flush_fills_then_refuses() {
    let (mut d, rec) = logger(25, 25);
    let mut results = Vec::new();
    for _ in 0..3 {
        results.push(d.try_enqueue(&info("app", "message: 1")));
    }
    assert_eq!(results, vec![Ok(()), Ok(()), Err(AtCapacity)]);
    d.flush();
    assert_eq!(*rec.seen.borrow(), vec!["message: 1\nmessage: 1\n".to_string()]);
    assert_eq!(d.try_enqueue(&info("app", "message: 1")), Ok(()));
}

#[test]
fn slot_initializes_once() {
    let rec = Recorder::default();
    let mut slot: LoggerSlot<Recorder, DefaultRenderer> = LoggerSlot::new();
    slot.flush();
    assert_eq!(slot.statistics(), None);
    assert_eq!(slot.try_log(&info("app", "x")), Err(()));
    assert_eq!(slot.init_default(LevelFilter::Info, rec.clone(), 32, 32), Ok(()));
    assert_eq!(slot.init(LevelFilter::Trace, rec.clone(), DefaultRenderer {}, 8, 8), Err(()));
    assert_eq!(slot.try_log(&info("app", "x")), Ok(()));
    let mut r = info("app", "y");
    r.level = Level::Trace;
    assert_eq!(slot.try_log(&r), Ok(()));
    slot.flush();
    assert_eq!(*rec.seen.borrow(), vec!["x\n".to_string()]);
    assert_eq!(
        slot.statistics(),
        Some(Statistics { attempts: 1, successes: 1, flushes: 1, read: 2, written: 2 })
    );
}

#[test]
fn level_filter_order() {
    let mut r = info("app", "e");
    r.level = Level::Error;
    let rec = Recorder::default();
    let mut d = Delogger::new(LevelFilter::Off, rec.clone(), DefaultRenderer {}, 16, 16);
    assert_eq!(d.try_enqueue(&r), Ok(()));
    assert_eq!(d.attempts(), 0);
    assert!(LevelFilter::Error.lets_through(Level::Error));
    assert!(!LevelFilter::Error.lets_through(Level::Warn));
    assert!(LevelFilter::Trace.lets_through(Level::Trace));
}

#[test]
fn cut_character_is_flushed_lossily() {
    let (mut d, rec) = logger(16, 3);
    assert_eq!(d.try_enqueue(&info("app", "aé")), Ok(()));
    assert_eq!(d.try_enqueue(&info("app", "éé")), Ok(()));
    d.flush();
    assert_eq!(*rec.seen.borrow(), vec!["aéé\u{FFFD}".to_string()]);
}

#[test]
fn immediate_record_on_full_ring_still_flushes() {
    let (mut d, rec) = logger(4, 16);
    assert_eq!(d.try_enqueue(&info("app", "abc")), Ok(()));
    assert_eq!(d.try_enqueue(&info("app", "x")), Err(AtCapacity));
    assert_eq!(d.try_enqueue(&info("!", "urgent")), Ok(()));
    assert_eq!(*rec.seen.borrow(), vec!["urgent\n".to_string()]);
    let s = d.statistics();
    assert_eq!((s.attempts, s.successes, s.written), (3, 2, 4));
}

#[test]
fn gate_switches() {
    let closed = Gate { all: false, none: false, error: false, warn: true, info: false, debug: false, trace: false };
    assert!(closed.lets_through(Level::Warn));
    assert!(!closed.lets_through(Level::Info));
    let all = Gate { all: true, ..closed };
    assert!(all.lets_through(Level::Trace));
    let none = Gate { none: true, ..all };
    assert!(!none.lets_through(Level::Error));

    let rec = Recorder::default();
    let mut slot: LoggerSlot<Recorder, DefaultRenderer> = LoggerSlot::new();
    assert_eq!(slot.try_log_gated(&closed, &info("app", "x")), Ok(()));
    assert_eq!(slot.init_default(LevelFilter::Trace, rec.clone(), 32, 32), Ok(()));
    assert_eq!(slot.try_log_gated(&closed, &info("app", "dropped")), Ok(()));
    let mut w = info("app", "kept");
    w.level = Level::Warn;
    assert_eq!(slot.try_log_gated(&closed, &w), Ok(()));
    slot.flush();
    assert_eq!(*rec.seen.borrow(), vec!["kept\n".to_string()]);
    assert_eq!(slot.statistics().map(|s| s.attempts), Some(1));
}
