use delog::render::{render_arguments, render_record, DefaultRenderer, RipgrepRenderer, Truncated, WriteTo};
use delog::{Level, Record, Renderer};

fn record(level: Level, target: &str, file: Option<&str>, line: Option<u32>, message: &str) -> Record {
    Record {
        level,
        target: target.to_string(),
        file: file.map(|f| f.to_string()),
        line,
        message: message.to_string(),
    }
}

#[test]
fn render_arguments_appends_newline() {
    let mut buf = [0u8; 16];
    let n = render_arguments(&mut buf, "hello");
    assert_eq!(&buf[..n], b"hello\n");
    assert_eq!(buf[n], 0);
}

#[test]
fn render_arguments_truncates() {
    let mut buf = [0u8; 4];
    let n = render_arguments(&mut buf, "hello");
    assert_eq!(&buf[..n], b"hell");
    let mut exact = [0u8; 5];
    let n = render_arguments(&mut exact, "hello");
    assert_eq!(&exact[..n], b"hello");
    let mut none: [u8; 0] = [];
    assert_eq!(render_arguments(&mut none, "hello"), 0);
}

#[test]
fn write_to_keeps_what_fits() {
    let mut buf = [0u8; 6];
    let mut w = WriteTo::new(&mut buf);
    assert_eq!(w.write_str("abc"), Ok(()));
    assert_eq!(w.write_str("defg"), Err(Truncated));
    assert_eq!(w.used, 6);
    w.endl();
    assert_eq!(w.used, 6);
    assert_eq!(&buf, b"abcdef");
}

#[test]
fn write_to_endl() {
    let mut buf = [0u8; 4];
    let mut w = WriteTo::new(&mut buf);
    w.endl();
    assert_eq!(w.write_bytes(b"xy"), Ok(()));
    w.endl();
    assert_eq!(w.used, 4);
    assert_eq!(&buf, b"\nxy\n");
}

#[test]
fn level_names() {
    assert_eq!(Level::Error.as_str(), "ERROR");
    assert_eq!(Level::Warn.as_str(), "WARN");
    assert_eq!(Level::Info.as_str(), "INFO");
    assert_eq!(Level::Debug.as_str(), "DEBUG");
    assert_eq!(Level::Trace.as_str(), "TRACE");
}

#[test]
fn render_record_plain_and_prefixed() {
    let r = record(Level::Info, "app", Some("src/main.rs"), Some(42), "hi there");
    let mut buf = [0u8; 64];
    let n = render_record(&mut buf, &r, false);
    assert_eq!(&buf[..n], b"hi there\n");
    let n = render_record(&mut buf, &r, true);
    assert_eq!(&buf[..n], b"INFO|app|src/main.rs:42: hi there\n");
    let r = record(Level::Warn, "t", Some("lib.rs"), None, "msg");
    let n = render_record(&mut buf, &r, true);
    assert_eq!(&buf[..n], b"WARN|t: msg\n");
}

#[test]
fn render_record_truncated() {
    let r = record(Level::Error, "net", None, None, "down");
    let mut buf = [0u8; 8];
    let n = render_record(&mut buf, &r, true);
    assert_eq!(&buf[..n], b"ERROR|ne");
}

#[test]
fn ripgrep_renderer_cases() {
    let mut buf = [0u8; 64];
    let both = record(Level::Debug, "x", Some("a.rs"), Some(7), "m");
    let n = RipgrepRenderer {}.render(&mut buf, &both);
    assert_eq!(&buf[..n], b"DEBUG|x|a.rs:7: m\n");
    let file_only = record(Level::Trace, "x", Some("a.rs"), None, "m");
    let n = RipgrepRenderer {}.render(&mut buf, &file_only);
    assert_eq!(&buf[..n], b"TRACE|x|a.rs: m\n");
    let neither = record(Level::Info, "x", None, Some(3), "m");
    let n = RipgrepRenderer {}.render(&mut buf, &neither);
    assert_eq!(&buf[..n], b"INFO|x: m\n");
    let big_line = record(Level::Info, "x", Some("f"), Some(4294967295), "");
    let n = RipgrepRenderer {}.render(&mut buf, &big_line);
    assert_eq!(&buf[..n], b"INFO|x|f:4294967295: \n");
    let zero_line = record(Level::Info, "x", Some("f"), Some(0), "z");
    let n = RipgrepRenderer {}.render(&mut buf, &zero_line);
    assert_eq!(&buf[..n], b"INFO|x|f:0: z\n");
}

#[test]
fn default_renderer_renders_message() {
    let r = record(Level::Info, "x", Some("a.rs"), Some(7), "only this");
    let mut buf = [0u8; 32];
    let n = DefaultRenderer {}.render(&mut buf, &r);
    assert_eq!(&buf[..n], b"only this\n");
    let n = delog::render::default().render(&mut buf, &r);
    assert_eq!(&buf[..n], b"only this\n");
}

#[test]
fn immediate_target_is_exactly_bang() {
    assert!(record(Level::Info, "!", None, None, "").is_immediate());
    assert!(!record(Level::Info, "!!", None, None, "").is_immediate());
    assert!(!record(Level::Info, "a", None, None, "").is_immediate());
    assert!(!record(Level::Info, "", None, None, "").is_immediate());
    assert!(!record(Level::Info, "é", None, None, "").is_immediate());
}
