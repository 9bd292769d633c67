use grbly::ui::color::{rgba, Ink};
use grbly::ui::console::{line_color, ConsoleState, LogBuffer};

#[test]
fn repeated_lines_are_counted() {
    let mut log = LogBuffer::new();
    log.add("".into());
    assert_eq!(log.lines(), ["".to_string()]);
    for line in ["ok", "ok", "ok", "error:1", "ok"] {
        log.add(line.into());
    }
    assert_eq!(log.lines(), ["", "ok (x3)", "error:1", "ok"].map(String::from));
}

#[test]
fn the_log_keeps_the_latest_thousand() {
    let mut log = LogBuffer::new();
    for i in 0..1234 {
        log.add(format!("line {i}"));
        assert!(log.lines().len() <= 1000);
    }
    assert_eq!(log.lines().len(), 1000);
    assert_eq!(log.lines()[0], "line 234");
    assert_eq!(log.lines()[999], "line 1233");
}

#[test]
fn colours_of_lines() {
    assert_eq!(line_color("> G0"), Ink::White);
    assert_eq!(line_color("ok"), Ink::Green);
    assert_eq!(line_color("error:20"), Ink::Red);
    assert_eq!(line_color("ALARM:1"), Ink::Red);
    assert_eq!(line_color("<Idle>"), Ink::Dim);
    assert_eq!(Ink::White.color(), rgba(0xff, 0xdd, 0xaa, 0xff));
    assert_eq!(Ink::Dim.color(), rgba(0x88, 0x77, 0x44, 0xff));
}

#[test]
fn entered_lines_are_taken() {
    let mut console = ConsoleState::default();
    assert_eq!(console.submit(), None);
    console.input = "  ".into();
    assert_eq!(console.submit(), None);
    assert_eq!(console.input, "  ");
    console.input = " $$ ".into();
    assert_eq!(console.submit(), Some("$$".to_string()));
    assert_eq!(console.input, "");
}
