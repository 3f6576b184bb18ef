use verge_proxy::probe::{
    key_action, probe_frame, render_bar, render_probe_line, spinner_frame, worker_count, Batch,
    BatchOutcome, DelayResult, KeyAction, KeyReport, ANSI_BAR_EMPTY, ANSI_BAR_FILLED,
    SPINNER_FRAMES,
};

fn display_width(input: &str) -> usize {
    unicode_width::UnicodeWidthStr::width(input)
}

fn strip_ansi(input: &str) -> String {
    let mut output = String::new();
    let mut chars = input.chars().peekable();
    while let Some(ch) = chars.next() {
        if ch == '\x1b' && chars.peek() == Some(&'[') {
            chars.next();
            for next in chars.by_ref() {
                if next.is_ascii_alphabetic() {
                    break;
                }
            }
            continue;
        }
        output.push(ch);
    }
    output
}

#[test]
fn spinner_frame_cycles() {
    assert_eq!(spinner_frame(0), SPINNER_FRAMES[0]);
    assert_eq!(spinner_frame(10), SPINNER_FRAMES[0]);
    assert_eq!(spinner_frame(11), SPINNER_FRAMES[1]);
}

#[test]
fn probe_line_shows_spinner_label_and_count() {
    let line = render_probe_line("⠋", "日本", 12, 36, 80);
    let plain = strip_ansi(&line);
    assert!(plain.starts_with("⠋ "));
    assert!(plain.contains("节点延迟测试: 日本"));
    assert!(plain.contains("12/36"));
    assert!(plain.contains('━') || plain.contains('─'));
}

#[test]
fn probe_line_bar_shrinks_and_never_overflows_width() {
    for width in [20usize, 24, 30, 40, 60, 80, 120] {
        let line = render_probe_line("⠹", "新加坡 IPLC 专线中转", 3, 50, width);
        let plain = strip_ansi(&line);
        assert!(
            display_width(&plain) <= width,
            "width={width} rendered={} line={plain:?}",
            display_width(&plain)
        );
    }
}

#[test]
fn probe_line_bar_fills_proportionally() {
    let none = strip_ansi(&render_probe_line("⠋", "日本", 0, 10, 80));
    let full = strip_ansi(&render_probe_line("⠋", "日本", 10, 10, 80));
    assert!(!none.contains('━'));
    assert!(!full.contains('─'));
    assert!(full.contains('━'));
}

#[test]
fn bar_has_its_exact_text() {
    assert_eq!(
        render_bar(4, 1, 2),
        format!("{ANSI_BAR_FILLED}━━{ANSI_BAR_EMPTY}──\u{1b}[0m")
    );
    assert_eq!(
        render_bar(3, 5, 2),
        format!("{ANSI_BAR_FILLED}━━━{ANSI_BAR_EMPTY}\u{1b}[0m")
    );
    assert_eq!(
        render_bar(2, 0, 0),
        format!("{ANSI_BAR_FILLED}━━{ANSI_BAR_EMPTY}\u{1b}[0m")
    );
    assert_eq!(render_bar(0, 1, 2), "");
}

#[test]
fn bar_never_shrinks_as_work_is_done() {
    for width in [1usize, 7, 36] {
        let mut before = 0;
        for done in 0..=50u64 {
            let filled = render_bar(width, done, 50).matches('━').count();
            assert!(filled >= before);
            assert_eq!(filled, done as usize * width / 50);
            before = filled;
        }
        assert_eq!(before, width);
    }
}

#[test]
fn probe_line_has_its_exact_text() {
    assert_eq!(
        render_probe_line("⠋", "日本", 1, 2, 30),
        format!(
            "\u{1b}[94m⠋\u{1b}[0m 节点延迟测试: 日本 {ANSI_BAR_FILLED}━━{ANSI_BAR_EMPTY}───\u{1b}[0m 1/2"
        )
    );
    // Ten columns are the least: four for the frame, three for the count, three for the rest.
    assert_eq!(
        render_probe_line("⠋", "日本", 1, 2, 0),
        "\u{1b}[94m⠋\u{1b}[0m 节… 1/2"
    );
}

#[test]
fn probe_line_without_room_for_its_label_still_fits() {
    let line = render_probe_line("⠋", "日本", 100, 100, 10);
    assert_eq!(line, "\u{1b}[94m⠋\u{1b}[0m  100/100");
    assert_eq!(display_width(&strip_ansi(&line)), 10);
}

#[test]
fn probe_frame_shows_no_more_done_than_there_is() {
    assert_eq!(
        probe_frame(12, "日本", 9, 3, 60),
        render_probe_line(SPINNER_FRAMES[2], "日本", 3, 3, 60)
    );
}

#[test]
fn workers_are_bounded_by_nodes() {
    assert_eq!(worker_count(20, 3), 3);
    assert_eq!(worker_count(2, 3), 2);
    assert_eq!(worker_count(0, 3), 1);
    assert_eq!(worker_count(5, 0), 1);
}

fn result(node: &str, delay: u64) -> DelayResult {
    DelayResult {
        node: node.to_string(),
        delay,
    }
}

#[test]
fn batch_keeps_the_first_of_the_fastest() {
    let mut batch = Batch::new(4);
    for (node, delay) in [("A", 30), ("B", 20), ("C", 20), ("D", 25)] {
        batch.record(result(node, delay));
    }
    assert!(!batch.is_finished(3));
    assert!(batch.is_finished(4));
    match batch.outcome() {
        BatchOutcome::Best(best) => {
            assert_eq!(best.node, "B");
            assert_eq!(best.delay, 20);
        }
        other => panic!("{other:?}"),
    }
}

#[test]
fn batch_without_answers_is_empty() {
    let mut batch = Batch::new(1);
    batch.press(KeyAction::Ignore);
    assert!(matches!(batch.outcome(), BatchOutcome::Empty));
}

#[test]
fn skipped_batch_is_cancelled_whatever_answered() {
    let mut batch = Batch::new(9);
    batch.record(result("A", 30));
    batch.press(KeyAction::Skip);
    assert!(batch.is_finished(0));
    assert!(matches!(batch.outcome(), BatchOutcome::Cancelled));
}

#[test]
fn keys_skip_or_quit_when_they_go_down() {
    let key = KeyReport {
        released: false,
        escape: false,
        control: true,
        character: Some('c'),
    };
    assert_eq!(key_action(&key), KeyAction::Quit);
    assert_eq!(
        key_action(&KeyReport {
            released: true,
            ..key
        }),
        KeyAction::Ignore
    );
    assert_eq!(
        key_action(&KeyReport {
            control: false,
            ..key
        }),
        KeyAction::Ignore
    );
    assert_eq!(
        key_action(&KeyReport {
            escape: true,
            character: None,
            ..key
        }),
        KeyAction::Skip
    );
}
