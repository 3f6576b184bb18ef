use verge_proxy::ansi::{ansi_bg_fg, ansi_fg, ANSI_BOLD_GREEN, ANSI_BOLD_RED, ANSI_RESET};
use verge_proxy::mode::Mode;
use verge_proxy::prompt::{
    error_line, format_status_prompt, normalize_prompt_text, success_line, PromptConfig,
    PromptSegment, TagDefaults,
};
use verge_proxy::status::{Delay, StatusInfo};
use verge_proxy::width::prompt_display_width;

fn display_width(input: &str) -> usize {
    unicode_width::UnicodeWidthStr::width(input)
}

fn strip_ansi(input: &str) -> String {
    let mut output = String::new();
    let mut chars = input.chars().peekable();
    while let Some(ch) = chars.next() {
        if ch == '\x1b' && chars.peek() == Some(&'[') {
            chars.next();
            for next in chars.by_ref() {
                if next.is_ascii_alphabetic() {
                    break;
                }
            }
            continue;
        }
        output.push(ch);
    }
    output
}

#[test]
fn status_prompt_is_single_line_without_field_names() {
    let info = StatusInfo {
        mode: Mode::Rule,
        group: "🔰 手动选择".to_string(),
        node: "日本 A19".to_string(),
        delay: Delay::Value(108),
        port: 7897,
    };
    let prompt = format_status_prompt(&info, &PromptConfig::default(), &TagDefaults::default(), 240, 0);
    assert!(!prompt.contains("mode"));
    assert!(!prompt.contains("group"));
    assert!(!prompt.contains("node"));
    assert!(!prompt.contains("port"));
    assert!(prompt.contains("规则"));
    assert!(prompt.contains("🔰 手动选择"));
    assert!(prompt.contains("日本 A19"));
    assert!(prompt.contains("108ms"));
    assert!(prompt.contains("7897"));
}

#[test]
fn status_prompt_wraps_between_complete_segments() {
    let info = StatusInfo {
        mode: Mode::Rule,
        group: "🔰 手动选择".to_string(),
        node: "日本 A19 IPV6双栈本地路由".to_string(),
        delay: Delay::Value(108),
        port: 7897,
    };
    let prompt = format_status_prompt(&info, &PromptConfig::default(), &TagDefaults::default(), 24, 0);
    assert!(prompt.contains('\n'));
    for line in prompt.lines() {
        assert!(line.contains(''));
        assert!(line.contains(''));
    }
}

#[test]
fn status_prompt_truncates_long_segments_to_terminal_width() {
    let info = StatusInfo {
        mode: Mode::Rule,
        group: "🔰 手动选择".to_string(),
        node: "日本 A19 IPV6双栈本地路由-超长节点名称-用于验证不会段内折行".to_string(),
        delay: Delay::Value(108),
        port: 7897,
    };
    let prompt = format_status_prompt(&info, &PromptConfig::default(), &TagDefaults::default(), 24, 0);
    let plain = strip_ansi(&prompt);

    assert!(plain.contains('…'));
    for line in plain.lines() {
        assert!(
            display_width(line) <= 24,
            "line width {} exceeded limit: {line}",
            display_width(line)
        );
        assert!(line.contains(''));
        assert!(line.contains(''));
    }
}

#[test]
fn status_prompt_normalizes_embedded_newlines_in_segments() {
    let info = StatusInfo {
        mode: Mode::Rule,
        group: "🔰 手动选择".to_string(),
        node: "日本 A13\n电信优化路由".to_string(),
        delay: Delay::Value(108),
        port: 7897,
    };
    let prompt = format_status_prompt(&info, &PromptConfig::default(), &TagDefaults::default(), 80, 0);
    let plain = strip_ansi(&prompt);

    assert!(plain.contains("日本 A13 电信优化路由"));
    for line in plain.lines() {
        assert!(line.contains(''));
        assert!(line.contains(''));
    }
}

#[test]
fn status_prompt_wraps_before_node_when_icon_widths_are_ambiguous() {
    let info = StatusInfo {
        mode: Mode::Rule,
        group: "🔰 手动选择".to_string(),
        node: "日本 A13 电信优化路由".to_string(),
        delay: Delay::Value(208),
        port: 7897,
    };
    let prompt = format_status_prompt(
        &info,
        &PromptConfig::default(),
        &TagDefaults::default(),
        60,
        display_width("错误：已取消") + 3,
    );
    let plain = strip_ansi(&prompt);
    let lines = plain.lines().collect::<Vec<_>>();

    assert!(lines.len() >= 2, "plain prompt: {plain:?}");
    assert!(
        !lines[0].contains("日本 A13"),
        "first line width {}, prompt width {}, line: {:?}",
        display_width(lines[0]),
        prompt_display_width(lines[0]),
        lines[0]
    );
    assert!(lines[1].contains("日本 A13 电信优化路由"));
}

#[test]
fn success_and_error_lines_use_bold_colored_prefixes() {
    let info = StatusInfo {
        mode: Mode::Direct,
        group: "DIRECT".to_string(),
        node: "DIRECT".to_string(),
        delay: Delay::Timeout,
        port: 7897,
    };
    let prompt = PromptConfig::default();
    assert!(success_line("设置直连成功", Some(&info), &prompt, &TagDefaults::default(), 80).starts_with(ANSI_BOLD_GREEN));
    assert!(error_line("错误：已取消", Some(&info), &prompt, &TagDefaults::default(), 80).starts_with(ANSI_BOLD_RED));
}

#[test]
fn status_prompt_hides_default_mode_and_group_tags() {
    let info = StatusInfo {
        mode: Mode::Rule,
        group: "🔰 手动选择".to_string(),
        node: "日本 A19".to_string(),
        delay: Delay::Value(108),
        port: 7897,
    };
    let defaults = TagDefaults {
        mode: Some("rule".to_string()),
        group: Some("🔰 手动选择".to_string()),
    };
    let prompt = format_status_prompt(&info, &PromptConfig::default(), &defaults, 240, 0);
    let plain = strip_ansi(&prompt);

    assert!(!plain.contains("规则"));
    assert!(!plain.contains("手动选择"));
    assert!(plain.contains("日本 A19"));
    assert!(plain.contains("108ms"));
    assert!(plain.contains("7897"));
    // 首个可见 tag 仍显示左胶囊
    assert!(plain.starts_with('\u{e0b6}'));
}

#[test]
fn status_prompt_keeps_non_default_mode_and_group_tags() {
    let info = StatusInfo {
        mode: Mode::Global,
        group: "🚀 节点选择".to_string(),
        node: "日本 A19".to_string(),
        delay: Delay::Value(108),
        port: 7897,
    };
    let defaults = TagDefaults {
        mode: Some("rule".to_string()),
        group: Some("🔰 手动选择".to_string()),
    };
    let prompt = format_status_prompt(&info, &PromptConfig::default(), &defaults, 240, 0);
    let plain = strip_ansi(&prompt);

    assert!(plain.contains("全局"));
    assert!(plain.contains("🚀 节点选择"));
}

#[test]
fn status_prompt_joins_adjacent_tags_without_gap() {
    let info = StatusInfo {
        mode: Mode::Rule,
        group: "🔰 手动选择".to_string(),
        node: "日本 A19".to_string(),
        delay: Delay::Value(108),
        port: 7897,
    };
    let prompt =
        format_status_prompt(&info, &PromptConfig::default(), &TagDefaults::default(), 240, 0);
    let plain = strip_ansi(&prompt);

    // 单行内只有第一个 tag 显示左胶囊，其余 tag 紧挨左侧 tag
    assert_eq!(plain.matches('\u{e0b6}').count(), 1);
    assert_eq!(plain.matches('\u{e0b4}').count(), 5);
    assert!(!plain.contains("\u{e0b4} \u{e0b6}"));
}

#[test]
fn status_prompt_omits_delay_segment_when_hidden() {
    let info = StatusInfo {
        mode: Mode::Rule,
        group: "🔰 手动选择".to_string(),
        node: "日本 A19".to_string(),
        delay: Delay::Hidden,
        port: 7897,
    };
    let prompt =
        format_status_prompt(&info, &PromptConfig::default(), &TagDefaults::default(), 240, 0);
    let plain = strip_ansi(&prompt);

    assert!(!plain.contains("ms"));
    assert!(!plain.contains("timeout"));
    assert!(plain.contains("日本 A19"));
    assert!(plain.contains("7897"));
}

#[test]
fn status_prompt_blends_right_cap_into_next_segment_background() {
    let info = StatusInfo {
        mode: Mode::Rule,
        group: "🔰 手动选择".to_string(),
        node: "日本 A19".to_string(),
        delay: Delay::Value(108),
        port: 7897,
    };
    let prompt =
        format_status_prompt(&info, &PromptConfig::default(), &TagDefaults::default(), 240, 0);

    // 相邻 segment 的右胶囊：fg=当前段颜色，bg=下一段颜色，衔接处不 reset
    assert!(prompt.contains(&format!("{}\u{e0b4}", ansi_bg_fg("#f9e2af", "#fab387"))));
    assert!(prompt.contains(&format!("{}\u{e0b4}", ansi_bg_fg("#a6e3a1", "#f9e2af"))));
    assert!(prompt.contains(&format!("{}\u{e0b4}", ansi_bg_fg("#74c7ec", "#a6e3a1"))));
    // 行尾右胶囊画在默认背景上
    assert!(prompt.ends_with(&format!("{}\u{e0b4}{ANSI_RESET}", ansi_fg("#b4befe"))));
}

#[test]
fn status_prompt_wrapped_lines_restart_with_left_capsule() {
    let info = StatusInfo {
        mode: Mode::Rule,
        group: "🔰 手动选择".to_string(),
        node: "日本 A19".to_string(),
        delay: Delay::Value(108),
        port: 7897,
    };
    let prompt =
        format_status_prompt(&info, &PromptConfig::default(), &TagDefaults::default(), 24, 0);
    let plain = strip_ansi(&prompt);

    assert!(plain.lines().count() > 1);
    for line in plain.lines() {
        assert_eq!(line.matches('\u{e0b6}').count(), 1, "line: {line}");
        assert!(line.contains('\u{e0b4}'));
    }
}

fn sample() -> StatusInfo {
    StatusInfo {
        mode: Mode::Global,
        group: "G".to_string(),
        node: "N".to_string(),
        delay: Delay::Timeout,
        port: 80,
    }
}

#[test]
fn prompt_has_its_exact_text() {
    let defaults = TagDefaults {
        mode: Some(" global ".to_string()),
        group: Some("G".to_string()),
    };
    let config = PromptConfig {
        node_icon: Some("n".to_string()),
        delay_icon: Some("d".to_string()),
        port_icon: Some("p".to_string()),
        ..PromptConfig::default()
    };
    let fg = ansi_fg("#a6e3a1");
    let node = ansi_bg_fg("#a6e3a1", "#11111b");
    let delay = ansi_bg_fg("#74c7ec", "#11111b");
    let port = ansi_bg_fg("#b4befe", "#11111b");
    assert_eq!(
        format_status_prompt(&sample(), &config, &defaults, 80, 0),
        format!(
            "{fg}\u{e0b6}{node} n N {}\u{e0b4}{delay} d timeout {}\u{e0b4}{port} p 80 {ANSI_RESET}{}\u{e0b4}{ANSI_RESET}",
            ansi_bg_fg("#74c7ec", "#a6e3a1"),
            ansi_bg_fg("#b4befe", "#74c7ec"),
            ansi_fg("#b4befe"),
        )
    );
}

#[test]
fn lines_with_their_caps_fit_the_terminal() {
    for node in ["新加坡 IPLC 专线中转 very long name", "sixteen letters!", "N"] {
        let mut info = sample();
        info.node = node.to_string();
        for icon in [None, Some("I".to_string())] {
            let config = PromptConfig {
                node_icon: icon,
                ..PromptConfig::default()
            };
            for width in [0usize, 20, 21, 24, 33, 60, 80] {
                let terminal = width.max(20);
                for initial in [0usize, 7, 20] {
                    let prompt = format_status_prompt(
                        &info,
                        &config,
                        &TagDefaults::default(),
                        width,
                        initial,
                    );
                    for (at, line) in strip_ansi(&prompt).split('\n').enumerate() {
                        let lead = if at == 0 { initial } else { 0 };
                        assert!(lead + prompt_display_width(line) <= terminal);
                    }
                }
            }
        }
    }
}

/// The width that each tag of a line counts, with both its caps.
fn tag_widths(line: &str) -> Vec<usize> {
    line.trim_start_matches('\u{e0b6}')
        .split_terminator('\u{e0b4}')
        .map(|tag| prompt_display_width(tag) + 4)
        .collect()
}

#[test]
fn lines_break_only_where_the_next_tag_does_not_fit() {
    let mut info = sample();
    info.group = "🔰 手动选择".to_string();
    info.node = "日本 A19 IPV6双栈本地路由".to_string();
    for width in 20usize..120 {
        let prompt = format_status_prompt(
            &info,
            &PromptConfig::default(),
            &TagDefaults::default(),
            width,
            0,
        );
        let plain = strip_ansi(&prompt);
        let lines: Vec<Vec<usize>> = plain.lines().map(tag_widths).collect();
        for pair in lines.windows(2) {
            let used = pair[0].iter().sum::<usize>() - (pair[0].len() - 1);
            assert!(used + pair[1][0] - 1 >= width);
        }
    }
}

#[test]
fn columns_in_use_move_tags_to_new_lines() {
    let icon = Some("I".to_string());
    let config = PromptConfig {
        mode_icon: icon.clone(),
        group_icon: icon.clone(),
        node_icon: icon.clone(),
        delay_icon: icon.clone(),
        port_icon: icon,
    };
    let defaults = TagDefaults {
        mode: Some("rule".to_string()),
        group: Some("G".to_string()),
    };
    let info = StatusInfo {
        mode: Mode::Rule,
        group: "G".to_string(),
        node: "abc".to_string(),
        delay: Delay::Hidden,
        port: 7897,
    };
    let node = "\x1b[38;2;166;227;161m\u{e0b6}\x1b[48;2;166;227;161m\x1b[38;2;17;17;27m I abc \x1b[0m\x1b[38;2;166;227;161m\u{e0b4}\x1b[0m";
    let port = "\x1b[38;2;180;190;254m\u{e0b6}\x1b[48;2;180;190;254m\x1b[38;2;17;17;27m I 7897 \x1b[0m\x1b[38;2;180;190;254m\u{e0b4}\x1b[0m";
    assert_eq!(
        format_status_prompt(&info, &config, &defaults, 22, 11),
        format!("\n{node}\n{port}")
    );
}

fn plain_prompt(node: &str, width: usize) -> String {
    let info = StatusInfo {
        mode: Mode::Rule,
        group: "🔰 手动选择".to_string(),
        node: node.to_string(),
        delay: Delay::Value(108),
        port: 7897,
    };
    strip_ansi(&format_status_prompt(
        &info,
        &PromptConfig::default(),
        &TagDefaults::default(),
        width,
        0,
    ))
}

#[test]
fn narrow_terminals_show_one_tag_on_each_line() {
    let plain = plain_prompt("日本 A19 IPV6双栈本地路由", 24);
    let lines: Vec<&str> = plain.lines().collect();
    assert_eq!(lines.len(), 5);
    assert_eq!(lines[2], "\u{e0b6} 󰍍 日本 A19 IPV6… \u{e0b4}");
    let plain = plain_prompt("日本 A19", 24);
    assert_eq!(plain.lines().count(), 5);
    for line in plain.lines() {
        assert!(line.starts_with('\u{e0b6}'));
        assert_eq!(line.matches(['\u{e0b6}', '\u{e0b4}']).count(), 2);
    }
}

#[test]
fn embedded_line_feeds_count_as_spaces() {
    let plain = plain_prompt("日本 A13\n电信优化路由", 80);
    let lines: Vec<&str> = plain.lines().collect();
    assert_eq!(lines.len(), 2);
    assert!(lines[0].contains("日本 A13 电信优化路由"));
    assert_eq!(lines[1], "\u{e0b6} 󰤨 7897 \u{e0b4}");
}

#[test]
fn messages_have_their_exact_text() {
    let prompt = PromptConfig::default();
    let defaults = TagDefaults::default();
    assert_eq!(
        success_line("好", None, &prompt, &defaults, 80),
        format!("{ANSI_BOLD_GREEN}✔{ANSI_RESET} 好")
    );
    assert_eq!(
        error_line("坏", None, &prompt, &defaults, 80),
        format!("{ANSI_BOLD_RED}✘{ANSI_RESET} 坏")
    );
    let info = sample();
    assert_eq!(
        success_line("好", Some(&info), &prompt, &defaults, 60),
        format!(
            "{ANSI_BOLD_GREEN}✔{ANSI_RESET} 好 {}",
            format_status_prompt(&info, &prompt, &defaults, 60, 5)
        )
    );
}

#[test]
fn whitespace_in_tags_is_made_single_spaces() {
    assert_eq!(normalize_prompt_text(" a \n\t b\u{3000}c "), "a b c");
    assert_eq!(normalize_prompt_text(" \n "), "");
}

#[test]
fn tags_are_cut_icon_first() {
    let tag = PromptSegment::new("icon", "value", "#a6e3a1");
    assert_eq!(tag.width, 16);
    assert_eq!(tag.fit_to_width(16).value, "value");
    let cut = tag.fit_to_width(13);
    assert_eq!((cut.icon.as_str(), cut.value.as_str()), ("icon", "v…"));
    assert_eq!(cut.width, 13);
    let cut = tag.fit_to_width(9);
    assert_eq!((cut.icon.as_str(), cut.value.as_str()), ("i…", ""));
    assert_eq!(cut.width, 9);
    let cut = tag.fit_to_width(5);
    assert_eq!((cut.icon.as_str(), cut.value.as_str()), ("", ""));
    assert_eq!(cut.width, 7);
}

#[test]
fn tags_of_any_colour_are_measured() {
    assert_eq!(PromptSegment::new("", "", "éé12").width, 7);
}
