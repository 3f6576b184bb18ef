use verge_proxy::config::{
    config_has_key, config_update, default_config_file, push_config_line, AppConfig,
    DEFAULT_CONFIG,
};
use verge_proxy::{
    ensure_config_defaults, remove_active_group_config, InstallAction, PromptConfig,
};

#[test]
fn install_adds_prompt_defaults_to_existing_config_without_overwriting() {
    let existing = "active_group: 🔰 手动选择\nfilter: ''\n";
    let updated = ensure_config_defaults(existing);
    assert!(!updated.contains("active_group:"));
    assert!(updated.contains("prompt:"));
    assert!(updated.contains("mode_icon"));

    assert!(updated.contains("mode: \"rule\""));
    assert!(updated.contains("group: \"🔰 手动选择\""));

    let custom = "mode: global\ngroup: 其他\nprompt:\n  mode_icon: X\n";
    assert_eq!(ensure_config_defaults(custom), custom);
}

#[test]
fn existing_prompt_config_still_drops_active_group() {
    let existing = "active_group: old\nfilter: 日本\nprompt:\n  mode_icon: X\n";
    let updated = ensure_config_defaults(existing);
    assert!(!updated.contains("active_group:"));
    assert!(updated.contains("filter: 日本"));
    assert!(updated.contains("mode_icon: X"));
    assert!(updated.contains("mode: \"rule\""));
    assert!(updated.contains("group: \"🔰 手动选择\""));
}

#[test]
fn active_group_lines_are_removed() {
    assert_eq!(
        remove_active_group_config("a: 1\r\n  active_group: x\nb: 2\n"),
        "a: 1\nb: 2\n"
    );
    assert_eq!(remove_active_group_config("a: 1\nactive_group: x"), "a: 1");
    assert_eq!(remove_active_group_config("active_group: x\n"), "");
    assert_eq!(remove_active_group_config("\n"), "");
    assert_eq!(remove_active_group_config(""), "");
    assert_eq!(
        remove_active_group_config("x active_group: 1\n"),
        "x active_group: 1\n"
    );
}

#[test]
fn keys_stand_at_the_start_of_lines() {
    assert!(config_has_key("a\n \tmode: x\n", "mode:"));
    assert!(!config_has_key("a mode: x\n", "mode:"));
    assert!(!config_has_key("", "mode:"));
}

#[test]
fn lines_are_added_at_the_end() {
    let mut text = "a".to_string();
    push_config_line(&mut text, "b");
    assert_eq!(text, "a\nb\n");
    push_config_line(&mut text, "c\n");
    assert_eq!(text, "a\nb\nc\n");
    let mut text = String::new();
    push_config_line(&mut text, "b");
    assert_eq!(text, "\nb\n");
}

#[test]
fn defaults_have_their_exact_text() {
    assert_eq!(
        ensure_config_defaults("mode: x\ngroup: y"),
        "mode: x\ngroup: y\nprompt:\n  mode_icon: \"󰒓\"\n  group_icon: \"󰓹\"\n  node_icon: \"󰍍\"\n  delay_icon: \"󱎫\"\n  port_icon: \"󰤨\"\n"
    );
    assert_eq!(
        ensure_config_defaults("prompt:\n"),
        "prompt:\nmode: \"rule\"\ngroup: \"🔰 手动选择\"\n"
    );
    assert_eq!(ensure_config_defaults(DEFAULT_CONFIG), DEFAULT_CONFIG);
    assert_eq!(
        default_config_file(),
        "filter: \"\"\nconcurrency: 20\ntimeout_ms: 5000\nmode: \"rule\"\ngroup: \"🔰 手动选择\"\nprompt:\n  mode_icon: \"󰒓\"\n  group_icon: \"󰓹\"\n  node_icon: \"󰍍\"\n  delay_icon: \"󱎫\"\n  port_icon: \"󰤨\"\n"
    );
}

#[test]
fn defaults_are_added_once() {
    for text in ["", "\n", "a", "a\nactive_group: x\n", "mode: x\r\n", "prompt:\n\n"] {
        let once = ensure_config_defaults(text);
        assert_eq!(ensure_config_defaults(&once), once);
        assert!(once.starts_with(&remove_active_group_config(text)));
        for key in ["mode:", "group:", "prompt:"] {
            assert!(config_has_key(&once, key));
        }
        assert!(!config_has_key(&once, "active_group:"));
    }
}

#[test]
fn file_is_written_only_where_it_changes() {
    let (action, text) = config_update(None);
    assert_eq!(action, InstallAction::Created);
    assert_eq!(text.as_deref(), Some(DEFAULT_CONFIG));
    let (action, text) = config_update(Some(DEFAULT_CONFIG));
    assert_eq!(action, InstallAction::Updated);
    assert_eq!(text, None);
    let (action, text) = config_update(Some("a: 1\n"));
    assert_eq!(action, InstallAction::Updated);
    assert_eq!(text, Some(ensure_config_defaults("a: 1\n")));
}

#[test]
fn tag_defaults_are_the_configured_mode_and_group() {
    let config = AppConfig {
        filter: None,
        concurrency: None,
        timeout_ms: None,
        mode: Some("rule".to_string()),
        group: None,
        prompt: PromptConfig::default(),
    };
    let defaults = config.tag_defaults();
    assert_eq!(defaults.mode.as_deref(), Some("rule"));
    assert_eq!(defaults.group, None);
}
