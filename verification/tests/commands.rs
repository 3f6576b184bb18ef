use verge_proxy::commands::{
    choice_failure, chosen_mode, current_status, delay_needs_retry, delay_target, direct_report,
    failure_report, group_menu, measured_delay, mode_menu, node_menu, search_concurrency,
    search_timeout, starting_place, width_from_columns, width_from_tput, with_delay, Command,
    Search, SearchStep,
};
use verge_proxy::probe::{BatchOutcome, DelayResult};
use verge_proxy::session::shell_error;
use verge_proxy::{
    error_line, proxies_from_pairs, AppConfig, Delay, Mode, PromptConfig, ProxyMap, TagDefaults,
};

fn proxies() -> ProxyMap {
    proxies_from_pairs(&[
        ("GLOBAL", "🔰 手动选择", &["DIRECT", "🔰 手动选择", "自动"]),
        (
            "🔰 手动选择",
            "日本 A",
            &["日本 A", "新加坡 B", "美国 C", "DIRECT", "REJECT"],
        ),
        ("自动", "日本 A", &["日本 A"]),
        ("🛑 Block", "REJECT", &["REJECT"]),
    ])
}

fn config() -> AppConfig {
    AppConfig {
        filter: None,
        concurrency: None,
        timeout_ms: None,
        mode: None,
        group: None,
        prompt: PromptConfig::default(),
    }
}

#[test]
fn shell_evaluates_what_changes_the_session() {
    assert!(Command::Start.is_evaluated());
    assert!(Command::Stop { force: true }.is_evaluated());
    assert!(Command::Restart { force: false }.is_evaluated());
    for command in [
        Command::Status,
        Command::Mode,
        Command::Group,
        Command::Node { filter: None },
        Command::Port,
        Command::AutoNode { filter: None },
        Command::Install,
    ] {
        assert!(!command.is_evaluated());
    }
}

#[test]
fn failures_are_reported_for_the_shell_or_the_eye() {
    assert_eq!(failure_report("x", true), shell_error("错误：x"));
    assert_eq!(
        failure_report("x", false),
        format!(
            "{}\n",
            error_line(
                "错误：x",
                None,
                &PromptConfig::default(),
                &TagDefaults::default(),
                80
            )
        )
    );
}

#[test]
fn cancelled_choices_are_told_apart() {
    assert_eq!(choice_failure("已取消", "已取消: x"), "错误：已取消");
    assert_eq!(choice_failure("IO", "IO: broken"), "错误：IO: broken");
}

#[test]
fn terminal_width_is_told_or_guessed() {
    assert_eq!(width_from_columns(Some("120")), Some(120));
    assert_eq!(width_from_columns(Some("0")), None);
    assert_eq!(width_from_columns(Some(" 120")), None);
    assert_eq!(width_from_columns(None), None);
    assert_eq!(width_from_tput(Some(" 132\n")), 132);
    assert_eq!(width_from_tput(Some("0\n")), 0);
    assert_eq!(width_from_tput(Some("wide")), 80);
    assert_eq!(width_from_tput(None), 80);
}

#[test]
fn modes_are_offered_from_the_current_one() {
    for (place, mode) in [Mode::Rule, Mode::Global, Mode::Direct].iter().enumerate() {
        let menu = mode_menu(mode);
        assert_eq!(menu.title, "切换模式");
        assert_eq!(menu.options, ["规则", "全局", "直连"]);
        assert_eq!(menu.initial, place);
        assert_eq!(chosen_mode(place), *mode);
    }
    assert_eq!(mode_menu(&Mode::Unknown("script".to_string())).initial, 0);
}

#[test]
fn direct_mode_offers_nothing() {
    assert_eq!(direct_report(&Mode::Direct), Some("设置直连成功"));
    assert_eq!(direct_report(&Mode::Global), None);
}

#[test]
fn groups_are_offered_in_order() {
    let menu = group_menu(&Mode::Rule, &proxies()).unwrap();
    assert_eq!(menu.title, "切换代理组");
    assert_eq!(menu.options, ["自动", "🔰 手动选择"]);
    assert_eq!(menu.initial, 1);
    let none = proxies_from_pairs(&[("GLOBAL", "A", &["A"])]);
    assert_eq!(
        group_menu(&Mode::Rule, &none).err(),
        Some("没有可切换的代理组")
    );
}

#[test]
fn nodes_are_offered_as_the_filter_keeps_them() {
    let (group, menu) = node_menu(&Mode::Rule, &proxies(), None).unwrap();
    assert_eq!(group, "🔰 手动选择");
    assert_eq!(menu.title, "切换节点: 🔰 手动选择");
    assert_eq!(menu.options, ["日本 A", "新加坡 B", "美国 C", "DIRECT"]);
    assert_eq!(menu.initial, 0);
    let (_, menu) = node_menu(&Mode::Rule, &proxies(), Some("c, b")).unwrap();
    assert_eq!(menu.options, ["新加坡 B", "美国 C", "DIRECT"]);
    assert_eq!(menu.initial, 0);
    assert_eq!(
        node_menu(&Mode::Rule, &proxies(), Some("德国")).err(),
        Some("错误：没有匹配节点")
    );
}

#[test]
fn choices_begin_inside_the_list() {
    assert_eq!(starting_place(0, 0), None);
    assert_eq!(starting_place(2, 3), Some(2));
    assert_eq!(starting_place(3, 3), Some(2));
}

#[test]
fn status_names_what_is_in_use() {
    let info = current_status(Mode::Rule, &proxies(), 7897);
    assert_eq!(info.group, "🔰 手动选择");
    assert_eq!(info.node, "日本 A");
    assert_eq!(info.delay, Delay::Hidden);
    assert_eq!(info.port, 7897);
    assert_eq!(delay_target(&info), "日本 A");
    let shown = with_delay(info.clone(), Delay::Value(5));
    assert_eq!(shown.delay, Delay::Value(5));
    assert_eq!(shown.node, info.node);
    let direct = current_status(Mode::Direct, &proxies(), 1);
    assert_eq!(delay_target(&direct), "DIRECT");
}

#[test]
fn delay_is_measured_twice_at_most() {
    assert!(delay_needs_retry(None));
    assert!(!delay_needs_retry(Some(1)));
    assert_eq!(measured_delay(Some(1), None), Delay::Value(1));
    assert_eq!(measured_delay(Some(1), Some(2)), Delay::Value(1));
    assert_eq!(measured_delay(None, Some(2)), Delay::Value(2));
    assert_eq!(measured_delay(None, None), Delay::Timeout);
}

fn tested(step: SearchStep) -> (String, Vec<String>) {
    match step {
        SearchStep::Test { label, nodes } => (label, nodes),
        other => panic!("{other:?}"),
    }
}

#[test]
fn search_goes_on_until_a_node_answers() {
    let mut search = Search::new(
        &Mode::Rule,
        &proxies(),
        Some("德国, 新加坡,日本"),
        Some("美国"),
    )
    .unwrap();
    assert_eq!(search.group(), "🔰 手动选择");
    // No node is in the first range, so that the second one comes first.
    let (label, nodes) = tested(search.advance());
    assert_eq!(label, "新加坡");
    assert_eq!(nodes, ["新加坡 B"]);
    let (label, nodes) = tested(search.take_outcome(BatchOutcome::Empty));
    assert_eq!(label, "日本");
    assert_eq!(nodes, ["日本 A"]);
    let (label, nodes) = tested(search.take_outcome(BatchOutcome::Cancelled));
    assert_eq!(label, "其他节点");
    assert_eq!(nodes, ["美国 C"]);
    let best = DelayResult {
        node: "美国 C".to_string(),
        delay: 9,
    };
    match search.take_outcome(BatchOutcome::Best(best)) {
        SearchStep::Select(best) => assert_eq!((best.node.as_str(), best.delay), ("美国 C", 9)),
        other => panic!("{other:?}"),
    }
    assert!(matches!(
        search.take_outcome(BatchOutcome::Empty),
        SearchStep::Fail
    ));
}

#[test]
fn search_uses_the_configured_ranges_without_a_filter() {
    let mut search = Search::new(&Mode::Rule, &proxies(), None, Some("美国,,")).unwrap();
    assert_eq!(tested(search.advance()).0, "美国");
    let mut search = Search::new(&Mode::Rule, &proxies(), None, None).unwrap();
    let (label, nodes) = tested(search.advance());
    assert_eq!(label, "全部节点");
    assert_eq!(nodes, ["日本 A", "新加坡 B", "美国 C"]);
    assert!(matches!(search.advance(), SearchStep::Fail));
}

#[test]
fn search_needs_a_node_to_test() {
    let proxies = proxies_from_pairs(&[("GLOBAL", "DIRECT", &["DIRECT", "REJECT"])]);
    assert_eq!(
        Search::new(&Mode::Rule, &proxies, None, None).unwrap_err(),
        "代理组 GLOBAL 没有可测速节点"
    );
}

#[test]
fn search_limits_are_bounded() {
    assert_eq!(search_concurrency(&config()), 20);
    for (value, count) in [(0, 1), (1, 1), (30, 30), (256, 256), (257, 256)] {
        let config = AppConfig {
            concurrency: Some(value),
            ..config()
        };
        assert_eq!(search_concurrency(&config), count);
    }
    assert_eq!(search_timeout(&config()), 5000);
    for (value, timeout) in [(0, 1), (1, 1), (2000, 2000)] {
        let config = AppConfig {
            timeout_ms: Some(value),
            ..config()
        };
        assert_eq!(search_timeout(&config), timeout);
    }
}
