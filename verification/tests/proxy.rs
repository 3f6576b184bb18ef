use verge_proxy::controller::read_json;
use verge_proxy::proxy::can_resolve;
use verge_proxy::{
    choose_default_group, leaf_nodes_for_group, parse_proxies, proxies_from_pairs,
    resolve_active_group_and_node, selector_groups, ControllerError, Mode,
};

#[test]
fn resolves_global_group_to_nested_manual_node() {
    let proxies = proxies_from_pairs(&[
        ("GLOBAL", "🔰 手动选择", &["DIRECT", "🔰 手动选择"]),
        ("🔰 手动选择", "日本 A19", &["日本 A19", "新加坡 B01"]),
    ]);
    assert_eq!(
        resolve_active_group_and_node(&Mode::Rule, &proxies),
        ("🔰 手动选择".to_string(), "日本 A19".to_string())
    );
}

#[test]
fn resolves_leaf_global_now_as_global_group() {
    let proxies = proxies_from_pairs(&[
        ("GLOBAL", "日本 A19", &["DIRECT", "🔰 手动选择", "日本 A19"]),
        ("🔰 手动选择", "新加坡 B01", &["日本 A19", "新加坡 B01"]),
    ]);
    assert_eq!(
        resolve_active_group_and_node(&Mode::Global, &proxies),
        ("GLOBAL".to_string(), "日本 A19".to_string())
    );
}

#[test]
fn direct_mode_status_is_direct_even_if_selectors_have_other_state() {
    let proxies = proxies_from_pairs(&[
        ("GLOBAL", "🔰 手动选择", &["DIRECT", "🔰 手动选择"]),
        ("🔰 手动选择", "日本 A19", &["日本 A19"]),
    ]);
    assert_eq!(
        resolve_active_group_and_node(&Mode::Direct, &proxies),
        ("DIRECT".to_string(), "DIRECT".to_string())
    );
}

#[test]
fn proxies_are_read_from_the_answer() {
    let answer = read_json(
        r#"{"proxies": {
            "G": {"type": "Selector", "now": "A", "all": ["A", 1, "B"]},
            "A": {"type": "Vmess", "history": []},
            "odd": 5
        }}"#
        .as_bytes(),
    )
    .unwrap();
    let proxies = parse_proxies(answer).unwrap();
    let group = proxies.get("G").unwrap();
    assert_eq!(group.name, "G");
    assert_eq!(group.proxy_type, "Selector");
    assert_eq!(group.now.as_deref(), Some("A"));
    assert_eq!(group.all, ["A", "B"]);
    let node = proxies.get("A").unwrap();
    assert_eq!(node.proxy_type, "Vmess");
    assert_eq!(node.now, None);
    assert!(node.all.is_empty());
    assert_eq!(proxies.get("odd").unwrap().proxy_type, "");
    assert!(proxies.get("B").is_none());
}

#[test]
fn answers_without_proxies_are_refused() {
    for text in ["{}", "[]", r#"{"proxies": []}"#, r#"{"proxies": null}"#] {
        let error = parse_proxies(read_json(text.as_bytes()).unwrap()).err().unwrap();
        assert!(matches!(error, ControllerError::MissingProxies));
        assert_eq!(error.message(), "controller response missing proxies object");
    }
}

#[test]
fn later_pairs_replace_earlier_ones() {
    let proxies = proxies_from_pairs(&[("a", "x", &["x"]), ("b", "", &[]), ("a", "y", &["y", "z"])]);
    let proxy = proxies.get("a").unwrap();
    assert_eq!(proxy.now.as_deref(), Some("y"));
    assert_eq!(proxy.all, ["y", "z"]);
    assert_eq!(proxies.get("b").unwrap().now, None);
    assert_eq!(proxies.get("b").unwrap().proxy_type, "Selector");
}

#[test]
fn groups_come_in_the_order_of_their_names() {
    let proxies = proxies_from_pairs(&[
        ("b", "", &["x"]),
        ("é", "", &["x"]),
        ("leaf", "", &[]),
        ("a", "", &["x"]),
        ("B", "", &["x"]),
    ]);
    assert_eq!(selector_groups(&proxies), ["B", "a", "b", "é"]);
}

#[test]
fn default_group_is_the_manual_one() {
    let named = proxies_from_pairs(&[("x 手动选择", "", &["a"]), ("🔰 手动选择", "", &[])]);
    assert_eq!(choose_default_group(&named).as_deref(), Some("🔰 手动选择"));
    let marked = proxies_from_pairs(&[("GLOBAL", "", &["g"]), ("g", "", &["a"]), ("x 手动选择 y", "", &[])]);
    assert_eq!(choose_default_group(&marked).as_deref(), Some("x 手动选择 y"));
    let first = proxies_from_pairs(&[
        ("GLOBAL", "", &["DIRECT", "leaf", "g", "h"]),
        ("leaf", "", &[]),
        ("g", "", &["a"]),
        ("h", "", &["a"]),
    ]);
    assert_eq!(choose_default_group(&first).as_deref(), Some("g"));
    assert_eq!(choose_default_group(&proxies_from_pairs(&[])), None);
}

#[test]
fn circles_and_missing_selections_lead_to_what_is_known() {
    let circle = proxies_from_pairs(&[
        ("GLOBAL", "a", &["a"]),
        ("a", "b", &["b"]),
        ("b", "a", &["a"]),
    ]);
    assert_eq!(
        resolve_active_group_and_node(&Mode::Rule, &circle),
        ("a".to_string(), "a".to_string())
    );
    let nothing = proxies_from_pairs(&[]);
    assert_eq!(
        resolve_active_group_and_node(&Mode::Rule, &nothing),
        ("GLOBAL".to_string(), "未知".to_string())
    );
    let unselected = proxies_from_pairs(&[("GLOBAL", "", &["g"]), ("g", "n", &["n"])]);
    assert_eq!(
        resolve_active_group_and_node(&Mode::Rule, &unselected),
        ("g".to_string(), "n".to_string())
    );
}

#[test]
fn unnamed_group_without_a_global_selection_is_not_resolved() {
    let unnamed = proxies_from_pairs(&[("", "n", &["n"])]);
    assert!(!can_resolve(&Mode::Rule, &unnamed));
    assert!(can_resolve(&Mode::Direct, &unnamed));
    assert!(can_resolve(&Mode::Rule, &proxies_from_pairs(&[])));
}

#[test]
fn leaves_are_nodes_of_groups_and_their_groups() {
    let proxies = proxies_from_pairs(&[
        ("g", "", &["a", "h", "REJECT", "a", "g"]),
        ("h", "", &["b", "g", "DIRECT"]),
        ("a", "", &[]),
    ]);
    assert_eq!(
        leaf_nodes_for_group("g", &proxies),
        ["a", "b", "DIRECT", "a"]
    );
    assert_eq!(leaf_nodes_for_group("a", &proxies), ["a"]);
    assert_eq!(leaf_nodes_for_group("none", &proxies), ["none"]);
    assert!(leaf_nodes_for_group("REJECT", &proxies).is_empty());
}

#[test]
fn leaves_count_every_reachable_group_once() {
    let proxies = proxies_from_pairs(&[
        ("top", "", &["left", "right", "x"]),
        ("left", "", &["deep", "x", "y"]),
        ("right", "", &["deep", "left", "y"]),
        ("deep", "", &["x", "z", "top", "REJECT"]),
        ("apart", "", &["x", "w"]),
    ]);
    let leaves = leaf_nodes_for_group("top", &proxies);
    let count = |name: &str| leaves.iter().filter(|leaf| leaf.as_str() == name).count();
    assert_eq!(leaves, ["x", "z", "x", "y", "y", "x"]);
    assert_eq!(count("x"), 3);
    assert_eq!(count("y"), 2);
    assert_eq!(count("z"), 1);
    assert_eq!(count("w"), 0);
    assert_eq!(count("REJECT"), 0);
}
