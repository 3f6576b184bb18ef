use verge_proxy::filter::{
    candidate_batches, filter_nodes_by_keyword, fuzzy_filter_nodes, keep_matching,
    parse_filter_ranges,
};

#[test]
fn filter_ranges_match_in_order_with_fallback() {
    let nodes = vec![
        "日本 A".to_string(),
        "新加坡 B".to_string(),
        "美国 C".to_string(),
    ];
    let batches = candidate_batches(&nodes, &["新加坡".to_string(), "日本".to_string()]);
    assert_eq!(
        batches[0],
        ("新加坡".to_string(), vec!["新加坡 B".to_string()])
    );
    assert_eq!(batches[1], ("日本".to_string(), vec!["日本 A".to_string()]));
    assert_eq!(
        batches[2],
        ("其他节点".to_string(), vec!["美国 C".to_string()])
    );
}

#[test]
fn node_filter_is_applied_before_dialoguer_select_with_comma_or() {
    let items = vec![
        "日本 A".to_string(),
        "新加坡 B".to_string(),
        "美国 C".to_string(),
    ];
    assert_eq!(filter_nodes_by_keyword(&items, None), items);
    assert_eq!(
        filter_nodes_by_keyword(&items, Some("日本")),
        vec!["日本 A".to_string()]
    );
    assert_eq!(
        filter_nodes_by_keyword(&items, Some("日本, 美国")),
        vec!["日本 A".to_string(), "美国 C".to_string()]
    );
    assert!(filter_nodes_by_keyword(&items, Some("德国,法国")).is_empty());
}

fn owned(list: &[&str]) -> Vec<String> {
    list.iter().map(|text| text.to_string()).collect()
}

#[test]
fn filter_comes_before_the_configured_ranges() {
    let configured = owned(&[" 美国 ", "", " "]);
    assert_eq!(
        parse_filter_ranges(Some(" 日本,, 新加坡 "), &configured),
        ["日本", "新加坡"]
    );
    assert!(parse_filter_ranges(Some(""), &configured).is_empty());
    assert_eq!(parse_filter_ranges(None, &configured), ["美国"]);
}

#[test]
fn batches_hold_every_node_where_it_belongs() {
    let nodes = owned(&["日本 A", "日本 新加坡", "美国 C", "日本 A"]);
    assert_eq!(
        candidate_batches(&nodes, &[]),
        [("全部节点".to_string(), nodes.clone())]
    );
    let batches = candidate_batches(&nodes, &owned(&["新加坡", "日本", "德国"]));
    assert_eq!(batches.len(), 4);
    assert_eq!(batches[0].1, ["日本 新加坡"]);
    assert_eq!(batches[1].1, ["日本 A", "日本 新加坡", "日本 A"]);
    assert!(batches[2].1.is_empty());
    assert_eq!(batches[3], ("其他节点".to_string(), owned(&["美国 C"])));
    for node in &nodes {
        assert!(batches.iter().any(|(_, batch)| batch.contains(node)));
    }
    assert_eq!(candidate_batches(&nodes, &owned(&["本", "国"])).len(), 2);
}

#[test]
fn keywords_match_in_any_case() {
    let nodes = owned(&["HK iplc", "JP IEPL", "ÉCOLE"]);
    assert_eq!(fuzzy_filter_nodes(&nodes, " IPLC "), ["HK iplc"]);
    assert_eq!(fuzzy_filter_nodes(&nodes, "éc"), ["ÉCOLE"]);
    assert_eq!(fuzzy_filter_nodes(&nodes, " "), nodes);
    assert_eq!(
        filter_nodes_by_keyword(&nodes, Some("hk,Éco")),
        ["HK iplc", "ÉCOLE"]
    );
    assert_eq!(filter_nodes_by_keyword(&nodes, Some(" , ")), nodes);
    assert_eq!(filter_nodes_by_keyword(&nodes, Some("  ")), nodes);
}

#[test]
fn matching_goes_by_the_lowered_names() {
    let nodes = owned(&["A", "B"]);
    assert_eq!(
        keep_matching(&nodes, &owned(&["x", "b"]), &owned(&["x"])),
        ["A"]
    );
    assert!(keep_matching(&nodes, &owned(&["x", "b"]), &[]).is_empty());
}

#[test]
fn one_keyword_filters_like_a_filter_of_it() {
    let nodes = owned(&["HK iplc", "JP IEPL", "hk", ""]);
    for keyword in ["", "  ", "hk", " HK ", "p I", "none"] {
        let kept = fuzzy_filter_nodes(&nodes, keyword);
        assert_eq!(kept, filter_nodes_by_keyword(&nodes, Some(keyword)));
        assert_eq!(fuzzy_filter_nodes(&kept, keyword), kept);
        assert_eq!(filter_nodes_by_keyword(&kept, Some(keyword)), kept);
    }
}
