use verge_proxy::mode::Mode;

#[test]
fn displays_modes_in_chinese() {
    assert_eq!(Mode::parse("rule").label(), "规则");
    assert_eq!(Mode::parse("global").label(), "全局");
    assert_eq!(Mode::parse("direct").label(), "直连");
}

#[test]
fn modes_keep_their_names() {
    for name in ["rule", "global", "direct", "script", ""] {
        let mode = Mode::parse(name);
        assert_eq!(mode.api_value(), name);
        assert_eq!(Mode::parse(mode.api_value()), mode);
        assert_eq!(mode.is_direct(), name == "direct");
    }
    assert_eq!(Mode::parse("script").label(), "script");
}
