use verge_proxy::ansi::{ANSI_BOLD_GREEN, ANSI_BOLD_RED, ANSI_RESET};
use verge_proxy::session::{
    change_refusal, proxy_exports, proxy_name_conflict, proxy_removal, shell_error, start_refusal,
};
use verge_proxy::{
    success_line, Delay, Mode, PromptConfig, StatusInfo, TagDefaults,
};

const CONFLICT: &str = "proxy_name 当前为 other，非 verge，拒绝操作";

#[test]
fn names_of_other_programs_conflict() {
    assert_eq!(proxy_name_conflict(Some("other")).as_deref(), Some(CONFLICT));
    assert_eq!(proxy_name_conflict(Some("verge")), None);
    assert_eq!(proxy_name_conflict(Some("")), None);
    assert_eq!(proxy_name_conflict(None), None);
}

#[test]
fn start_is_refused_for_names_and_variables() {
    assert_eq!(start_refusal(Some("other"), true).as_deref(), Some(CONFLICT));
    assert_eq!(
        start_refusal(Some("verge"), true).as_deref(),
        Some("环境变量被占用，请执行 verge-proxy stop 后再次尝试")
    );
    assert_eq!(start_refusal(None, false), None);
}

#[test]
fn force_overrides_the_name() {
    assert_eq!(change_refusal(Some("other"), false).as_deref(), Some(CONFLICT));
    assert_eq!(change_refusal(Some("other"), true), None);
    assert_eq!(change_refusal(Some("verge"), false), None);
}

#[test]
fn errors_fail_in_the_calling_shell() {
    assert_eq!(
        shell_error("it's"),
        format!(
            "echo '{ANSI_BOLD_RED}✘{ANSI_RESET} it'\\''s'\nreturn 1 2>/dev/null || exit 1\n"
        )
    );
}

#[test]
fn start_script_has_its_exact_text() {
    let prompt = PromptConfig::default();
    let defaults = TagDefaults::default();
    assert_eq!(
        proxy_exports(7897, "命令行代理已开启", None, &prompt, &defaults, 80),
        format!(
            "export http_proxy=http://127.0.0.1:7897\n\
             export https_proxy=http://127.0.0.1:7897\n\
             export all_proxy=socks5://127.0.0.1:7897\n\
             export no_proxy=localhost,127.0.0.1\n\
             export proxy_name=verge\n\
             echo '{ANSI_BOLD_GREEN}✔{ANSI_RESET} 命令行代理已开启'\n"
        )
    );
    let info = StatusInfo {
        mode: Mode::Rule,
        group: "G".to_string(),
        node: "N".to_string(),
        delay: Delay::Hidden,
        port: 1,
    };
    let script = proxy_exports(1, "m", Some(&info), &prompt, &defaults, 60);
    assert!(script.ends_with(&format!(
        "echo '{}'\n",
        success_line("m", Some(&info), &prompt, &defaults, 60)
    )));
}

#[test]
fn stop_script_removes_what_start_sets() {
    let script = proxy_removal();
    assert_eq!(
        script,
        format!(
            "unset http_proxy https_proxy all_proxy no_proxy proxy_name\n\
             echo '{ANSI_BOLD_GREEN}✔{ANSI_RESET} 命令行代理已关闭，环境变量已移除'\n"
        )
    );
    let start = proxy_exports(
        1,
        "m",
        None,
        &PromptConfig::default(),
        &TagDefaults::default(),
        80,
    );
    let unset = script.lines().next().unwrap();
    for line in start.lines().filter(|line| line.starts_with("export ")) {
        let name = line["export ".len()..].split('=').next().unwrap();
        assert!(unset.split(' ').any(|word| word == name));
    }
}
