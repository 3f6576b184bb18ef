use verge_proxy::ansi::ANSI_BOLD_GREEN;
use verge_proxy::shell::{
    shell_single_quote, update_zshrc, BLOCK_BEGIN, BLOCK_END, COMPLETION_SCRIPT,
};
use verge_proxy::{
    install_line, replace_managed_block, zsh_wrapper_block, InstallAction, PromptConfig,
};

#[test]
fn install_block_replaces_existing_managed_region_only() {
    let original = "before\n# >>> verge-proxy >>>\nold\n# <<< verge-proxy <<<\nafter\n";
    let block = "# >>> verge-proxy >>>\nnew\n# <<< verge-proxy <<<\n";
    assert_eq!(
        replace_managed_block(original, block),
        "before\n# >>> verge-proxy >>>\nnew\n# <<< verge-proxy <<<\nafter\n"
    );
}

#[test]
fn generated_zsh_wrapper_evals_environment_commands() {
    let block = zsh_wrapper_block("/usr/local/bin/verge-proxy");
    assert!(
        block.contains(
            r#"start|stop|restart) eval "$(COLUMNS=${COLUMNS:-80} "/usr/local/bin/verge-proxy" "$@")" ;;"#
        )
    );
    assert!(block.contains(
        r#"eval "$(COLUMNS=${COLUMNS:-80} "/usr/local/bin/verge-proxy" restart -f)" >&2 || exit"#
    ));
    assert!(block.contains(r#"*) COLUMNS=${COLUMNS:-80} "/usr/local/bin/verge-proxy" "$@" ;;"#));
    assert!(!block.contains("compinit"));
    assert!(!block.contains("site-functions"));
}

#[test]
fn install_line_names_action_item_and_path() {
    let line = install_line(
        InstallAction::Updated,
        "补全配置",
        "/tmp/_verge-proxy",
        &PromptConfig::default(),
    );
    assert!(line.contains("已更新补全配置: /tmp/_verge-proxy"));
    assert!(line.starts_with(ANSI_BOLD_GREEN));
}

#[test]
fn wrapper_has_its_exact_text() {
    assert_eq!(
        zsh_wrapper_block("/x y"),
        r#"# >>> verge-proxy >>>
# verge-proxy wrapper (added by verge-proxy install)
verge-proxy() {
  case "$1" in
    start|stop|restart) eval "$(COLUMNS=${COLUMNS:-80} "/x y" "$@")" ;;
    *) COLUMNS=${COLUMNS:-80} "/x y" "$@" ;;
  esac
}
vp() {
  (
    eval "$(COLUMNS=${COLUMNS:-80} "/x y" restart -f)" >&2 || exit
    if [[ -n ${aliases[$1]} ]]; then
      eval "${aliases[$1]} ${(j: :)${(@q)@[2,-1]}}"
    else
      "$@"
    fi
  )
}
# <<< verge-proxy <<<
"#
    );
}

#[test]
fn block_comes_last_where_there_was_none() {
    assert_eq!(replace_managed_block("", "B"), "\n\nB");
    assert_eq!(replace_managed_block("a", "B"), "a\n\nB");
    assert_eq!(replace_managed_block("a\n", "B"), "a\n\nB");
    let open = format!("a\n{BLOCK_BEGIN}\nb\n");
    assert_eq!(replace_managed_block(&open, "B"), format!("{open}\nB"));
    let reversed = format!("{BLOCK_END}\n{BLOCK_BEGIN}\n");
    assert_eq!(
        replace_managed_block(&reversed, "B"),
        format!("{reversed}\nB")
    );
}

#[test]
fn block_without_line_feed_is_replaced_too() {
    let text = format!("é{BLOCK_BEGIN}x{BLOCK_END}é{BLOCK_BEGIN}{BLOCK_END}");
    assert_eq!(
        replace_managed_block(&text, "B"),
        format!("éBé{BLOCK_BEGIN}{BLOCK_END}")
    );
}

#[test]
fn installing_again_takes_the_place_of_the_block() {
    let old = zsh_wrapper_block("/old");
    let new = zsh_wrapper_block("/new");
    for text in ["", "a", "a\n", "a\n\nb"] {
        let once = replace_managed_block(text, &old);
        assert_eq!(replace_managed_block(&once, &old), once);
        assert_eq!(
            replace_managed_block(&once, &new),
            replace_managed_block(text, &new)
        );
        assert!(once.starts_with(text));
    }
}

#[test]
fn start_up_file_is_set_and_updated() {
    let (action, text) = update_zshrc("a\n", "/x");
    assert_eq!(action, InstallAction::Created);
    assert_eq!(text, format!("a\n\n{}", zsh_wrapper_block("/x")));
    let (action, text) = update_zshrc(&text, "/y");
    assert_eq!(action, InstallAction::Updated);
    assert_eq!(text, format!("a\n\n{}", zsh_wrapper_block("/y")));
    let (action, _) = update_zshrc(BLOCK_BEGIN, "/x");
    assert_eq!(action, InstallAction::Created);
}

#[test]
fn actions_have_names() {
    assert_eq!(InstallAction::on_file(false).label(), "已设置");
    assert_eq!(InstallAction::on_file(true).label(), "已更新");
}

/// What a shell makes of a word that single quotes and backslashes guard.
fn unquote(word: &str) -> String {
    let mut text = String::new();
    let mut quoted = false;
    let mut chars = word.chars();
    while let Some(ch) = chars.next() {
        match ch {
            '\'' => quoted = !quoted,
            '\\' if !quoted => text.push(chars.next().unwrap()),
            _ => {
                assert!(quoted);
                text.push(ch);
            }
        }
    }
    assert!(!quoted);
    text
}

#[test]
fn quoted_words_read_back() {
    assert_eq!(shell_single_quote("it's"), r"'it'\''s'");
    assert_eq!(shell_single_quote(""), "''");
    for text in ["", "a b", "'", "''a'", r"\'$(x)", "\u{1b}[0m\n"] {
        assert_eq!(unquote(&shell_single_quote(text)), text);
    }
}

#[test]
fn completion_names_the_commands() {
    assert!(COMPLETION_SCRIPT.starts_with("#compdef verge-proxy\n\n_verge-proxy() {\n"));
    assert!(COMPLETION_SCRIPT.contains("  _arguments -s \\\n"));
    assert!(COMPLETION_SCRIPT.ends_with("}\n\n_verge-proxy \"$@\"\n"));
}
