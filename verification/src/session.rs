//! The scripts that the calling shell evaluates to turn the proxy of a session on and off.

use vstd::prelude::*;
use crate::ansi::{ANSI_BOLD_GREEN, ANSI_BOLD_RED};
use crate::numbers::{decimal, decimal_text};
use crate::prompt::{
    error_line, marked_message, message_printed, status_view, success_line, DefaultsView, PromptConfig, PromptView,
    TagDefaults,
};
use crate::shell::{quoted, shell_reads_quoted_back, shell_single_quote, shell_word};
use crate::status::{StatusInfo, StatusView};
use crate::text::{
    contains_text, join, joined, lemma_occurs_within, occurs_at, optional, optional_str,
    starts_with, texts,
};

verus! {

/// What the variable `proxy_name` holds while this program's proxy is on.
pub const PROXY_NAME: &'static str = "verge";

/// What is said where the proxy was turned on.
pub const STARTED: &'static str = "命令行代理已开启";

/// What is said where the proxy was turned on again.
pub const RESTARTED: &'static str = "命令行代理已重启";

/// What is said where the proxy was turned off.
pub const STOPPED: &'static str = "命令行代理已关闭，环境变量已移除";

/// What is said where variables that the proxy needs are there already.
pub const OCCUPIED: &'static str = "环境变量被占用，请执行 verge-proxy stop 后再次尝试";

/// The names of the variables of a session whose proxy is on.
pub open spec fn variable_names() -> Seq<Seq<char>> {
    seq!["http_proxy"@, "https_proxy"@, "all_proxy"@, "no_proxy"@, "proxy_name"@]
}

/// The values of the variables of a session whose proxy is on, for a proxy at `port`.
pub open spec fn variable_values(port: u16) -> Seq<Seq<char>> {
    seq![
        "http://127.0.0.1:"@ + decimal(port as nat),
        "http://127.0.0.1:"@ + decimal(port as nat),
        "socks5://127.0.0.1:"@ + decimal(port as nat),
        "localhost,127.0.0.1"@,
        PROXY_NAME@,
    ]
}

/// The lines that give `values` to the variables with the `names`.
pub open spec fn exports_printed(names: Seq<Seq<char>>, values: Seq<Seq<char>>) -> Seq<char>
    decreases names.len(),
{
    if names.len() == 0 {
        Seq::empty()
    } else {
        exports_printed(names.drop_last(), values) + ("export "@ + names.last() + "="@
            + values[names.len() - 1] + "\n"@)
    }
}

/// The line that removes the variables with the `names`.
pub open spec fn unset_printed(names: Seq<Seq<char>>) -> Seq<char> {
    "unset "@ + joined(names, " "@) + "\n"@
}

/// The line that shows `message`.
pub open spec fn echo_printed(message: Seq<char>) -> Seq<char> {
    "echo "@ + quoted(message) + "\n"@
}

/// The script that shows an error and fails.
pub open spec fn failure_script(message: Seq<char>) -> Seq<char> {
    echo_printed(marked_message(ANSI_BOLD_RED@, "✘"@, message))
        + "return 1 2>/dev/null || exit 1\n"@
}

/// The script that turns the proxy on and reports it.
pub open spec fn start_script(
    port: u16,
    message: Seq<char>,
    status: Option<StatusView>,
    prompt: PromptView,
    defaults: DefaultsView,
    terminal: nat,
) -> Seq<char> {
    exports_printed(variable_names(), variable_values(port)) + echo_printed(
        message_printed(ANSI_BOLD_GREEN@, "✔"@, message, status, prompt, defaults, terminal),
    )
}

/// The script that turns the proxy off and reports it.
pub open spec fn stop_script() -> Seq<char> {
    unset_printed(variable_names()) + echo_printed(
        marked_message(ANSI_BOLD_GREEN@, "✔"@, STOPPED@),
    )
}

/// Why the session's proxy may not be changed: another program has put its name on it. A
/// name that is missing or empty is allowed.
pub open spec fn name_conflict(proxy_name: Option<Seq<char>>) -> Option<Seq<char>> {
    match proxy_name {
        Some(name) if name.len() > 0 && name != PROXY_NAME@ => Some(
            "proxy_name 当前为 "@ + name + "，非 verge，拒绝操作"@,
        ),
        _ => None,
    }
}

/// Why the session's proxy may not be changed.
pub fn proxy_name_conflict(proxy_name: Option<&str>) -> (message: Option<String>)
    ensures
        optional(message) == name_conflict(optional_str(proxy_name)),
{
    match proxy_name {
        Some(name) => {
            if name.is_empty() || *name == *PROXY_NAME {
                return None;
            }
            let mut message = "proxy_name 当前为 ".to_owned();
            message.append(name);
            message.append("，非 verge，拒绝操作");
            Some(message)
        },
        None => None,
    }
}

/// Why the proxy may not be turned on.
pub open spec fn start_problem(proxy_name: Option<Seq<char>>, occupied: bool) -> Option<Seq<char>> {
    match name_conflict(proxy_name) {
        Some(conflict) => Some(conflict),
        None => if occupied {
            Some(OCCUPIED@)
        } else {
            None
        },
    }
}

/// Why the proxy may not be turned off or on again.
pub open spec fn change_problem(proxy_name: Option<Seq<char>>, force: bool) -> Option<Seq<char>> {
    if force {
        None
    } else {
        name_conflict(proxy_name)
    }
}

/// Why the proxy may not be turned on: another program's name is on it, or a variable that it
/// would set is there already.
pub fn start_refusal(proxy_name: Option<&str>, occupied: bool) -> (message: Option<String>)
    ensures
        optional(message) == (match name_conflict(optional_str(proxy_name)) {
            Some(conflict) => Some(conflict),
            None => if occupied {
                Some(OCCUPIED@)
            } else {
                None
            },
        }),
        optional(message) == start_problem(optional_str(proxy_name), occupied),
{
    match proxy_name_conflict(proxy_name) {
        Some(conflict) => Some(conflict),
        None => {
            if occupied {
                Some(OCCUPIED.to_owned())
            } else {
                None
            }
        },
    }
}

/// Why the proxy may not be turned off or on again: another program's name is on it, and the
/// user does not insist.
pub fn change_refusal(proxy_name: Option<&str>, force: bool) -> (message: Option<String>)
    ensures
        optional(message) == (if force {
            None
        } else {
            name_conflict(optional_str(proxy_name))
        }),
        optional(message) == change_problem(optional_str(proxy_name), force),
{
    if force {
        None
    } else {
        proxy_name_conflict(proxy_name)
    }
}

/// A session that this program has turned on may be changed without insisting.
pub proof fn own_session_is_no_conflict(port: u16)
    ensures
        variable_names()[4] == "proxy_name"@,
        name_conflict(Some(variable_values(port)[4])) is None,
{
}

proof fn lemma_export_stands(names: Seq<Seq<char>>, values: Seq<Seq<char>>, i: int)
    requires
        0 <= i < names.len() <= values.len(),
    ensures
        contains_text(
            exports_printed(names, values),
            "export "@ + names[i] + "="@ + values[i] + "\n"@,
        ),
    decreases names.len(),
{
    let front = exports_printed(names.drop_last(), values);
    let last = "export "@ + names.last() + "="@ + values[names.len() - 1] + "\n"@;
    let line = "export "@ + names[i] + "="@ + values[i] + "\n"@;
    let none = Seq::<char>::empty();
    if i == names.len() - 1 {
        assert(line.subrange(0, line.len() as int) =~= line);
        lemma_occurs_within(front, line, none, line, 0);
        assert(front + line + none =~= front + last);
    } else {
        lemma_export_stands(names.drop_last(), values, i);
        let at = choose|at: int| occurs_at(front, line, at);
        lemma_occurs_within(none, front, last, line, at);
        assert(none + front + last =~= front + last);
    }
}

/// What the script that turns the proxy on gives a value to, the script that turns it off
/// removes.
pub proof fn stop_removes_what_start_sets(
    port: u16,
    message: Seq<char>,
    status: Option<StatusView>,
    prompt: PromptView,
    defaults: DefaultsView,
    terminal: nat,
    i: int,
)
    requires
        0 <= i < variable_names().len(),
    ensures
        contains_text(
            start_script(port, message, status, prompt, defaults, terminal),
            "export "@ + variable_names()[i] + "="@ + variable_values(port)[i] + "\n"@,
        ),
        starts_with(stop_script(), "unset "@ + joined(variable_names(), " "@) + "\n"@),
{
    let names = variable_names();
    let values = variable_values(port);
    let line = "export "@ + names[i] + "="@ + values[i] + "\n"@;
    let exports = exports_printed(names, values);
    lemma_export_stands(names, values, i);
    let at = choose|at: int| occurs_at(exports, line, at);
    let script = start_script(port, message, status, prompt, defaults, terminal);
    let report = script.skip(exports.len() as int);
    lemma_occurs_within(Seq::empty(), exports, report, line, at);
    assert(Seq::<char>::empty() + exports + report =~= script);
    let unset = unset_printed(names);
    assert(stop_script().subrange(0, unset.len() as int) =~= unset);
}

/// The line that shows a message.
fn echo_line(message: &str) -> (line: String)
    ensures
        line@ == echo_printed(message@),
{
    let mut line = "echo ".to_owned();
    line.append(shell_single_quote(message).as_str());
    line.append("\n");
    line
}

/// The script that shows an error and fails.
pub fn shell_error(message: &str) -> (script: String)
    ensures
        script@ == failure_script(message@),
{
    let line = error_line(message, None, &PromptConfig::default(), &TagDefaults::default(), 0);
    let mut script = echo_line(line.as_str());
    script.append("return 1 2>/dev/null || exit 1\n");
    script
}

/// The line that gives a value to a variable.
fn export_line(script: &mut String, name: &str, value: &str)
    ensures
        final(script)@ == old(script)@ + ("export "@ + name@ + "="@ + value@ + "\n"@),
{
    let mut line = "export ".to_owned();
    line.append(name);
    line.append("=");
    line.append(value);
    line.append("\n");
    script.append(line.as_str());
}

/// The script that turns the proxy on and reports it.
pub fn proxy_exports(
    port: u16,
    message: &str,
    status: Option<&StatusInfo>,
    prompt: &PromptConfig,
    defaults: &TagDefaults,
    terminal_width: usize,
) -> (script: String)
    ensures
        script@ == start_script(
            port,
            message@,
            status_view(status),
            prompt@,
            defaults@,
            terminal_width as nat,
        ),
{
    let number = decimal_text(port as u64);
    let mut http = "http://127.0.0.1:".to_owned();
    http.append(number.as_str());
    let mut socks = "socks5://127.0.0.1:".to_owned();
    socks.append(number.as_str());
    let mut script = String::new();
    export_line(&mut script, "http_proxy", http.as_str());
    export_line(&mut script, "https_proxy", http.as_str());
    export_line(&mut script, "all_proxy", socks.as_str());
    export_line(&mut script, "no_proxy", "localhost,127.0.0.1");
    export_line(&mut script, "proxy_name", PROXY_NAME);
    proof {
        let names = variable_names();
        let values = variable_values(port);
        assert(names.drop_last() =~= names.take(4));
        assert(names.take(4).drop_last() =~= names.take(3));
        assert(names.take(3).drop_last() =~= names.take(2));
        assert(names.take(2).drop_last() =~= names.take(1));
        assert(names.take(1).drop_last() =~= names.take(0));
        reveal_with_fuel(exports_printed, 6);
        assert(script@ =~= exports_printed(names, values));
    }
    let line = success_line(message, status, prompt, defaults, terminal_width);
    script.append(echo_line(line.as_str()).as_str());
    script
}

/// The script that turns the proxy off and reports it.
pub fn proxy_removal() -> (script: String)
    ensures
        script@ == stop_script(),
{
    let mut names: Vec<String> = Vec::new();
    names.push("http_proxy".to_owned());
    names.push("https_proxy".to_owned());
    names.push("all_proxy".to_owned());
    names.push("no_proxy".to_owned());
    names.push("proxy_name".to_owned());
    assert(texts(names@) =~= variable_names());
    let mut script = "unset ".to_owned();
    script.append(join(&names, " ").as_str());
    script.append("\n");
    let line = success_line(
        STOPPED,
        None,
        &PromptConfig::default(),
        &TagDefaults::default(),
        0,
    );
    script.append(echo_line(line.as_str()).as_str());
    script
}

/// A name that another program has put on the session's proxy is a conflict, and the message
/// says it. A name that is missing, one that is empty and this program's own are none.
pub proof fn only_other_names_conflict(name: Seq<char>)
    ensures
        name_conflict(None) is None,
        name_conflict(Some(name)) is None <==> name == Seq::<char>::empty() || name == "verge"@,
        name_conflict(Some(name)) matches Some(message) ==> contains_text(message, name),
{
    if name.len() == 0 {
        assert(name =~= Seq::<char>::empty());
    }
    let message = "proxy_name 当前为 "@ + name + "，非 verge，拒绝操作"@;
    assert(name.subrange(0, name.len() as int) =~= name);
    lemma_occurs_within("proxy_name 当前为 "@, name, "，非 verge，拒绝操作"@, name, 0);
    assert(contains_text(message, name));
}

/// Variables are given their values in their order, each on a line of its own.
pub proof fn variables_are_exported_in_order(
    names: Seq<Seq<char>>,
    values: Seq<Seq<char>>,
    name: Seq<char>,
    value: Seq<char>,
)
    requires
        names.len() == values.len(),
    ensures
        exports_printed(Seq::empty(), values) == Seq::<char>::empty(),
        exports_printed(names.push(name), values.push(value)) == exports_printed(names, values) + (
        "export "@ + name + "="@ + value + "\n"@),
{
    assert(names.push(name).drop_last() =~= names);
    lemma_exports_of_fewer(names, values, value);
}

proof fn lemma_exports_of_fewer(names: Seq<Seq<char>>, values: Seq<Seq<char>>, more: Seq<char>)
    requires
        names.len() <= values.len(),
    ensures
        exports_printed(names, values.push(more)) == exports_printed(names, values),
    decreases names.len(),
{
    if names.len() > 0 {
        lemma_exports_of_fewer(names.drop_last(), values, more);
    }
}

/// Traffic goes to the proxy at the port on this machine, over HTTP and otherwise over SOCKS, but
/// not the traffic to this machine itself.
pub proof fn variables_lead_to_the_port(port: u16)
    ensures
        variable_names() == seq![
            "http_proxy"@,
            "https_proxy"@,
            "all_proxy"@,
            "no_proxy"@,
            "proxy_name"@,
        ],
        variable_values(port).len() == 5,
        variable_values(port)[0] == "http://127.0.0.1:"@ + decimal(port as nat),
        variable_values(port)[1] == variable_values(port)[0],
        variable_values(port)[2] == "socks5://127.0.0.1:"@ + decimal(port as nat),
        variable_values(port)[3] == "localhost,127.0.0.1"@,
        variable_values(port)[4] == "verge"@,
{
}

/// What a script reports the shell shows as it is, behind what the script does: a script that
/// fails does so after its report.
pub proof fn scripts_report_last(
    port: u16,
    message: Seq<char>,
    status: Option<StatusView>,
    prompt: PromptView,
    defaults: DefaultsView,
    terminal: nat,
)
    ensures
        ({
            let report = message_printed(
                ANSI_BOLD_GREEN@,
                "✔"@,
                message,
                status,
                prompt,
                defaults,
                terminal,
            );
            let problem = marked_message(ANSI_BOLD_RED@, "✘"@, message);
            let farewell = marked_message(ANSI_BOLD_GREEN@, "✔"@, STOPPED@);
            &&& start_script(port, message, status, prompt, defaults, terminal)
                == exports_printed(variable_names(), variable_values(port)) + ("echo "@ + quoted(
                report,
            ) + "\n"@)
            &&& stop_script() == "unset "@ + joined(variable_names(), " "@) + "\n"@ + ("echo "@
                + quoted(farewell) + "\n"@)
            &&& failure_script(message) == "echo "@ + quoted(problem) + "\n"@
                + "return 1 2>/dev/null || exit 1\n"@
            &&& shell_word(quoted(report), false) == Some(report)
            &&& shell_word(quoted(problem), false) == Some(problem)
            &&& shell_word(quoted(farewell), false) == Some(farewell)
        }),
{
    shell_reads_quoted_back(
        message_printed(ANSI_BOLD_GREEN@, "✔"@, message, status, prompt, defaults, terminal),
    );
    shell_reads_quoted_back(marked_message(ANSI_BOLD_RED@, "✘"@, message));
    shell_reads_quoted_back(marked_message(ANSI_BOLD_GREEN@, "✔"@, STOPPED@));
}

/// Another program's name keeps the proxy from being turned on, and from being changed unless the
/// user insists. Where there is no such name, only variables that are there already keep it from
/// being turned on, and nothing keeps it from being changed.
pub proof fn refusals_have_their_reasons(proxy_name: Option<Seq<char>>, occupied: bool, force: bool)
    ensures
        name_conflict(proxy_name) is Some ==> start_problem(proxy_name, occupied) == name_conflict(
            proxy_name,
        ),
        name_conflict(proxy_name) is None ==> (start_problem(proxy_name, occupied) is Some
            <==> occupied),
        name_conflict(proxy_name) is None && occupied ==> start_problem(proxy_name, occupied)
            == Some(OCCUPIED@),
        change_problem(proxy_name, true) is None,
        change_problem(proxy_name, false) == start_problem(proxy_name, false),
{
}

} // verus!
