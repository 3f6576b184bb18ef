//! What is known of the running proxy, and its plain listing.

use vstd::prelude::*;
use crate::mode::{Mode, ModeView};
use crate::numbers::{decimal, decimal_text, is_digit, lemma_decimal_digits};
use crate::text::{join, joined, texts};

verus! {

/// The delay of the current node: not shown, measured, or not measured in time.
#[derive(Debug, Clone, Copy, PartialEq, Eq)]
pub enum Delay {
    Hidden,
    Value(u64),
    Timeout,
}

/// The state of the proxy.
#[derive(Debug, Clone, PartialEq, Eq)]
pub struct StatusInfo {
    pub mode: Mode,
    pub group: String,
    pub node: String,
    pub delay: Delay,
    pub port: u16,
}

/// The state of the proxy as contracts see it.
#[verifier::ext_equal]
pub struct StatusView {
    pub mode: ModeView,
    pub group: Seq<char>,
    pub node: Seq<char>,
    pub delay: Delay,
    pub port: u16,
}

impl View for StatusInfo {
    type V = StatusView;

    open spec fn view(&self) -> StatusView {
        StatusView {
            mode: self.mode@,
            group: self.group@,
            node: self.node@,
            delay: self.delay,
            port: self.port,
        }
    }
}

/// A delay as it is shown, where it is.
pub open spec fn delay_shown(delay: Delay) -> Option<Seq<char>> {
    match delay {
        Delay::Hidden => None,
        Delay::Value(millis) => Some(decimal(millis as nat) + "ms"@),
        Delay::Timeout => Some("timeout"@),
    }
}

/// The lines of the plain listing.
pub open spec fn status_lines(info: StatusView) -> Seq<Seq<char>> {
    let first = seq![
        "mode: "@ + info.mode.shown(),
        "group: "@ + info.group,
        "node: "@ + info.node,
    ];
    let with_delay = match delay_shown(info.delay) {
        Some(delay) => first.push("delay: "@ + delay),
        None => first,
    };
    with_delay.push("port: "@ + decimal(info.port as nat))
}

/// A delay as it is shown, where it is.
pub fn delay_text(delay: Delay) -> (shown: Option<String>)
    ensures
        crate::text::optional(shown) == delay_shown(delay),
{
    match delay {
        Delay::Hidden => None,
        Delay::Value(millis) => {
            let mut text = decimal_text(millis);
            text.append("ms");
            Some(text)
        },
        Delay::Timeout => Some("timeout".to_owned()),
    }
}

/// A label and a value in a row.
pub(crate) fn labelled(label: &str, value: &str) -> (line: String)
    ensures
        line@ == label@ + value@,
{
    let mut line = label.to_owned();
    line.append(value);
    line
}

/// The plain listing, one line for each thing that is known.
pub fn format_status(info: &StatusInfo) -> (listing: String)
    ensures
        listing@ == joined(status_lines(info@), "\n"@),
{
    let mut lines: Vec<String> = Vec::new();
    lines.push(labelled("mode: ", info.mode.label()));
    lines.push(labelled("group: ", info.group.as_str()));
    lines.push(labelled("node: ", info.node.as_str()));
    match delay_text(info.delay) {
        Some(delay) => {
            lines.push(labelled("delay: ", delay.as_str()));
        },
        None => {},
    }
    lines.push(labelled("port: ", decimal_text(info.port as u64).as_str()));
    assert(texts(lines@) =~= status_lines(info@));
    join(&lines, "\n")
}

/// The listing has a line each for the mode, the group, the node and the port, in this order,
/// and one for the delay before that of the port where there is a delay to show. Each line holds
/// its label and the value of its own field.
pub proof fn listing_names_each_field(info: StatusView)
    ensures
        status_lines(info).len() == (if info.delay == Delay::Hidden {
            4int
        } else {
            5int
        }),
        status_lines(info)[0] == "mode: "@ + info.mode.shown(),
        status_lines(info)[1] == "group: "@ + info.group,
        status_lines(info)[2] == "node: "@ + info.node,
        info.delay matches Delay::Value(millis) ==> status_lines(info)[3] == "delay: "@ + (decimal(
            millis as nat,
        ) + "ms"@),
        info.delay == Delay::Timeout ==> status_lines(info)[3] == "delay: "@ + "timeout"@,
        status_lines(info).last() == "port: "@ + decimal(info.port as nat),
{
}

proof fn lemma_same_rest(label: Seq<char>, left: Seq<char>, right: Seq<char>)
    requires
        label + left == label + right,
    ensures
        left == right,
{
    assert((label + left).skip(label.len() as int) =~= left);
    assert((label + right).skip(label.len() as int) =~= right);
}

/// Two states with the same listing are the same, up to modes that are shown alike.
pub proof fn listing_tells_the_state(info: StatusView, other: StatusView)
    requires
        status_lines(info) == status_lines(other),
    ensures
        info.mode.shown() == other.mode.shown(),
        info.group == other.group,
        info.node == other.node,
        info.delay == other.delay,
        info.port == other.port,
{
    listing_names_each_field(info);
    listing_names_each_field(other);
    lemma_same_rest("mode: "@, info.mode.shown(), other.mode.shown());
    lemma_same_rest("group: "@, info.group, other.group);
    lemma_same_rest("node: "@, info.node, other.node);
    lemma_same_rest("port: "@, decimal(info.port as nat), decimal(other.port as nat));
    lemma_decimal_digits(info.port as nat);
    lemma_decimal_digits(other.port as nat);
    if info.delay != Delay::Hidden {
        let shown = delay_shown(info.delay)->0;
        let other_shown = delay_shown(other.delay)->0;
        lemma_same_rest("delay: "@, shown, other_shown);
        reveal_strlit("timeout");
        reveal_strlit("ms");
        if let Delay::Value(millis) = info.delay {
            lemma_decimal_digits(millis as nat);
            assert(is_digit(decimal(millis as nat)[0]));
            assert(shown[0] == decimal(millis as nat)[0]);
        }
        if let Delay::Value(millis) = other.delay {
            lemma_decimal_digits(millis as nat);
            assert(is_digit(decimal(millis as nat)[0]));
            assert(other_shown[0] == decimal(millis as nat)[0]);
        }
        if let (Delay::Value(millis), Delay::Value(other_millis)) = (info.delay, other.delay) {
            let digits = decimal(millis as nat);
            let other_digits = decimal(other_millis as nat);
            assert(shown.take(shown.len() - 2) =~= digits);
            assert(other_shown.take(shown.len() - 2) =~= other_digits);
        }
    }
}

/// A state is seen with all that it holds.
pub proof fn states_are_seen_as_they_are(info: StatusInfo)
    ensures
        info@.mode == info.mode@,
        info@.group == info.group@,
        info@.node == info.node@,
        info@.delay == info.delay,
        info@.port == info.port,
        info.mode matches Mode::Unknown(name) ==> info@.mode == ModeView::Unknown(name@),
        info.mode == Mode::Rule ==> info@.mode == ModeView::Rule,
        info.mode == Mode::Global ==> info@.mode == ModeView::Global,
        info.mode == Mode::Direct ==> info@.mode == ModeView::Direct,
{
}

} // verus!
