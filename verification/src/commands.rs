//! What the commands ask, offer and decide.

use vstd::prelude::*;
use crate::ansi::ANSI_BOLD_RED;
use crate::config::AppConfig;
use crate::filter::{
    batch_view, batches, batches_come_in_the_order_of_ranges, candidate_batches,
    configured_ranges_keep_their_order, contains_any, filter_keywords, filter_nodes_by_keyword,
    filter_ranges, filtered, lowercase, parse_filter_ranges, ranges_are_the_parts_between_commas,
};
use crate::mode::{Mode, ModeView};
use crate::numbers::{fitting_numbers_are_read, parse_usize, unsigned_value, usize_value};
use crate::probe::{BatchOutcome, DelayResult, DelayView};
use crate::prompt::{error_line, marked_message, PromptConfig, TagDefaults};
use crate::proxy::{
    active, is_group, leaf_nodes, leaf_nodes_for_group, listed_groups_are_all_groups,
    named_by_keys, resolvable, resolve_active_group_and_node, selector_groups, sorted_groups,
    unique_keys, Entries, ProxyMap,
};
use crate::session::{failure_script, shell_error};
use crate::status::{Delay, StatusInfo, StatusView};
use crate::text::{
    contained_text_has_a_place, contains_text, copy_texts, index_of, optional_str, pieces,
    place_is_the_first, place_of, split, text_contains, texts, trim, trimmed, without, Delimiter,
};

verus! {

/// How many rows of a list are shown at a time.
pub const MENU_ROWS: usize = 10;

/// How many nodes are tested at a time where the configuration does not say.
pub const DEFAULT_CONCURRENCY: usize = 20;

/// How long a node may take in a search where the configuration does not say, in milliseconds.
pub const DEFAULT_SEARCH_TIMEOUT_MS: u64 = 5000;

/// The width of a terminal that does not tell.
pub const DEFAULT_TERMINAL_WIDTH: usize = 80;

/// What is said of a choice that the user broke off.
pub const CANCELLED: &'static str = "已取消";

/// What is said where there is nothing to choose from.
pub const NOTHING_TO_CHOOSE: &'static str = "没有可选择项";

/// What is said where there is no group to choose.
pub const NO_GROUPS: &'static str = "没有可切换的代理组";

/// What is said where a filter keeps no node to choose.
pub const NO_MATCHING_NODES: &'static str = "错误：没有匹配节点";

/// What is said where a search has selected a node.
pub const NODE_SELECTED: &'static str = "已自动选择";

/// What is said where no node answers in a search.
pub const NO_NODE_ANSWERS: &'static str = "没有找到可连通节点";

/// What the user asks for.
#[derive(Debug, Clone)]
pub enum Command {
    Start,
    Stop { force: bool },
    Restart { force: bool },
    Status,
    Mode,
    Group,
    Node { filter: Option<String> },
    Port,
    AutoNode { filter: Option<String> },
    Install,
}

impl Command {
    /// Whether the calling shell evaluates what the command prints.
    pub fn is_evaluated(&self) -> (yes: bool)
        ensures
            yes == (self is Start || self is Stop || self is Restart),
    {
        match self {
            Command::Start => true,
            Command::Stop { .. } => true,
            Command::Restart { .. } => true,
            _ => false,
        }
    }
}

/// What is printed where a command fails: a script that fails where the shell evaluates it, and
/// a line otherwise.
pub fn failure_report(problem: &str, evaluated: bool) -> (report: String)
    ensures
        report@ == (if evaluated {
            failure_script("错误："@ + problem@)
        } else {
            marked_message(ANSI_BOLD_RED@, "✘"@, "错误："@ + problem@) + "\n"@
        }),
{
    let mut message = "错误：".to_owned();
    message.append(problem);
    if evaluated {
        shell_error(message.as_str())
    } else {
        let mut report = error_line(
            message.as_str(),
            None,
            &PromptConfig::default(),
            &TagDefaults::default(),
            0,
        );
        report.append("\n");
        report
    }
}

/// What a message says of a choice that failed.
pub open spec fn choice_message(summary: Seq<char>, problem: Seq<char>) -> Seq<char> {
    if contains_text(summary, CANCELLED@) {
        "错误：已取消"@
    } else {
        "错误："@ + problem
    }
}

/// What a message says of a choice that failed: `summary` is the last thing that went wrong,
/// and `problem` all of it.
pub fn choice_failure(summary: &str, problem: &str) -> (message: String)
    ensures
        message@ == (if contains_text(summary@, CANCELLED@) {
            "错误：已取消"@
        } else {
            "错误："@ + problem@
        }),
        message@ == choice_message(summary@, problem@),
{
    if text_contains(summary, CANCELLED) {
        "错误：已取消".to_owned()
    } else {
        let mut message = "错误：".to_owned();
        message.append(problem);
        message
    }
}

/// The width that the variable `COLUMNS` tells, where it tells one.
pub open spec fn told_width(columns: Option<Seq<char>>) -> Option<usize> {
    match columns {
        Some(columns) => match usize_value(columns) {
            Some(width) if width > 0 => Some(width),
            _ => None,
        },
        None => None,
    }
}

/// The width that the variable `COLUMNS` tells.
pub fn width_from_columns(columns: Option<&str>) -> (width: Option<usize>)
    ensures
        width == told_width(optional_str(columns)),
{
    match columns {
        Some(columns) => match parse_usize(columns) {
            Some(width) if width > 0 => Some(width),
            _ => None,
        },
        None => None,
    }
}

/// The width that `tput` tells, or a usual one where it tells none.
pub open spec fn tput_width(output: Option<Seq<char>>) -> usize {
    match output {
        Some(output) => match usize_value(trimmed(output)) {
            Some(width) => width,
            None => DEFAULT_TERMINAL_WIDTH,
        },
        None => DEFAULT_TERMINAL_WIDTH,
    }
}

/// The width that `tput` tells, or a usual one where it tells none.
pub fn width_from_tput(output: Option<&str>) -> (width: usize)
    ensures
        width == (match optional_str(output) {
            Some(output) => match usize_value(trimmed(output)) {
                Some(width) => width,
                None => DEFAULT_TERMINAL_WIDTH,
            },
            None => DEFAULT_TERMINAL_WIDTH,
        }),
        width == tput_width(optional_str(output)),
{
    match output {
        Some(output) => match parse_usize(trim(output).as_str()) {
            Some(width) => width,
            None => DEFAULT_TERMINAL_WIDTH,
        },
        None => DEFAULT_TERMINAL_WIDTH,
    }
}

/// A list to choose from, with the place where the choice begins.
#[derive(Debug)]
pub struct Menu {
    pub title: String,
    pub options: Vec<String>,
    pub initial: usize,
}

/// A list to choose from as contracts see it.
#[verifier::ext_equal]
pub struct MenuView {
    pub title: Seq<char>,
    pub options: Seq<Seq<char>>,
    pub initial: int,
}

impl View for Menu {
    type V = MenuView;

    open spec fn view(&self) -> MenuView {
        MenuView {
            title: self.title@,
            options: texts(self.options@),
            initial: self.initial as int,
        }
    }
}

/// The place where the choice begins: that of the current option, or the first.
pub open spec fn initial_place(options: Seq<Seq<char>>, current: Seq<char>) -> int {
    match place_of(options, current) {
        Some(place) => place,
        None => 0,
    }
}

/// A list to choose from that begins at the current option.
fn menu_of(title: String, options: Vec<String>, current: &str) -> (menu: Menu)
    ensures
        menu@ == (MenuView {
            title: title@,
            options: texts(options@),
            initial: initial_place(texts(options@), current@),
        }),
{
    let initial: usize = match index_of(options.as_slice(), current) {
        Some(place) => place,
        None => 0,
    };
    Menu { title, options, initial }
}

/// The modes to choose from.
pub open spec fn offered_modes() -> Seq<ModeView> {
    seq![ModeView::Rule, ModeView::Global, ModeView::Direct]
}

/// The place of a mode among those to choose from, and the first for one that is not among them.
pub open spec fn mode_place(mode: ModeView) -> int {
    match mode {
        ModeView::Global => 1,
        ModeView::Direct => 2,
        _ => 0,
    }
}

/// The modes to choose from, beginning at the one that is on.
pub fn mode_menu(current: &Mode) -> (menu: Menu)
    ensures
        menu@.title == "切换模式"@,
        menu@.options == offered_modes().map_values(|mode: ModeView| mode.shown()),
        menu@.initial == (match current@ {
            ModeView::Global => 1int,
            ModeView::Direct => 2int,
            _ => 0int,
        }),
        menu@.initial == mode_place(current@),
{
    let mut options: Vec<String> = Vec::new();
    options.push(Mode::Rule.label().to_owned());
    options.push(Mode::Global.label().to_owned());
    options.push(Mode::Direct.label().to_owned());
    let initial: usize = match current {
        Mode::Global => 1,
        Mode::Direct => 2,
        _ => 0,
    };
    assert(texts(options@) =~= offered_modes().map_values(|mode: ModeView| mode.shown()));
    Menu { title: "切换模式".to_owned(), options, initial }
}

/// The mode at a place of the list.
pub fn chosen_mode(place: usize) -> (mode: Mode)
    requires
        place < 3,
    ensures
        mode@ == offered_modes()[place as int],
{
    if place == 0 {
        Mode::Rule
    } else if place == 1 {
        Mode::Global
    } else {
        Mode::Direct
    }
}

/// The groups to choose from.
pub open spec fn offered_groups(entries: Entries) -> Seq<Seq<char>> {
    sorted_groups(entries).filter(|name: Seq<char>| name != "GLOBAL"@).filter(
        |name: Seq<char>| name != "🛑 Block"@,
    )
}

/// What is reported where groups and nodes are not in use, so that there is nothing to choose.
pub fn direct_report(mode: &Mode) -> (message: Option<&'static str>)
    ensures
        optional_str(message) == (if mode@ == ModeView::Direct {
            Some("设置直连成功"@)
        } else {
            None
        }),
{
    if mode.is_direct() {
        Some("设置直连成功")
    } else {
        None
    }
}

/// The groups to choose from, beginning at the one in use: an error where there are none.
pub fn group_menu(mode: &Mode, proxies: &ProxyMap) -> (result: Result<Menu, &'static str>)
    requires
        offered_groups(proxies@).len() > 0 ==> resolvable(mode@, proxies@),
    ensures
        match result {
            Ok(menu) => offered_groups(proxies@).len() > 0 && menu@ == (MenuView {
                title: "切换代理组"@,
                options: offered_groups(proxies@),
                initial: initial_place(
                    offered_groups(proxies@),
                    active(mode@, proxies@).0,
                ),
            }),
            Err(problem) => offered_groups(proxies@).len() == 0 && problem@ == NO_GROUPS@,
        },
{
    let groups = without(&without(&selector_groups(proxies), "GLOBAL"), "🛑 Block");
    assert(texts(groups@).len() == groups@.len());
    if groups.len() == 0 {
        return Err(NO_GROUPS);
    }
    let (current, _) = resolve_active_group_and_node(mode, proxies);
    Ok(menu_of("切换代理组".to_owned(), groups, current.as_str()))
}

/// The nodes of the group in use to choose from.
pub open spec fn offered_nodes(
    mode: ModeView,
    entries: Entries,
    filter: Option<Seq<char>>,
) -> Seq<Seq<char>> {
    filtered(leaf_nodes(active(mode, entries).0, entries), filter)
}

/// The group in use and its nodes to choose from, beginning at the one in use: an error where
/// the filter keeps none.
pub fn node_menu(mode: &Mode, proxies: &ProxyMap, filter: Option<&str>) -> (result: Result<
    (String, Menu),
    &'static str,
>)
    requires
        resolvable(mode@, proxies@),
    ensures
        ({
            let nodes = offered_nodes(mode@, proxies@, optional_str(filter));
            let (group, node) = active(mode@, proxies@);
            match result {
                Ok((chosen, menu)) => nodes.len() > 0 && chosen@ == group && menu@ == (MenuView {
                    title: "切换节点: "@ + group,
                    options: nodes,
                    initial: initial_place(nodes, node),
                }),
                Err(problem) => nodes.len() == 0 && problem@ == NO_MATCHING_NODES@,
            }
        }),
{
    let (group, node) = resolve_active_group_and_node(mode, proxies);
    let leaves = leaf_nodes_for_group(group.as_str(), proxies);
    let nodes = filter_nodes_by_keyword(leaves.as_slice(), filter);
    assert(texts(nodes@).len() == nodes@.len());
    if nodes.len() == 0 {
        return Err(NO_MATCHING_NODES);
    }
    let mut title = "切换节点: ".to_owned();
    title.append(group.as_str());
    let menu = menu_of(title, nodes, node.as_str());
    Ok((group, menu))
}

/// The place where a choice among `count` options begins.
pub open spec fn first_place(initial: usize, count: usize) -> Option<usize> {
    if count == 0 {
        None
    } else if initial < count {
        Some(initial)
    } else {
        Some((count - 1) as usize)
    }
}

/// The place where a choice among `count` options begins: the last one where `initial` lies
/// beyond, and none where there is nothing to choose from.
pub fn starting_place(initial: usize, count: usize) -> (place: Option<usize>)
    ensures
        place == (if count == 0 {
            None::<usize>
        } else if initial < count {
            Some(initial)
        } else {
            Some((count - 1) as usize)
        }),
        place == first_place(initial, count),
{
    if count == 0 {
        None
    } else if initial < count {
        Some(initial)
    } else {
        Some(count - 1)
    }
}

/// The state of the proxy with a port and a delay.
pub open spec fn status_of(mode: ModeView, entries: Entries, delay: Delay, port: u16) -> StatusView {
    StatusView {
        mode,
        group: active(mode, entries).0,
        node: active(mode, entries).1,
        delay,
        port,
    }
}

/// The state of the proxy, with no delay to show yet.
pub fn current_status(mode: Mode, proxies: &ProxyMap, port: u16) -> (info: StatusInfo)
    requires
        resolvable(mode@, proxies@),
    ensures
        info@ == status_of(mode@, proxies@, Delay::Hidden, port),
{
    let (group, node) = resolve_active_group_and_node(&mode, proxies);
    StatusInfo { mode, group, node, delay: Delay::Hidden, port }
}

/// The state with a delay to show.
pub fn with_delay(info: StatusInfo, delay: Delay) -> (shown: StatusInfo)
    ensures
        shown@ == (StatusView { delay, ..info@ }),
{
    StatusInfo { mode: info.mode, group: info.group, node: info.node, delay, port: info.port }
}

/// What the delay of a state is measured of.
pub open spec fn measured_node(info: StatusView) -> Seq<char> {
    if info.mode == ModeView::Direct {
        "DIRECT"@
    } else {
        info.node
    }
}

/// What the delay of a state is measured of: the node in use, and the direct connection where
/// no proxy is in use.
pub fn delay_target(info: &StatusInfo) -> (target: String)
    ensures
        target@ == (if info@.mode == ModeView::Direct {
            "DIRECT"@
        } else {
            info@.node
        }),
        target@ == measured_node(info@),
{
    if info.mode.is_direct() {
        "DIRECT".to_owned()
    } else {
        info.node.clone()
    }
}

/// Whether the delay is measured another time: a first connection may take longer than it is
/// given.
pub fn delay_needs_retry(first: Option<u64>) -> (yes: bool)
    ensures
        yes == (first is None),
{
    first.is_none()
}

/// The delay to show after a measurement and, where that failed, another one.
pub open spec fn delay_of_two(first: Option<u64>, retry: Option<u64>) -> Delay {
    match first {
        Some(value) => Delay::Value(value),
        None => match retry {
            Some(value) => Delay::Value(value),
            None => Delay::Timeout,
        },
    }
}

/// The delay to show after a measurement and, where that failed, another one.
pub fn measured_delay(first: Option<u64>, retry: Option<u64>) -> (delay: Delay)
    ensures
        delay == (match first {
            Some(value) => Delay::Value(value),
            None => match retry {
                Some(value) => Delay::Value(value),
                None => Delay::Timeout,
            },
        }),
        delay == delay_of_two(first, retry),
{
    match first {
        Some(value) => Delay::Value(value),
        None => match retry {
            Some(value) => Delay::Value(value),
            None => Delay::Timeout,
        },
    }
}

/// The nodes of a group that are tested in a search.
pub open spec fn tested_nodes(group: Seq<char>, entries: Entries) -> Seq<Seq<char>> {
    leaf_nodes(group, entries).filter(|name: Seq<char>| name != "DIRECT"@).filter(
        |name: Seq<char>| name != "REJECT"@,
    )
}

/// The ranges of a search: those of the filter, else the configured ones.
pub open spec fn search_ranges(
    filter: Option<Seq<char>>,
    configured: Option<Seq<char>>,
) -> Seq<Seq<char>> {
    filter_ranges(
        filter,
        match configured {
            Some(ranges) => pieces(ranges, Delimiter::Char(',')),
            None => Seq::empty(),
        },
    )
}

/// The batches of a search, in the order in which they are tested.
pub open spec fn search_batches(
    mode: ModeView,
    entries: Entries,
    filter: Option<Seq<char>>,
    configured: Option<Seq<char>>,
) -> Seq<(Seq<char>, Seq<Seq<char>>)> {
    batches(tested_nodes(active(mode, entries).0, entries), search_ranges(filter, configured))
}

/// The batches of a search as contracts see them.
pub open spec fn batch_views(list: Seq<(String, Vec<String>)>) -> Seq<
    (Seq<char>, Seq<Seq<char>>),
> {
    list.map_values(|batch: (String, Vec<String>)| batch_view(batch))
}

/// The first batch from `from` on that holds a node.
pub open spec fn next_batch(list: Seq<(Seq<char>, Seq<Seq<char>>)>, from: int) -> Option<int>
    decreases list.len() - from,
{
    if from >= list.len() {
        None
    } else if list[from].1.len() > 0 {
        Some(from)
    } else {
        next_batch(list, from + 1)
    }
}

/// Between a place and the next batch that holds a node lie batches without nodes alone.
pub proof fn only_empty_batches_are_passed(list: Seq<(Seq<char>, Seq<Seq<char>>)>, from: int)
    requires
        0 <= from,
    ensures
        match next_batch(list, from) {
            Some(place) => {
                &&& from <= place < list.len()
                &&& list[place].1.len() > 0
                &&& forall|i: int| from <= i < place ==> (#[trigger] list[i]).1.len() == 0
            },
            None => forall|i: int| from <= i < list.len() ==> (#[trigger] list[i]).1.len() == 0,
        },
    decreases list.len() - from,
{
    if from < list.len() && list[from].1.len() == 0 {
        only_empty_batches_are_passed(list, from + 1);
    }
}

/// What a search comes to that has come to the batch `from`, where `answers` holds the fastest
/// node of each batch that has one that answers: a batch is tested only where no node of the
/// batches before it answered.
pub open spec fn search_result(
    list: Seq<(Seq<char>, Seq<Seq<char>>)>,
    answers: Seq<Option<DelayView>>,
    from: int,
) -> Option<DelayView>
    decreases list.len() - from,
    when 0 <= from
{
    proof {
        only_empty_batches_are_passed(list, from);
    }
    match next_batch(list, from) {
        Some(place) => match answers[place] {
            Some(best) => Some(best),
            None => search_result(list, answers, place + 1),
        },
        None => None,
    }
}

/// A search selects the fastest node of the first batch with a node that answers, and fails
/// where no batch has one.
pub proof fn search_selects_from_first_answer(
    list: Seq<(Seq<char>, Seq<Seq<char>>)>,
    answers: Seq<Option<DelayView>>,
    from: int,
)
    requires
        0 <= from,
    ensures
        match search_result(list, answers, from) {
            Some(best) => exists|place: int|
                {
                    &&& from <= place < list.len()
                    &&& (#[trigger] list[place]).1.len() > 0
                    &&& answers[place] == Some(best)
                    &&& forall|i: int|
                        from <= i < place && (#[trigger] list[i]).1.len() > 0 ==> answers[i] is None
                },
            None => forall|i: int|
                from <= i < list.len() && (#[trigger] list[i]).1.len() > 0 ==> answers[i] is None,
        },
    decreases list.len() - from,
{
    only_empty_batches_are_passed(list, from);
    if let Some(place) = next_batch(list, from) {
        if answers[place] is None {
            search_selects_from_first_answer(list, answers, place + 1);
        }
    }
}

/// The search for the fastest node of the group in use.
#[derive(Debug)]
pub struct Search {
    group: String,
    batches: Vec<(String, Vec<String>)>,
    next: usize,
}

/// A search as contracts see it.
#[verifier::ext_equal]
pub struct SearchView {
    /// The group whose node is selected.
    pub group: Seq<char>,
    /// The batches, each with its label.
    pub batches: Seq<(Seq<char>, Seq<Seq<char>>)>,
    /// The first batch that was not tested yet.
    pub next: int,
}

impl View for Search {
    type V = SearchView;

    closed spec fn view(&self) -> SearchView {
        SearchView {
            group: self.group@,
            batches: batch_views(self.batches@),
            next: self.next as int,
        }
    }
}

/// What a search does next.
#[derive(Debug)]
pub enum SearchStep {
    /// Test a batch.
    Test { label: String, nodes: Vec<String> },
    /// Select the fastest node of the batch that was tested.
    Select(DelayResult),
    /// Report that no node answered.
    Fail,
}

/// What a search does next as contracts see it.
pub enum StepView {
    Test(Seq<char>, Seq<Seq<char>>),
    Select(DelayView),
    Fail,
}

impl View for SearchStep {
    type V = StepView;

    open spec fn view(&self) -> StepView {
        match self {
            SearchStep::Test { label, nodes } => StepView::Test(label@, texts(nodes@)),
            SearchStep::Select(best) => StepView::Select(best@),
            SearchStep::Fail => StepView::Fail,
        }
    }
}

/// What a search does that has come to the batch `from`.
pub open spec fn step_from(list: Seq<(Seq<char>, Seq<Seq<char>>)>, from: int) -> StepView {
    match next_batch(list, from) {
        Some(place) => StepView::Test(list[place].0, list[place].1),
        None => StepView::Fail,
    }
}

/// The batch that a search has come to when it has looked for one from `from` on.
pub open spec fn place_after(list: Seq<(Seq<char>, Seq<Seq<char>>)>, from: int) -> int {
    match next_batch(list, from) {
        Some(place) => place + 1,
        None => list.len() as int,
    }
}

/// What came out of a batch as contracts see it: its fastest node, where one answered.
pub open spec fn answer_of(outcome: BatchOutcome) -> Option<DelayView> {
    match outcome {
        BatchOutcome::Best(best) => Some(best@),
        _ => None,
    }
}

/// What a search does after a batch with the answer `answer`, where `next` is the first batch
/// that was not tested yet, and which batch is the first then.
pub open spec fn step_after(
    list: Seq<(Seq<char>, Seq<Seq<char>>)>,
    next: int,
    answer: Option<DelayView>,
) -> (StepView, int) {
    match answer {
        Some(best) => (StepView::Select(best), next),
        None => (step_from(list, next), place_after(list, next)),
    }
}

/// The last step of a search that is at `step`, where `next` is the first batch that was not
/// tested yet and `answers` holds what comes out of each batch: the batch under test is the one
/// before `next`.
pub open spec fn last_step(
    list: Seq<(Seq<char>, Seq<Seq<char>>)>,
    answers: Seq<Option<DelayView>>,
    step: StepView,
    next: int,
) -> StepView
    decreases
            list.len() - next,
            if step is Test {
                1int
            } else {
                0int
            },
    when 0 <= next <= list.len()
{
    proof {
        only_empty_batches_are_passed(list, next);
    }
    match step {
        StepView::Test(_, _) => {
            let after = step_after(list, next, answers[next - 1]);
            last_step(list, answers, after.0, after.1)
        },
        _ => step,
    }
}

/// A search that goes on from step to step ends with the selection of what it promises, and
/// with a failure where it promises nothing.
pub proof fn search_ends_as_promised(
    list: Seq<(Seq<char>, Seq<Seq<char>>)>,
    answers: Seq<Option<DelayView>>,
    from: int,
)
    requires
        0 <= from <= list.len(),
    ensures
        last_step(list, answers, step_from(list, from), place_after(list, from)) == (
        match search_result(list, answers, from) {
            Some(best) => StepView::Select(best),
            None => StepView::Fail,
        }),
    decreases list.len() - from,
{
    only_empty_batches_are_passed(list, from);
    let step = step_from(list, from);
    let next = place_after(list, from);
    match next_batch(list, from) {
        Some(place) => {
            let after = step_after(list, next, answers[place]);
            only_empty_batches_are_passed(list, next);
            assert(last_step(list, answers, step, next) == last_step(
                list,
                answers,
                after.0,
                after.1,
            ));
            match answers[place] {
                Some(best) => {
                    assert(last_step(list, answers, after.0, after.1) == after.0);
                },
                None => {
                    search_ends_as_promised(list, answers, place + 1);
                },
            }
        },
        None => {
            assert(last_step(list, answers, step, next) == step);
        },
    }
}

impl Search {
    /// The search has not come further than behind its last batch.
    #[verifier::type_invariant]
    spec fn inv(self) -> bool {
        self.next <= self.batches@.len()
    }

    /// The search in the group in use. An error names the group that has no node to test.
    pub fn new(
        mode: &Mode,
        proxies: &ProxyMap,
        filter: Option<&str>,
        configured: Option<&str>,
    ) -> (result: Result<Search, String>)
        requires
            resolvable(mode@, proxies@),
        ensures
            ({
                let group = active(mode@, proxies@).0;
                match result {
                    Ok(search) => {
                        &&& tested_nodes(group, proxies@).len() > 0
                        &&& search@ == (SearchView {
                            group,
                            batches: search_batches(
                                mode@,
                                proxies@,
                                optional_str(filter),
                                optional_str(configured),
                            ),
                            next: 0,
                        })
                    },
                    Err(problem) => {
                        &&& tested_nodes(group, proxies@).len() == 0
                        &&& problem@ == "代理组 "@ + group + " 没有可测速节点"@
                    },
                }
            }),
    {
        let (group, _) = resolve_active_group_and_node(mode, proxies);
        let leaves = leaf_nodes_for_group(group.as_str(), proxies);
        let nodes = without(&without(&leaves, "DIRECT"), "REJECT");
        assert(texts(nodes@).len() == nodes@.len());
        if nodes.len() == 0 {
            let mut problem = "代理组 ".to_owned();
            problem.append(group.as_str());
            problem.append(" 没有可测速节点");
            return Err(problem);
        }
        let configured_ranges = match configured {
            Some(ranges) => split(ranges, Delimiter::Char(',')),
            None => Vec::new(),
        };
        assert(configured is None ==> texts(configured_ranges@) =~= Seq::empty());
        let ranges = parse_filter_ranges(filter, configured_ranges.as_slice());
        let batches = candidate_batches(nodes.as_slice(), ranges.as_slice());
        Ok(Search { group, batches, next: 0 })
    }

    /// The group whose node is selected.
    pub fn group(&self) -> (group: &str)
        ensures
            group@ == self@.group,
    {
        self.group.as_str()
    }

    /// Goes on to the next batch that holds a node.
    pub fn advance(&mut self) -> (step: SearchStep)
        ensures
            step@ == step_from(old(self)@.batches, old(self)@.next),
            final(self)@ == (SearchView {
                next: place_after(old(self)@.batches, old(self)@.next),
                ..old(self)@
            }),
    {
        proof {
            use_type_invariant(&*self);
        }
        let ghost list = batch_views(self.batches@);
        let ghost first = self.next as int;
        let mut i: usize = self.next;
        while i < self.batches.len()
            invariant
                i <= self.batches@.len(),
                *self == *old(self),
                list == batch_views(self.batches@),
                first == self.next,
                next_batch(list, first) == next_batch(list, i as int),
            decreases self.batches@.len() - i,
        {
            assert(list[i as int] == batch_view(self.batches@[i as int]));
            let batch = &self.batches[i];
            assert(texts(batch.1@).len() == batch.1@.len());
            if batch.1.len() > 0 {
                let label = batch.0.clone();
                let nodes = copy_texts(batch.1.as_slice());
                self.next = i + 1;
                return SearchStep::Test { label, nodes };
            }
            i += 1;
        }
        self.next = self.batches.len();
        SearchStep::Fail
    }

    /// Takes in what came out of a batch: the fastest node is selected where one answered, and
    /// the search goes on to the next batch otherwise.
    pub fn take_outcome(&mut self, outcome: BatchOutcome) -> (step: SearchStep)
        ensures
            ({
                let (then_step, then_next) = step_after(
                    old(self)@.batches,
                    old(self)@.next,
                    answer_of(outcome),
                );
                &&& step@ == then_step
                &&& final(self)@ == (SearchView { next: then_next, ..old(self)@ })
            }),
    {
        match outcome {
            BatchOutcome::Best(best) => SearchStep::Select(best),
            _ => self.advance(),
        }
    }
}

/// How many nodes are tested at a time, of which `configured` is what the configuration says.
pub open spec fn bounded_concurrency(configured: Option<usize>) -> usize {
    match configured {
        Some(value) => if value < 1 {
            1
        } else if value > 256 {
            256
        } else {
            value
        },
        None => DEFAULT_CONCURRENCY,
    }
}

/// How many nodes are tested at a time: as configured, but one at least and 256 at most.
pub fn search_concurrency(config: &AppConfig) -> (count: usize)
    ensures
        count == (match config.concurrency {
            Some(value) => if value < 1 {
                1
            } else if value > 256 {
                256
            } else {
                value
            },
            None => DEFAULT_CONCURRENCY,
        }),
        count == bounded_concurrency(config.concurrency),
{
    match config.concurrency {
        Some(value) => {
            if value < 1 {
                1
            } else if value > 256 {
                256
            } else {
                value
            }
        },
        None => DEFAULT_CONCURRENCY,
    }
}

/// How long a node may take in a search, of which `configured` is what the configuration says.
pub open spec fn bounded_timeout(configured: Option<u64>) -> u64 {
    match configured {
        Some(value) => if value < 1 {
            1
        } else {
            value
        },
        None => DEFAULT_SEARCH_TIMEOUT_MS,
    }
}

/// How long a node may take in a search, in milliseconds: as configured, but one at least.
pub fn search_timeout(config: &AppConfig) -> (timeout_ms: u64)
    ensures
        timeout_ms == (match config.timeout_ms {
            Some(value) => if value < 1 {
                1
            } else {
                value
            },
            None => DEFAULT_SEARCH_TIMEOUT_MS,
        }),
        timeout_ms == bounded_timeout(config.timeout_ms),
{
    match config.timeout_ms {
        Some(value) => {
            if value < 1 {
                1
            } else {
                value
            }
        },
        None => DEFAULT_SEARCH_TIMEOUT_MS,
    }
}

/// A configured filter gives a search the ranges that the same text gives as a filter, and where
/// there is a filter the configured one makes no difference. Without either there are none.
pub proof fn configured_filter_is_read_like_a_filter(text: Seq<char>, other: Option<Seq<char>>)
    ensures
        search_ranges(None, Some(text)) == search_ranges(Some(text), other),
        search_ranges(None, None) == Seq::<Seq<char>>::empty(),
{
    configured_ranges_keep_their_order(Seq::empty(), text);
}

/// The ranges of a search are the parts of its filter between commas, in their order and without
/// the whitespace around them, but for blank ones. It makes no difference whether the filter is
/// configured or not.
pub proof fn search_ranges_are_the_parts_of_the_filter(
    left: Seq<char>,
    right: Seq<char>,
    other: Option<Seq<char>>,
)
    ensures
        search_ranges(Some(left + seq![','] + right), other) == search_ranges(Some(left), other)
            + search_ranges(Some(right), other),
        search_ranges(None, Some(left + seq![','] + right)) == search_ranges(None, Some(left))
            + search_ranges(None, Some(right)),
        !left.contains(',') ==> search_ranges(Some(left), other) == (if trimmed(left).len() == 0 {
            Seq::<Seq<char>>::empty()
        } else {
            seq![trimmed(left)]
        }),
        !left.contains(',') ==> search_ranges(None, Some(left)) == (if trimmed(left).len() == 0 {
            Seq::<Seq<char>>::empty()
        } else {
            seq![trimmed(left)]
        }),
{
    let configured = match other {
        Some(ranges) => pieces(ranges, Delimiter::Char(',')),
        None => Seq::empty(),
    };
    ranges_are_the_parts_between_commas(left, right, configured);
    configured_filter_is_read_like_a_filter(left, other);
    configured_filter_is_read_like_a_filter(right, other);
    configured_filter_is_read_like_a_filter(left + seq![','] + right, other);
}

proof fn lemma_filter_twice(
    list: Seq<Seq<char>>,
    first: spec_fn(Seq<char>) -> bool,
    second: spec_fn(Seq<char>) -> bool,
    both: spec_fn(Seq<char>) -> bool,
)
    requires
        forall|name: Seq<char>| #[trigger] both(name) == (first(name) && second(name)),
    ensures
        list.filter(first).filter(second) == list.filter(both),
    decreases list.len(),
{
    reveal(Seq::filter);
    if list.len() > 0 {
        let last = list.last();
        let before = list.drop_last().filter(first);
        lemma_filter_twice(list.drop_last(), first, second, both);
        assert(both(last) == (first(last) && second(last)));
        if first(last) {
            assert(before.push(last).drop_last() =~= before);
        }
    }
}

/// A search tests all nodes of the group in their order, but for the direct connection and the
/// one that rejects.
pub proof fn all_usable_nodes_are_tested(group: Seq<char>, entries: Entries)
    ensures
        tested_nodes(group, entries) == leaf_nodes(group, entries).filter(
            |name: Seq<char>| name != "DIRECT"@ && name != "REJECT"@,
        ),
{
    lemma_filter_twice(
        leaf_nodes(group, entries),
        |name: Seq<char>| name != "DIRECT"@,
        |name: Seq<char>| name != "REJECT"@,
        |name: Seq<char>| name != "DIRECT"@ && name != "REJECT"@,
    );
}

/// A search tests the nodes of the group in use: for each range of its filter the nodes whose
/// names hold the range, and then those that hold none. Without ranges it tests them all at once.
pub proof fn search_tests_the_group_in_use(
    mode: ModeView,
    entries: Entries,
    filter: Option<Seq<char>>,
    configured: Option<Seq<char>>,
    at: int,
)
    ensures
        ({
            let nodes = leaf_nodes(active(mode, entries).0, entries).filter(
                |name: Seq<char>| name != "DIRECT"@ && name != "REJECT"@,
            );
            let ranges = search_ranges(filter, configured);
            let list = search_batches(mode, entries, filter, configured);
            &&& ranges.len() == 0 ==> list == seq![("全部节点"@, nodes)]
            &&& 0 <= at < ranges.len() ==> at < list.len() && list[at] == (
                ranges[at],
                nodes.filter(|node: Seq<char>| contains_text(node, ranges[at])),
            )
            &&& ranges.len() > 0 ==> {
                let others = nodes.filter(
                    |node: Seq<char>|
                        forall|i: int|
                            0 <= i < ranges.len() ==> !contains_text(node, #[trigger] ranges[i]),
                );
                if others.len() > 0 {
                    list.len() == ranges.len() + 1 && list.last() == ("其他节点"@, others)
                } else {
                    list.len() == ranges.len()
                }
            }
        }),
{
    let group = active(mode, entries).0;
    all_usable_nodes_are_tested(group, entries);
    batches_come_in_the_order_of_ranges(
        tested_nodes(group, entries),
        search_ranges(filter, configured),
        at,
    );
}

/// A search that has come to a batch tests the first from there on that holds a node: all of its
/// nodes, under its label. It then has come to the batch after that one. Where there is no such
/// batch it fails, and has come to the end.
pub proof fn next_batch_is_tested_whole(list: Seq<(Seq<char>, Seq<Seq<char>>)>, from: int, at: int)
    requires
        0 <= from <= list.len(),
    ensures
        from <= at < list.len() && list[at].1.len() > 0 && (forall|i: int|
            from <= i < at ==> (#[trigger] list[i]).1.len() == 0) ==> {
            &&& step_from(list, from) == StepView::Test(list[at].0, list[at].1)
            &&& place_after(list, from) == at + 1
        },
        (forall|i: int| from <= i < list.len() ==> (#[trigger] list[i]).1.len() == 0) ==> {
            &&& step_from(list, from) == StepView::Fail
            &&& place_after(list, from) == list.len()
        },
{
    only_empty_batches_are_passed(list, from);
    if let Some(place) = next_batch(list, from) {
        if from <= at < place {
            assert(list[at].1.len() == 0);
        } else if place < at {
            assert(list[place].1.len() > 0);
        }
    }
}

/// A search selects the fastest node of the batch that was tested, and goes on where none
/// answered or the batch was skipped.
pub proof fn search_goes_on_without_an_answer(
    list: Seq<(Seq<char>, Seq<Seq<char>>)>,
    next: int,
    best: DelayView,
)
    ensures
        step_after(list, next, Some(best)).0 == StepView::Select(best),
        step_after(list, next, None) == (step_from(list, next), place_after(list, next)),
        answer_of(BatchOutcome::Empty) is None,
        answer_of(BatchOutcome::Cancelled) is None,
        forall|result: DelayResult|
            #[trigger] answer_of(BatchOutcome::Best(result)) == Some(result@),
{
}

/// A name is offered if and only if it is that of a group, but for the global group and the one
/// that blocks. The names are offered once each, in the order of their code points.
pub proof fn all_usable_groups_are_offered(entries: Entries, name: Seq<char>)
    requires
        unique_keys(entries),
        named_by_keys(entries),
    ensures
        offered_groups(entries).contains(name) <==> is_group(entries, name) && name != "GLOBAL"@
            && name != "🛑 Block"@,
        offered_groups(entries) == sorted_groups(entries).filter(
            |name: Seq<char>| name != "GLOBAL"@ && name != "🛑 Block"@,
        ),
{
    let all = sorted_groups(entries);
    let offered = offered_groups(entries);
    let usable = |name: Seq<char>| name != "GLOBAL"@ && name != "🛑 Block"@;
    lemma_filter_twice(
        all,
        |name: Seq<char>| name != "GLOBAL"@,
        |name: Seq<char>| name != "🛑 Block"@,
        usable,
    );
    listed_groups_are_all_groups(entries, name);
    if offered.contains(name) {
        all.lemma_filter_contains_rev(usable, name);
        let i = choose|i: int| 0 <= i < offered.len() && offered[i] == name;
        all.lemma_filter_pred(usable, i);
    }
    if all.contains(name) && usable(name) {
        let i = choose|i: int| 0 <= i < all.len() && all[i] == name;
        all.lemma_filter_contains(usable, i);
    }
}

/// The nodes of the group in use are offered, and of those the ones that the filter keeps.
pub proof fn nodes_of_the_group_in_use_are_offered(
    mode: ModeView,
    entries: Entries,
    filter: Option<Seq<char>>,
    node: Seq<char>,
)
    ensures
        offered_nodes(mode, entries, None) == leaf_nodes(active(mode, entries).0, entries),
        offered_nodes(mode, entries, filter) == filtered(
            offered_nodes(mode, entries, None),
            filter,
        ),
        offered_nodes(mode, entries, filter).contains(node) ==> leaf_nodes(
            active(mode, entries).0,
            entries,
        ).contains(node),
{
    let leaves = leaf_nodes(active(mode, entries).0, entries);
    if let Some(text) = filter {
        let keywords = filter_keywords(text);
        if filtered(leaves, filter).contains(node) && trimmed(text).len() > 0 && keywords.len()
            > 0 {
            leaves.lemma_filter_contains_rev(
                |name: Seq<char>| contains_any(lowercase(name), keywords),
                node,
            );
        }
    }
}

/// A choice begins at the first option that is the current one, and at the first of all where
/// the current one is not among them.
pub proof fn choice_begins_at_the_current_option(options: Seq<Seq<char>>, current: Seq<char>)
    ensures
        options.contains(current) ==> {
            &&& 0 <= initial_place(options, current) < options.len()
            &&& options[initial_place(options, current)] == current
            &&& forall|k: int|
                0 <= k < initial_place(options, current) ==> #[trigger] options[k] != current
        },
        !options.contains(current) ==> initial_place(options, current) == 0,
{
    place_is_the_first(options, current);
}

/// The three known modes are offered, and no other.
pub proof fn known_modes_are_offered(mode: ModeView)
    ensures
        offered_modes().no_duplicates(),
        offered_modes().contains(mode) <==> !(mode is Unknown),
        mode == ModeView::Rule ==> offered_modes()[0] == mode,
        mode == ModeView::Global ==> offered_modes()[1] == mode,
        mode == ModeView::Direct ==> offered_modes()[2] == mode,
{
    let modes = offered_modes();
    assert(modes[0] == ModeView::Rule);
    assert(modes[1] == ModeView::Global);
    assert(modes[2] == ModeView::Direct);
}

/// The state holds the group and the node in use, and the mode, the delay and the port as they
/// are.
pub proof fn state_holds_what_is_in_use(mode: ModeView, entries: Entries, delay: Delay, port: u16)
    ensures
        (
            status_of(mode, entries, delay, port).group,
            status_of(mode, entries, delay, port).node,
        ) == active(mode, entries),
        status_of(mode, entries, delay, port).mode == mode,
        status_of(mode, entries, delay, port).delay == delay,
        status_of(mode, entries, delay, port).port == port,
{
}

/// The width that the variable tells is the number that it holds, where that is one. Nothing is
/// told by a zero, by a number that is too large and by anything else.
pub proof fn told_width_is_a_number(columns: Seq<char>, width: usize)
    ensures
        told_width(None) is None,
        told_width(Some(columns)) == Some(width) <==> width > 0 && unsigned_value(columns) == Some(
            width as nat,
        ),
{
    if let Some(value) = unsigned_value(columns) {
        fitting_numbers_are_read(columns, value);
    }
}

/// A list to choose from, a batch and a step are seen with all that they hold.
pub proof fn steps_are_seen_as_they_are(
    menu: Menu,
    list: Seq<(String, Vec<String>)>,
    i: int,
    label: String,
    nodes: Vec<String>,
    best: DelayResult,
)
    ensures
        menu@.title == menu.title@,
        menu@.options == texts(menu.options@),
        menu@.initial == menu.initial,
        batch_views(list).len() == list.len(),
        0 <= i < list.len() ==> batch_views(list)[i] == (list[i].0@, texts(list[i].1@)),
        (SearchStep::Test { label, nodes })@ == StepView::Test(label@, texts(nodes@)),
        SearchStep::Select(best)@ == StepView::Select(best@),
        SearchStep::Fail@ == StepView::Fail,
        best@.node == best.node@,
        best@.delay == best.delay,
{
}

/// A choice that the user broke off is reported as such, whatever else is said of it. Of any other
/// the message says all that went wrong.
pub proof fn cancelled_choices_are_reported_as_such(
    before: Seq<char>,
    after: Seq<char>,
    summary: Seq<char>,
    problem: Seq<char>,
)
    ensures
        choice_message(before + "已取消"@ + after, problem) == "错误：已取消"@,
        !contains_text(summary, "已取消"@) ==> choice_message(summary, problem) == "错误："@
            + problem,
{
    contained_text_has_a_place(before + "已取消"@ + after, "已取消"@);
}

/// The width that `tput` tells is the number that it prints, whatever whitespace stands around it.
/// Eighty columns stand for anything else.
pub proof fn told_number_is_the_width(output: Seq<char>, width: usize)
    ensures
        tput_width(None) == 80,
        unsigned_value(trimmed(output)) == Some(width as nat) ==> tput_width(Some(output))
            == width,
        unsigned_value(trimmed(output)) is None ==> tput_width(Some(output)) == 80,
        unsigned_value(trimmed(output)) matches Some(value) && value > usize::MAX ==> tput_width(
            Some(output),
        ) == 80,
{
    if let Some(value) = unsigned_value(trimmed(output)) {
        fitting_numbers_are_read(trimmed(output), value);
    }
}

/// A choice of a mode begins at the mode that is on, and at the first for a mode that is not
/// offered.
pub proof fn mode_choice_begins_at_the_mode(mode: ModeView)
    ensures
        0 <= mode_place(mode) < offered_modes().len(),
        offered_modes().contains(mode) ==> offered_modes()[mode_place(mode)] == mode,
        !offered_modes().contains(mode) ==> mode_place(mode) == 0,
{
    known_modes_are_offered(mode);
}

/// A choice begins where it is to begin, or at the last option where that lies beyond. There is
/// no place without options.
pub proof fn choice_begins_among_the_options(initial: usize, count: usize)
    ensures
        first_place(initial, count) is None <==> count == 0,
        initial < count ==> first_place(initial, count) == Some(initial),
        first_place(initial, count) matches Some(place) ==> place < count && (initial >= count
            ==> place + 1 == count),
{
}

/// The delay is measured of the node in use, and of the direct connection in the mode without a
/// proxy, whatever node is told then.
pub proof fn delay_is_that_of_the_node_in_use(info: StatusView)
    ensures
        measured_node(StatusView { mode: ModeView::Direct, ..info }) == "DIRECT"@,
        info.mode != ModeView::Direct ==> measured_node(info) == info.node,
{
}

/// A second measurement counts only where the first failed, and then as a first one would. The
/// delay is shown as not measured in time where both failed.
pub proof fn second_measurement_counts_after_a_failure(value: u64, retry: Option<u64>)
    ensures
        delay_of_two(Some(value), retry) == Delay::Value(value),
        delay_of_two(None, retry) == delay_of_two(retry, None),
        delay_of_two(None, None) == Delay::Timeout,
{
}

/// No fewer than one node and no more than 256 are tested at a time, and as many as are configured
/// between. A node may take a millisecond at least, and else what is configured.
pub proof fn searches_stay_in_bounds(count: usize, timeout_ms: u64)
    ensures
        1 <= bounded_concurrency(Some(count)) <= 256,
        1 <= count <= 256 ==> bounded_concurrency(Some(count)) == count,
        count > 256 ==> bounded_concurrency(Some(count)) == 256,
        bounded_concurrency(None) == 20,
        bounded_timeout(Some(timeout_ms)) >= 1,
        timeout_ms >= 1 ==> bounded_timeout(Some(timeout_ms)) == timeout_ms,
        bounded_timeout(None) == 5000,
{
}

} // verus!
