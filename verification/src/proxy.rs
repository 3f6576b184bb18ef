//! The controller's proxies: which of them are groups, which group is in use, and which nodes
//! it leads to.

use vstd::hash_set::StringHashSet;
use vstd::prelude::*;
use crate::error::ControllerError;
use crate::json::{json_items, json_members, Json, JsonView};
use crate::mode::{Mode, ModeView};
use crate::text::{contains_text, in_order, optional, text_contains, text_le, texts, without};

verus! {

/// The group that is picked before all others.
pub const MANUAL_GROUP: &'static str = "🔰 手动选择";

/// What the name of a group for manual selection holds.
pub const MANUAL_MARK: &'static str = "手动选择";

/// A proxy: a node, or a group with the names of its members and the one that is selected.
#[derive(Debug, Clone, PartialEq, Eq)]
pub struct Proxy {
    pub name: String,
    pub proxy_type: String,
    pub now: Option<String>,
    pub all: Vec<String>,
}

/// A proxy as contracts see it.
#[verifier::ext_equal]
pub struct ProxyView {
    pub name: Seq<char>,
    pub proxy_type: Seq<char>,
    pub now: Option<Seq<char>>,
    pub all: Seq<Seq<char>>,
}

impl View for Proxy {
    type V = ProxyView;

    open spec fn view(&self) -> ProxyView {
        ProxyView {
            name: self.name@,
            proxy_type: self.proxy_type@,
            now: optional(self.now),
            all: texts(self.all@),
        }
    }
}

/// Proxies under their names, in the order in which the names came.
pub type Entries = Seq<(Seq<char>, ProxyView)>;

/// The names of the entries.
pub open spec fn keys(entries: Entries) -> Seq<Seq<char>> {
    entries.map_values(|entry: (Seq<char>, ProxyView)| entry.0)
}

/// No two entries have one name.
pub open spec fn unique_keys(entries: Entries) -> bool {
    forall|i: int, j: int|
        0 <= i < j < entries.len() ==> (#[trigger] entries[i]).0 != (#[trigger] entries[j]).0
}

/// The proxy under a name.
pub open spec fn lookup(entries: Entries, key: Seq<char>) -> Option<ProxyView>
    decreases entries.len(),
{
    if entries.len() == 0 {
        None
    } else if entries[0].0 == key {
        Some(entries[0].1)
    } else {
        lookup(entries.drop_first(), key)
    }
}

/// The entries with one more: it takes the place of the entry with its name, or comes last.
pub open spec fn inserted(entries: Entries, key: Seq<char>, proxy: ProxyView) -> Entries
    decreases entries.len(),
{
    if entries.len() == 0 {
        seq![(key, proxy)]
    } else if entries[0].0 == key {
        entries.update(0, (key, proxy))
    } else {
        seq![entries[0]] + inserted(entries.drop_first(), key, proxy)
    }
}

/// What is inserted under a name is found there, and what is under other names stays.
pub proof fn inserted_is_found(
    entries: Entries,
    key: Seq<char>,
    proxy: ProxyView,
    other: Seq<char>,
)
    ensures
        lookup(inserted(entries, key, proxy), other) == if other == key {
            Some(proxy)
        } else {
            lookup(entries, other)
        },
    decreases entries.len(),
{
    let after = inserted(entries, key, proxy);
    if entries.len() == 0 {
        assert(after.drop_first() =~= entries);
        reveal_with_fuel(lookup, 2);
    } else if entries[0].0 == key {
        assert(after.drop_first() =~= entries.drop_first());
    } else {
        inserted_is_found(entries.drop_first(), key, proxy, other);
        assert(after.drop_first() =~= inserted(entries.drop_first(), key, proxy));
    }
}

proof fn lemma_lookup_absent(entries: Entries, key: Seq<char>)
    ensures
        lookup(entries, key) is None <==> (forall|i: int|
            0 <= i < entries.len() ==> (#[trigger] entries[i]).0 != key),
    decreases entries.len(),
{
    if entries.len() > 0 {
        let rest = entries.drop_first();
        lemma_lookup_absent(rest, key);
        if entries[0].0 != key {
            if lookup(entries, key) is None {
                assert forall|i: int| 0 <= i < entries.len() implies (#[trigger] entries[i]).0
                    != key by {
                    if i > 0 {
                        assert(rest[i - 1] == entries[i]);
                    }
                }
            } else {
                let i = choose|i: int| 0 <= i < rest.len() && (#[trigger] rest[i]).0 == key;
                assert(entries[i + 1] == rest[i]);
            }
        }
    }
}

proof fn lemma_lookup_at(entries: Entries, key: Seq<char>, at: int)
    requires
        0 <= at < entries.len(),
        entries[at].0 == key,
        forall|i: int| 0 <= i < at ==> (#[trigger] entries[i]).0 != key,
    ensures
        lookup(entries, key) == Some(entries[at].1),
        forall|proxy: ProxyView|
            #[trigger] inserted(entries, key, proxy) == entries.update(at, (key, proxy)),
    decreases entries.len(),
{
    if at > 0 {
        let rest = entries.drop_first();
        assert forall|i: int| 0 <= i < at - 1 implies (#[trigger] rest[i]).0 != key by {
            assert(rest[i] == entries[i + 1]);
        }
        lemma_lookup_at(rest, key, at - 1);
        assert(entries[0].0 != key);
        assert forall|proxy: ProxyView| #[trigger]
            inserted(entries, key, proxy) == entries.update(at, (key, proxy)) by {
            assert(inserted(rest, key, proxy) == rest.update(at - 1, (key, proxy)));
            assert(seq![entries[0]] + rest.update(at - 1, (key, proxy)) =~= entries.update(
                at,
                (key, proxy),
            ));
        }
    }
}

proof fn lemma_inserted_last(entries: Entries, key: Seq<char>, proxy: ProxyView)
    requires
        lookup(entries, key) is None,
    ensures
        inserted(entries, key, proxy) == entries.push((key, proxy)),
    decreases entries.len(),
{
    if entries.len() > 0 {
        lemma_inserted_last(entries.drop_first(), key, proxy);
        assert(seq![entries[0]] + entries.drop_first().push((key, proxy)) =~= entries.push(
            (key, proxy),
        ));
    } else {
        assert(entries.push((key, proxy)) =~= seq![(key, proxy)]);
    }
}

/// Proxies under their names.
#[derive(Debug)]
pub struct ProxyMap {
    entries: Vec<(String, Proxy)>,
}

impl View for ProxyMap {
    type V = Entries;

    closed spec fn view(&self) -> Entries {
        self.entries@.map_values(|entry: (String, Proxy)| (entry.0@, entry.1@))
    }
}

impl ProxyMap {
    #[verifier::type_invariant]
    spec fn has_unique_keys(self) -> bool {
        unique_keys(self@)
    }

    /// No proxies.
    pub fn new() -> (map: Self)
        ensures
            map@ == Entries::empty(),
    {
        let entries: Vec<(String, Proxy)> = Vec::new();
        proof {
            assert(entries@.map_values(|entry: (String, Proxy)| (entry.0@, entry.1@))
                =~= Entries::empty());
        }
        ProxyMap { entries }
    }

    fn position(&self, key: &str) -> (at: Option<usize>)
        ensures
            match at {
                Some(at) => {
                    &&& at < self@.len()
                    &&& self@[at as int].0 == key@
                    &&& forall|i: int| 0 <= i < at ==> (#[trigger] self@[i]).0 != key@
                },
                None => lookup(self@, key@) is None,
            },
    {
        let mut i: usize = 0;
        while i < self.entries.len()
            invariant
                i <= self.entries@.len(),
                forall|k: int| 0 <= k < i ==> (#[trigger] self@[k]).0 != key@,
            decreases self.entries@.len() - i,
        {
            assert(self@[i as int].0 == self.entries@[i as int].0@);
            if *self.entries[i].0.as_str() == *key {
                return Some(i);
            }
            i += 1;
        }
        proof {
            lemma_lookup_absent(self@, key@);
        }
        None
    }

    /// The proxy under a name.
    pub fn get(&self, key: &str) -> (found: Option<&Proxy>)
        ensures
            match found {
                Some(proxy) => lookup(self@, key@) == Some(proxy@),
                None => lookup(self@, key@) is None,
            },
    {
        match self.position(key) {
            Some(at) => {
                proof {
                    lemma_lookup_at(self@, key@, at as int);
                }
                Some(&self.entries[at].1)
            },
            None => None,
        }
    }

    /// Puts a proxy under a name, in place of the one that is there.
    pub fn insert(&mut self, key: String, proxy: Proxy)
        ensures
            final(self)@ == inserted(old(self)@, key@, proxy@),
    {
        let ghost before = self@;
        proof {
            use_type_invariant(&*self);
        }
        match self.position(key.as_str()) {
            Some(at) => {
                proof {
                    lemma_lookup_at(before, key@, at as int);
                }
                let ghost item = (key@, proxy@);
                let mut entries: Vec<(String, Proxy)> = Vec::new();
                std::mem::swap(&mut entries, &mut self.entries);
                entries.set(at, (key, proxy));
                assert(entries@.map_values(|entry: (String, Proxy)| (entry.0@, entry.1@))
                    =~= before.update(at as int, item));
                self.entries = entries;
            },
            None => {
                proof {
                    lemma_inserted_last(before, key@, proxy@);
                    lemma_lookup_absent(before, key@);
                }
                let ghost item = (key@, proxy@);
                let mut entries: Vec<(String, Proxy)> = Vec::new();
                std::mem::swap(&mut entries, &mut self.entries);
                entries.push((key, proxy));
                assert(entries@.map_values(|entry: (String, Proxy)| (entry.0@, entry.1@))
                    =~= before.push(item));
                self.entries = entries;
            },
        }
    }
}

/// The proxy under a name is a group: it has members.
pub open spec fn is_group(entries: Entries, name: Seq<char>) -> bool {
    lookup(entries, name) matches Some(proxy) && proxy.all.len() > 0
}

/// The first member of a list that `accept` accepts.
pub open spec fn first_where(
    list: Seq<Seq<char>>,
    accept: spec_fn(Seq<char>) -> bool,
) -> Option<Seq<char>>
    decreases list.len(),
{
    if list.len() == 0 {
        None
    } else if accept(list[0]) {
        Some(list[0])
    } else {
        first_where(list.drop_first(), accept)
    }
}

/// The group to begin with where none is selected: the group for manual selection, else the
/// first whose name says that it is one, else the first group in the global group.
pub open spec fn default_group(entries: Entries) -> Option<Seq<char>> {
    if lookup(entries, MANUAL_GROUP@) is Some {
        Some(MANUAL_GROUP@)
    } else {
        match first_where(keys(entries), |name: Seq<char>| contains_text(name, MANUAL_MARK@)) {
            Some(name) => Some(name),
            None => match lookup(entries, "GLOBAL"@) {
                Some(global) => first_where(
                    global.all,
                    |name: Seq<char>| is_group(entries, name),
                ),
                None => None,
            },
        }
    }
}

/// The names of the groups, in the order of the entries.
pub open spec fn group_names(entries: Entries) -> Seq<Seq<char>> {
    entries.filter(|entry: (Seq<char>, ProxyView)| entry.1.all.len() > 0).map_values(
        |entry: (Seq<char>, ProxyView)| entry.1.name,
    )
}

/// The names of the groups, in the order of their code points.
pub open spec fn sorted_groups(entries: Entries) -> Seq<Seq<char>> {
    group_names(entries).sort_by(|left: Seq<char>, right: Seq<char>| text_le(left, right))
}

/// The members of a list stand in the order of their code points.
pub open spec fn in_text_order(list: Seq<Seq<char>>) -> bool {
    forall|i: int, j: int|
        0 <= i <= j < list.len() ==> text_le(#[trigger] list[i], #[trigger] list[j])
}

proof fn lemma_text_le_total(left: Seq<char>, right: Seq<char>)
    ensures
        text_le(left, left),
        text_le(left, right) || text_le(right, left),
    decreases left.len(),
{
    if left.len() > 0 {
        lemma_text_le_total(left.drop_first(), left.drop_first());
        if right.len() > 0 {
            lemma_text_le_total(left.drop_first(), right.drop_first());
        }
    }
}

proof fn lemma_text_le_transitive(a: Seq<char>, b: Seq<char>, c: Seq<char>)
    requires
        text_le(a, b),
        text_le(b, c),
    ensures
        text_le(a, c),
    decreases a.len(),
{
    if a.len() > 0 && a[0] == b[0] && b[0] == c[0] {
        lemma_text_le_transitive(a.drop_first(), b.drop_first(), c.drop_first());
    }
}

proof fn lemma_text_le_antisymmetric(left: Seq<char>, right: Seq<char>)
    requires
        text_le(left, right),
        text_le(right, left),
    ensures
        left == right,
    decreases left.len(),
{
    if left.len() > 0 {
        lemma_text_le_antisymmetric(left.drop_first(), right.drop_first());
        assert(left =~= seq![left[0]] + left.drop_first());
        assert(right =~= seq![right[0]] + right.drop_first());
    } else {
        assert(left =~= right);
    }
}

/// The order of code points is a total order.
proof fn lemma_text_order()
    ensures
        vstd::relations::total_ordering(
            |left: Seq<char>, right: Seq<char>| text_le(left, right),
        ),
{
    let order = |left: Seq<char>, right: Seq<char>| text_le(left, right);
    assert(vstd::relations::total_ordering(order)) by {
        assert forall|a: Seq<char>| #[trigger] order(a, a) by {
            lemma_text_le_total(a, a);
        }
        assert forall|a: Seq<char>, b: Seq<char>| #[trigger] order(a, b) && #[trigger] order(
            b,
            a,
        ) implies a == b by {
            lemma_text_le_antisymmetric(a, b);
        }
        assert forall|a: Seq<char>, b: Seq<char>, c: Seq<char>| #[trigger] order(a, b)
            && #[trigger] order(b, c) implies order(a, c) by {
            lemma_text_le_transitive(a, b, c);
        }
        assert forall|a: Seq<char>, b: Seq<char>| #[trigger] order(a, b) || #[trigger] order(
            b,
            a,
        ) by {
            lemma_text_le_total(a, b);
        }
    }
}

/// A list in order has the order that sorting gives to the same texts.
proof fn lemma_order_is_sorted(list: Seq<Seq<char>>, names: Seq<Seq<char>>)
    requires
        in_text_order(list),
        list.to_multiset() == names.to_multiset(),
    ensures
        list == names.sort_by(|left: Seq<char>, right: Seq<char>| text_le(left, right)),
{
    let order = |left: Seq<char>, right: Seq<char>| text_le(left, right);
    lemma_text_order();
    names.lemma_sort_by_ensures(order);
    vstd::seq_lib::lemma_sorted_unique(list, names.sort_by(order), order);
}

/// Puts a text into an ordered list, where the order stays.
fn insert_ordered(list: &mut Vec<String>, item: String)
    requires
        in_text_order(texts(old(list)@)),
    ensures
        in_text_order(texts(final(list)@)),
        texts(final(list)@).to_multiset() == texts(old(list)@).to_multiset().insert(item@),
{
    let ghost before = texts(list@);
    let ghost value = item@;
    let mut at: usize = 0;
    while at < list.len() && in_order(list[at].as_str(), item.as_str())
        invariant
            at <= list@.len(),
            before == texts(list@),
            value == item@,
            forall|k: int| 0 <= k < at ==> text_le(#[trigger] before[k], value),
        decreases list@.len() - at,
    {
        assert(before[at as int] == list@[at as int]@);
        at += 1;
    }
    proof {
        if at < list.len() {
            assert(before[at as int] == list@[at as int]@);
            lemma_text_le_total(value, before[at as int]);
        }
        lemma_text_le_total(value, value);
    }
    list.insert(at, item);
    proof {
        let after = texts(list@);
        assert(after =~= before.insert(at as int, value));
        vstd::seq_lib::to_multiset_insert(before, at as int, value);
        assert forall|i: int, j: int| 0 <= i <= j < after.len() implies text_le(
            #[trigger] after[i],
            #[trigger] after[j],
        ) by {
            if i < at && j == at {
                assert(text_le(before[i], value));
            } else if i < at && j > at {
                assert(text_le(before[i], before[j - 1]));
            } else if i == at && j > at {
                assert(text_le(value, before[at as int]));
                assert(text_le(before[at as int], before[j - 1]));
                lemma_text_le_transitive(value, before[at as int], before[j - 1]);
            } else if i > at {
                assert(text_le(before[i - 1], before[j - 1]));
            }
        }
    }
}

/// The names of the groups, in the order of their code points.
pub fn selector_groups(proxies: &ProxyMap) -> (groups: Vec<String>)
    ensures
        texts(groups@) == sorted_groups(proxies@),
        in_text_order(texts(groups@)),
        texts(groups@).to_multiset() == group_names(proxies@).to_multiset(),
{
    let ghost all = proxies@;
    let ghost grouped = |entry: (Seq<char>, ProxyView)| entry.1.all.len() > 0;
    let ghost named = |entry: (Seq<char>, ProxyView)| entry.1.name;
    let mut groups: Vec<String> = Vec::new();
    let mut i: usize = 0;
    assert(texts(groups@) =~= group_names(all.take(0))) by {
        reveal(Seq::filter);
    }
    while i < proxies.entries.len()
        invariant
            i <= proxies.entries@.len(),
            all == proxies@,
            grouped == (|entry: (Seq<char>, ProxyView)| entry.1.all.len() > 0),
            named == (|entry: (Seq<char>, ProxyView)| entry.1.name),
            in_text_order(texts(groups@)),
            texts(groups@).to_multiset() == group_names(all.take(i as int)).to_multiset(),
        decreases proxies.entries@.len() - i,
    {
        let entry = &proxies.entries[i];
        let ghost view = (entry.0@, entry.1@);
        proof {
            reveal(Seq::filter);
            assert(all.take(i + 1).drop_last() == all.take(i as int));
            assert(all.take(i + 1).last() == view);
            let before = all.take(i as int).filter(grouped);
            if view.1.all.len() > 0 {
                assert(all.take(i + 1).filter(grouped) == before.push(view));
                assert(before.push(view).map_values(named) =~= before.map_values(named).push(
                    view.1.name,
                ));
                before.map_values(named).to_multiset_ensures();
            } else {
                assert(all.take(i + 1).filter(grouped) == before);
            }
        }
        if entry.1.all.len() > 0 {
            insert_ordered(&mut groups, entry.1.name.clone());
        }
        i += 1;
    }
    assert(all.take(i as int) == all);
    proof {
        lemma_order_is_sorted(texts(groups@), group_names(all));
    }
    groups
}

impl ProxyMap {
    /// Whether the proxy under a name is a group.
    pub fn has_group(&self, name: &str) -> (yes: bool)
        ensures
            yes == is_group(self@, name@),
    {
        match self.get(name) {
            Some(proxy) => proxy.all.len() > 0,
            None => false,
        }
    }
}

/// The group to begin with where none is selected.
pub fn choose_default_group(proxies: &ProxyMap) -> (group: Option<String>)
    ensures
        optional(group) == default_group(proxies@),
{
    if proxies.get(MANUAL_GROUP).is_some() {
        return Some(MANUAL_GROUP.to_owned());
    }
    let ghost names = keys(proxies@);
    let ghost marked = |name: Seq<char>| contains_text(name, MANUAL_MARK@);
    let mut i: usize = 0;
    assert(names.skip(0) == names);
    while i < proxies.entries.len()
        invariant
            i <= proxies.entries@.len(),
            names == keys(proxies@),
            marked == (|name: Seq<char>| contains_text(name, MANUAL_MARK@)),
            lookup(proxies@, MANUAL_GROUP@) is None,
            first_where(names, marked) == first_where(names.skip(i as int), marked),
        decreases proxies.entries@.len() - i,
    {
        let name = &proxies.entries[i].0;
        proof {
            assert(names.skip(i as int)[0] == name@);
            assert(names.skip(i as int).drop_first() == names.skip(i + 1));
        }
        if text_contains(name.as_str(), MANUAL_MARK) {
            return Some(name.clone());
        }
        i += 1;
    }
    let global = match proxies.get("GLOBAL") {
        Some(global) => global,
        None => {
            return None;
        },
    };
    let ghost members = global@.all;
    let ghost grouped = |name: Seq<char>| is_group(proxies@, name);
    let mut j: usize = 0;
    assert(members.skip(0) == members);
    while j < global.all.len()
        invariant
            j <= global.all@.len(),
            members == global@.all,
            grouped == (|name: Seq<char>| is_group(proxies@, name)),
            lookup(proxies@, MANUAL_GROUP@) is None,
            first_where(keys(proxies@), |name: Seq<char>| contains_text(name, MANUAL_MARK@)) is None,
            lookup(proxies@, "GLOBAL"@) == Some(global@),
            first_where(members, grouped) == first_where(members.skip(j as int), grouped),
        decreases global.all@.len() - j,
    {
        proof {
            assert(members.skip(j as int)[0] == global.all@[j as int]@);
            assert(members.skip(j as int).drop_first() == members.skip(j + 1));
        }
        if proxies.has_group(global.all[j].as_str()) {
            return Some(global.all[j].clone());
        }
        j += 1;
    }
    None
}

/// How many entries have names that are not in `seen`.
pub open spec fn unseen(entries: Entries, seen: Set<Seq<char>>) -> nat {
    keys(entries).to_set().difference(seen).len()
}

pub proof fn lemma_unseen_insert(entries: Entries, seen: Set<Seq<char>>, name: Seq<char>)
    requires
        lookup(entries, name) is Some,
        !seen.contains(name),
    ensures
        unseen(entries, seen.insert(name)) < unseen(entries, seen),
{
    let names = keys(entries).to_set();
    lemma_lookup_absent(entries, name);
    let i = choose|i: int| 0 <= i < entries.len() && (#[trigger] entries[i]).0 == name;
    assert(keys(entries)[i] == name);
    assert(names.contains(name));
    vstd::seq_lib::seq_to_set_is_finite(keys(entries));
    assert(names.difference(seen.insert(name)) =~= names.difference(seen).remove(name));
}

pub proof fn lemma_unseen_union(entries: Entries, seen: Set<Seq<char>>, more: Set<Seq<char>>)
    ensures
        unseen(entries, seen.union(more)) <= unseen(entries, seen),
{
    let names = keys(entries).to_set();
    vstd::seq_lib::seq_to_set_is_finite(keys(entries));
    vstd::set_lib::lemma_len_subset(
        names.difference(seen.union(more)),
        names.difference(seen),
    );
}

/// The node that a group leads to: what it has selected, or where that is a group, what that
/// group leads to. A group without a selection leads nowhere, and so does a circle: no group
/// is asked that is in `visited` already.
pub open spec fn node_from(
    name: Seq<char>,
    entries: Entries,
    visited: Set<Seq<char>>,
) -> Option<Seq<char>>
    decreases unseen(entries, visited),
{
    if visited.contains(name) {
        None
    } else {
        match lookup(entries, name) {
            None => None,
            Some(proxy) => match proxy.now {
                None => None,
                Some(now) => if is_group(entries, now) {
                    proof {
                        lemma_unseen_insert(entries, visited, name);
                    }
                    node_from(now, entries, visited.insert(name))
                } else {
                    Some(now)
                },
            },
        }
    }
}

/// The groups that have been asked, those in `visited` among them, when a group has been followed
/// as far as it leads.
pub open spec fn asked_from(name: Seq<char>, entries: Entries, visited: Set<Seq<char>>) -> Set<
    Seq<char>,
>
    decreases unseen(entries, visited),
{
    if visited.contains(name) {
        visited
    } else {
        match lookup(entries, name) {
            Some(proxy) => match proxy.now {
                Some(now) if is_group(entries, now) => {
                    proof {
                        lemma_unseen_insert(entries, visited, name);
                    }
                    asked_from(now, entries, visited.insert(name))
                },
                _ => visited.insert(name),
            },
            None => visited.insert(name),
        }
    }
}

/// What the global group has selected.
pub open spec fn global_now(entries: Entries) -> Option<Seq<char>> {
    match lookup(entries, "GLOBAL"@) {
        Some(global) => global.now,
        None => None,
    }
}

/// The group from which the node in use is sought: the group that the global group has
/// selected, else the default group, else the global group.
pub open spec fn starting_group(entries: Entries) -> Seq<char> {
    match global_now(entries) {
        Some(now) if is_group(entries, now) => now,
        _ => match default_group(entries) {
            Some(group) => group,
            None => "GLOBAL"@,
        },
    }
}

/// The group and the node in use.
pub open spec fn active(mode: ModeView, entries: Entries) -> (Seq<char>, Seq<char>) {
    if mode == ModeView::Direct {
        ("DIRECT"@, "DIRECT"@)
    } else {
        match global_now(entries) {
            Some(now) if !is_group(entries, now) => ("GLOBAL"@, now),
            _ => {
                let group = starting_group(entries);
                let node = match node_from(group, entries, Set::empty()) {
                    Some(node) => node,
                    None => match global_now(entries) {
                        Some(now) => now,
                        None => "未知"@,
                    },
                };
                (group, node)
            },
        }
    }
}

/// The group in use can be told: where the global group has nothing selected, no group has an
/// empty name.
pub open spec fn resolvable(mode: ModeView, entries: Entries) -> bool {
    mode == ModeView::Direct || global_now(entries) is Some || !is_group(entries, ""@)
}

/// A node that a group leads to is not a group.
pub proof fn node_is_no_group(name: Seq<char>, entries: Entries, visited: Set<Seq<char>>)
    ensures
        node_from(name, entries, visited) matches Some(node) ==> !is_group(entries, node),
    decreases unseen(entries, visited),
{
    if !visited.contains(name) && lookup(entries, name) is Some {
        match lookup(entries, name)->0.now {
            Some(now) => if is_group(entries, now) {
                lemma_unseen_insert(entries, visited, name);
                node_is_no_group(now, entries, visited.insert(name));
            },
            None => {},
        }
    }
}

/// The node that a group leads to, where no group in `visited` is asked again.
pub fn resolve_node_from(
    name: &str,
    proxies: &ProxyMap,
    visited: &mut StringHashSet,
) -> (node: Option<String>)
    ensures
        optional(node) == node_from(name@, proxies@, old(visited)@),
        final(visited)@ == asked_from(name@, proxies@, old(visited)@),
    decreases unseen(proxies@, old(visited)@),
{
    if !visited.insert(name.to_owned()) {
        return None;
    }
    let proxy = match proxies.get(name) {
        Some(proxy) => proxy,
        None => {
            return None;
        },
    };
    match &proxy.now {
        Some(now) => {
            if proxies.has_group(now.as_str()) {
                proof {
                    lemma_unseen_insert(proxies@, old(visited)@, name@);
                }
                resolve_node_from(now.as_str(), proxies, visited)
            } else {
                Some(now.clone())
            }
        },
        None => None,
    }
}

/// What the global group has selected.
fn selected_globally(proxies: &ProxyMap) -> (now: Option<&String>)
    ensures
        match now {
            Some(name) => global_now(proxies@) == Some(name@),
            None => global_now(proxies@) is None,
        },
{
    match proxies.get("GLOBAL") {
        Some(global) => global.now.as_ref(),
        None => None,
    }
}

/// Whether the group in use can be told.
pub fn can_resolve(mode: &Mode, proxies: &ProxyMap) -> (yes: bool)
    ensures
        yes == resolvable(mode@, proxies@),
{
    mode.is_direct() || selected_globally(proxies).is_some() || !proxies.has_group("")
}

/// The group and the node in use.
pub fn resolve_active_group_and_node(mode: &Mode, proxies: &ProxyMap) -> (found: (String, String))
    requires
        resolvable(mode@, proxies@),
    ensures
        (found.0@, found.1@) == active(mode@, proxies@),
{
    if mode.is_direct() {
        return ("DIRECT".to_owned(), "DIRECT".to_owned());
    }
    let selected = selected_globally(proxies);
    let group = match selected {
        Some(now) => {
            if !proxies.has_group(now.as_str()) {
                return ("GLOBAL".to_owned(), now.clone());
            }
            now.clone()
        },
        None => match choose_default_group(proxies) {
            Some(group) => group,
            None => "GLOBAL".to_owned(),
        },
    };
    let mut visited = StringHashSet::new();
    let node = match resolve_node_from(group.as_str(), proxies, &mut visited) {
        Some(node) => node,
        None => match selected {
            Some(now) => now.clone(),
            None => "未知".to_owned(),
        },
    };
    (group, node)
}

/// A walk through groups: the names that were asked, and the nodes that were met.
#[verifier::ext_equal]
pub struct Walk {
    pub seen: Set<Seq<char>>,
    pub nodes: Seq<Seq<char>>,
}

/// The walk from a name, of which the names in `seen` are left out. A name that is no group
/// is a node itself.
pub open spec fn walk_from(name: Seq<char>, entries: Entries, seen: Set<Seq<char>>) -> Walk
    decreases unseen(entries, seen), 0nat,
{
    if seen.contains(name) {
        Walk { seen, nodes: Seq::empty() }
    } else if is_group(entries, name) {
        proof {
            lemma_unseen_insert(entries, seen, name);
        }
        walk_members(lookup(entries, name)->0.all, entries, seen.insert(name))
    } else {
        Walk { seen: seen.insert(name), nodes: seq![name] }
    }
}

/// The walk through the members of a group, from left to right: into each that is a group,
/// and past each that is a node.
pub open spec fn walk_members(
    members: Seq<Seq<char>>,
    entries: Entries,
    seen: Set<Seq<char>>,
) -> Walk
    decreases unseen(entries, seen), members.len() + 1,
{
    if members.len() == 0 {
        Walk { seen, nodes: Seq::empty() }
    } else {
        let before = walk_members(members.drop_last(), entries, seen);
        let member = members.last();
        if is_group(entries, member) {
            proof {
                lemma_unseen_union(entries, seen, before.seen);
            }
            let inner = walk_from(member, entries, seen.union(before.seen));
            Walk { seen: inner.seen, nodes: before.nodes + inner.nodes }
        } else {
            Walk { seen: before.seen, nodes: before.nodes.push(member) }
        }
    }
}

/// The nodes of a group and of the groups in it, without the one that rejects.
pub open spec fn leaf_nodes(group: Seq<char>, entries: Entries) -> Seq<Seq<char>> {
    walk_from(group, entries, Set::empty()).nodes.filter(|name: Seq<char>| name != "REJECT"@)
}

proof fn lemma_walk_grows(name: Seq<char>, entries: Entries, seen: Set<Seq<char>>)
    ensures
        seen.subset_of(walk_from(name, entries, seen).seen),
        walk_from(name, entries, seen).seen.contains(name),
    decreases unseen(entries, seen), 0nat,
{
    if !seen.contains(name) && is_group(entries, name) {
        lemma_unseen_insert(entries, seen, name);
        lemma_members_grow(lookup(entries, name)->0.all, entries, seen.insert(name));
    }
}

proof fn lemma_members_grow(members: Seq<Seq<char>>, entries: Entries, seen: Set<Seq<char>>)
    ensures
        seen.subset_of(walk_members(members, entries, seen).seen),
    decreases unseen(entries, seen), members.len() + 1,
{
    if members.len() > 0 {
        lemma_members_grow(members.drop_last(), entries, seen);
        let before = walk_members(members.drop_last(), entries, seen);
        if is_group(entries, members.last()) {
            lemma_unseen_union(entries, seen, before.seen);
            lemma_walk_grows(members.last(), entries, seen.union(before.seen));
        }
    }
}

/// No node of a walk is a group.
pub proof fn walk_meets_no_group(
    name: Seq<char>,
    entries: Entries,
    seen: Set<Seq<char>>,
    at: int,
)
    requires
        0 <= at < walk_from(name, entries, seen).nodes.len(),
    ensures
        !is_group(entries, walk_from(name, entries, seen).nodes[at]),
    decreases unseen(entries, seen), 0nat,
{
    if !seen.contains(name) && is_group(entries, name) {
        lemma_unseen_insert(entries, seen, name);
        lemma_members_meet_no_group(
            lookup(entries, name)->0.all,
            entries,
            seen.insert(name),
            at,
        );
    }
}

proof fn lemma_members_meet_no_group(
    members: Seq<Seq<char>>,
    entries: Entries,
    seen: Set<Seq<char>>,
    at: int,
)
    requires
        0 <= at < walk_members(members, entries, seen).nodes.len(),
    ensures
        !is_group(entries, walk_members(members, entries, seen).nodes[at]),
    decreases unseen(entries, seen), members.len() + 1,
{
    if members.len() > 0 {
        let before = walk_members(members.drop_last(), entries, seen);
        if at < before.nodes.len() {
            lemma_members_meet_no_group(members.drop_last(), entries, seen, at);
        } else if is_group(entries, members.last()) {
            lemma_unseen_union(entries, seen, before.seen);
            walk_meets_no_group(
                members.last(),
                entries,
                seen.union(before.seen),
                at - before.nodes.len(),
            );
        }
    }
}

/// The nodes of a group are neither groups nor the node that rejects.
pub proof fn leaves_are_usable_nodes(group: Seq<char>, entries: Entries, at: int)
    requires
        0 <= at < leaf_nodes(group, entries).len(),
    ensures
        !is_group(entries, leaf_nodes(group, entries)[at]),
        leaf_nodes(group, entries)[at] != "REJECT"@,
{
    let nodes = walk_from(group, entries, Set::empty()).nodes;
    let usable = |name: Seq<char>| name != "REJECT"@;
    let leaf = leaf_nodes(group, entries)[at];
    nodes.lemma_filter_pred(usable, at);
    nodes.lemma_filter_contains_rev(usable, leaf);
    let i = choose|i: int| 0 <= i < nodes.len() && nodes[i] == leaf;
    walk_meets_no_group(group, entries, Set::empty(), i);
}

/// Each name on a path but the last is a group, and the next name is a member of it.
pub open spec fn is_path(entries: Entries, path: Seq<Seq<char>>) -> bool {
    &&& path.len() > 0
    &&& forall|i: int|
        0 <= i < path.len() - 1 ==> is_group(entries, #[trigger] path[i]) && lookup(
            entries,
            path[i],
        )->0.all.contains(path[i + 1])
}

/// A path through groups leads from `group` to `name`.
pub open spec fn reachable(group: Seq<char>, entries: Entries, name: Seq<char>) -> bool {
    exists|path: Seq<Seq<char>>|
        #[trigger] is_path(entries, path) && path.first() == group && path.last() == name
}

/// How often `name` stands in `list`.
pub open spec fn occurrences(list: Seq<Seq<char>>, name: Seq<char>) -> nat
    decreases list.len(),
{
    if list.len() == 0 {
        0
    } else if list.last() == name {
        occurrences(list.drop_last(), name) + 1
    } else {
        occurrences(list.drop_last(), name)
    }
}

/// How often `member` is a member of the entries of `list` that `chosen` accepts, each of them
/// counted once.
pub open spec fn memberships(
    list: Entries,
    chosen: spec_fn(Seq<char>) -> bool,
    member: Seq<char>,
) -> nat
    decreases list.len(),
{
    if list.len() == 0 {
        0
    } else if chosen(list.last().0) {
        memberships(list.drop_last(), chosen, member) + occurrences(list.last().1.all, member)
    } else {
        memberships(list.drop_last(), chosen, member)
    }
}

/// What a member of a group leads to, the group leads to.
proof fn lemma_reachable_through(
    group: Seq<char>,
    entries: Entries,
    member: Seq<char>,
    name: Seq<char>,
)
    requires
        is_group(entries, group),
        lookup(entries, group)->0.all.contains(member),
        reachable(member, entries, name),
    ensures
        reachable(group, entries, name),
{
    let path = choose|path: Seq<Seq<char>>|
        #[trigger] is_path(entries, path) && path.first() == member && path.last() == name;
    let longer = seq![group] + path;
    assert forall|i: int| 0 <= i < longer.len() - 1 implies is_group(entries, #[trigger] longer[i])
        && lookup(entries, longer[i])->0.all.contains(longer[i + 1]) by {
        if i > 0 {
            assert(longer[i] == path[i - 1]);
            assert(longer[i + 1] == path[i]);
        }
    }
    assert(is_path(entries, longer));
    assert(longer.first() == group && longer.last() == name);
}

/// A walk asks only names that it can reach.
proof fn lemma_seen_is_reachable(
    name: Seq<char>,
    entries: Entries,
    seen: Set<Seq<char>>,
    asked: Seq<char>,
)
    requires
        walk_from(name, entries, seen).seen.contains(asked),
        !seen.contains(asked),
    ensures
        reachable(name, entries, asked),
    decreases unseen(entries, seen), 0nat,
{
    if asked == name {
        let path = seq![name];
        assert(is_path(entries, path));
        assert(path.first() == name && path.last() == name);
    } else if is_group(entries, name) {
        let all = lookup(entries, name)->0.all;
        lemma_unseen_insert(entries, seen, name);
        lemma_seen_through_members(all, entries, seen.insert(name), asked);
        let i = choose|i: int|
            0 <= i < all.len() && reachable(#[trigger] all[i], entries, asked);
        lemma_reachable_through(name, entries, all[i], asked);
    }
}

proof fn lemma_seen_through_members(
    members: Seq<Seq<char>>,
    entries: Entries,
    seen: Set<Seq<char>>,
    asked: Seq<char>,
)
    requires
        walk_members(members, entries, seen).seen.contains(asked),
        !seen.contains(asked),
    ensures
        exists|i: int| 0 <= i < members.len() && reachable(#[trigger] members[i], entries, asked),
    decreases unseen(entries, seen), members.len() + 1,
{
    if members.len() > 0 {
        let front = members.drop_last();
        let before = walk_members(front, entries, seen);
        if before.seen.contains(asked) {
            lemma_seen_through_members(front, entries, seen, asked);
            let i = choose|i: int|
                0 <= i < front.len() && reachable(#[trigger] front[i], entries, asked);
            assert(members[i] == front[i]);
        } else {
            lemma_unseen_union(entries, seen, before.seen);
            lemma_seen_is_reachable(members.last(), entries, seen.union(before.seen), asked);
            assert(members[members.len() - 1] == members.last());
        }
    }
}

/// A walk through members asks each that is a group.
proof fn lemma_member_asked(
    members: Seq<Seq<char>>,
    entries: Entries,
    seen: Set<Seq<char>>,
    at: int,
)
    requires
        0 <= at < members.len(),
        is_group(entries, members[at]),
    ensures
        walk_members(members, entries, seen).seen.contains(members[at]),
    decreases members.len(),
{
    let front = members.drop_last();
    let before = walk_members(front, entries, seen);
    if at < front.len() {
        lemma_member_asked(front, entries, seen, at);
    }
    if is_group(entries, members.last()) {
        lemma_unseen_union(entries, seen, before.seen);
        lemma_walk_grows(members.last(), entries, seen.union(before.seen));
    }
}

/// A walk through members meets each that is no group.
proof fn lemma_member_met(
    members: Seq<Seq<char>>,
    entries: Entries,
    seen: Set<Seq<char>>,
    at: int,
)
    requires
        0 <= at < members.len(),
        !is_group(entries, members[at]),
    ensures
        walk_members(members, entries, seen).nodes.contains(members[at]),
    decreases members.len(),
{
    let walk = walk_members(members, entries, seen);
    let front = members.drop_last();
    let before = walk_members(front, entries, seen);
    if at < front.len() {
        lemma_member_met(front, entries, seen, at);
        let i = choose|i: int| 0 <= i < before.nodes.len() && before.nodes[i] == front[at];
        assert(walk.nodes[i] == members[at]);
    } else {
        assert(walk.nodes.last() == members[at]);
    }
}

/// Of each group that a walk asks, it asks the members that are groups and meets the others.
proof fn lemma_walk_is_complete(
    name: Seq<char>,
    entries: Entries,
    seen: Set<Seq<char>>,
    group: Seq<char>,
    member: Seq<char>,
)
    requires
        walk_from(name, entries, seen).seen.contains(group),
        !seen.contains(group),
        is_group(entries, group),
        lookup(entries, group)->0.all.contains(member),
    ensures
        is_group(entries, member) ==> walk_from(name, entries, seen).seen.contains(member),
        !is_group(entries, member) ==> walk_from(name, entries, seen).nodes.contains(member),
    decreases unseen(entries, seen), 0nat,
{
    if is_group(entries, name) {
        let all = lookup(entries, name)->0.all;
        lemma_unseen_insert(entries, seen, name);
        if group == name {
            let at = choose|i: int| 0 <= i < all.len() && all[i] == member;
            if is_group(entries, member) {
                lemma_member_asked(all, entries, seen.insert(name), at);
            } else {
                lemma_member_met(all, entries, seen.insert(name), at);
            }
        } else {
            lemma_members_are_complete(all, entries, seen.insert(name), group, member);
        }
    }
}

proof fn lemma_members_are_complete(
    members: Seq<Seq<char>>,
    entries: Entries,
    seen: Set<Seq<char>>,
    group: Seq<char>,
    member: Seq<char>,
)
    requires
        walk_members(members, entries, seen).seen.contains(group),
        !seen.contains(group),
        is_group(entries, group),
        lookup(entries, group)->0.all.contains(member),
    ensures
        is_group(entries, member) ==> walk_members(members, entries, seen).seen.contains(member),
        !is_group(entries, member) ==> walk_members(members, entries, seen).nodes.contains(member),
    decreases unseen(entries, seen), members.len() + 1,
{
    if members.len() > 0 {
        let walk = walk_members(members, entries, seen);
        let last = members.last();
        let before = walk_members(members.drop_last(), entries, seen);
        let inner = walk_from(last, entries, seen.union(before.seen));
        lemma_unseen_union(entries, seen, before.seen);
        lemma_walk_grows(last, entries, seen.union(before.seen));
        if before.seen.contains(group) {
            lemma_members_are_complete(members.drop_last(), entries, seen, group, member);
            if !is_group(entries, member) {
                let i = choose|i: int| 0 <= i < before.nodes.len() && before.nodes[i] == member;
                assert(walk.nodes[i] == member);
            }
        } else {
            lemma_walk_is_complete(last, entries, seen.union(before.seen), group, member);
            if !is_group(entries, member) {
                let i = choose|i: int| 0 <= i < inner.nodes.len() && inner.nodes[i] == member;
                assert(walk.nodes[before.nodes.len() + i] == member);
            }
        }
    }
}

/// The walk from a group asks every group that the group leads to.
proof fn lemma_reachable_is_seen(group: Seq<char>, entries: Entries, path: Seq<Seq<char>>)
    requires
        is_group(entries, group),
        is_path(entries, path),
        path.first() == group,
        is_group(entries, path.last()),
    ensures
        walk_from(group, entries, Set::empty()).seen.contains(path.last()),
    decreases path.len(),
{
    if path.len() == 1 {
        lemma_walk_grows(group, entries, Set::empty());
    } else {
        let front = path.drop_last();
        let last = front.len() - 1;
        assert(front.last() == path[last]);
        assert(is_path(entries, front)) by {
            assert forall|i: int| 0 <= i < front.len() - 1 implies is_group(
                entries,
                #[trigger] front[i],
            ) && lookup(entries, front[i])->0.all.contains(front[i + 1]) by {
                assert(front[i] == path[i]);
                assert(front[i + 1] == path[i + 1]);
            }
        }
        lemma_reachable_is_seen(group, entries, front);
        assert(path[last + 1] == path.last());
        lemma_walk_is_complete(group, entries, Set::empty(), front.last(), path.last());
    }
}

/// Every member of every group that a group leads to is among the nodes of the group, if it is
/// a node and not the one that rejects.
pub proof fn leaves_hold_members_of_reachable_groups(
    group: Seq<char>,
    entries: Entries,
    inner: Seq<char>,
    member: Seq<char>,
)
    requires
        reachable(group, entries, inner),
        is_group(entries, inner),
        lookup(entries, inner)->0.all.contains(member),
        !is_group(entries, member),
        member != "REJECT"@,
    ensures
        leaf_nodes(group, entries).contains(member),
{
    let walk = walk_from(group, entries, Set::empty());
    let path = choose|path: Seq<Seq<char>>|
        #[trigger] is_path(entries, path) && path.first() == group && path.last() == inner;
    if path.len() > 1 {
        assert(is_group(entries, path[0]));
    }
    lemma_reachable_is_seen(group, entries, path);
    lemma_walk_is_complete(group, entries, Set::empty(), inner, member);
    let i = choose|i: int| 0 <= i < walk.nodes.len() && walk.nodes[i] == member;
    walk.nodes.lemma_filter_contains(|name: Seq<char>| name != "REJECT"@, i);
}

/// Every member of a group that is a node, but for the one that rejects, is among the nodes
/// of the group.
pub proof fn leaves_hold_direct_members(group: Seq<char>, entries: Entries, member: Seq<char>)
    requires
        is_group(entries, group),
        lookup(entries, group)->0.all.contains(member),
        !is_group(entries, member),
        member != "REJECT"@,
    ensures
        leaf_nodes(group, entries).contains(member),
{
    let path = seq![group];
    assert(is_path(entries, path));
    assert(path.first() == group && path.last() == group);
    leaves_hold_members_of_reachable_groups(group, entries, group, member);
}

proof fn lemma_occurrences_add(left: Seq<Seq<char>>, right: Seq<Seq<char>>, name: Seq<char>)
    ensures
        occurrences(left + right, name) == occurrences(left, name) + occurrences(right, name),
    decreases right.len(),
{
    if right.len() == 0 {
        assert(left + right =~= left);
    } else {
        assert((left + right).drop_last() =~= left + right.drop_last());
        lemma_occurrences_add(left, right.drop_last(), name);
    }
}

proof fn lemma_memberships_split(
    list: Entries,
    whole: Set<Seq<char>>,
    part: Set<Seq<char>>,
    rest: Set<Seq<char>>,
    member: Seq<char>,
)
    requires
        forall|name: Seq<char>| #[trigger]
            whole.contains(name) == (part.contains(name) || rest.contains(name)),
        forall|name: Seq<char>| !(#[trigger] part.contains(name) && rest.contains(name)),
    ensures
        memberships(list, |name: Seq<char>| whole.contains(name), member) == memberships(
            list,
            |name: Seq<char>| part.contains(name),
            member,
        ) + memberships(list, |name: Seq<char>| rest.contains(name), member),
    decreases list.len(),
{
    if list.len() > 0 {
        lemma_memberships_split(list.drop_last(), whole, part, rest, member);
        let name = list.last().0;
        assert(whole.contains(name) == (part.contains(name) || rest.contains(name)));
        assert(!(part.contains(name) && rest.contains(name)));
    }
}

proof fn lemma_memberships_none(list: Entries, chosen: Set<Seq<char>>, member: Seq<char>)
    requires
        forall|i: int| 0 <= i < list.len() ==> !chosen.contains((#[trigger] list[i]).0),
    ensures
        memberships(list, |name: Seq<char>| chosen.contains(name), member) == 0,
    decreases list.len(),
{
    if list.len() > 0 {
        let front = list.drop_last();
        assert forall|i: int| 0 <= i < front.len() implies !chosen.contains(
            (#[trigger] front[i]).0,
        ) by {
            assert(front[i] == list[i]);
        }
        lemma_memberships_none(front, chosen, member);
        assert(!chosen.contains(list[list.len() - 1].0));
    }
}

/// The memberships in one entry are the occurrences among its members.
proof fn lemma_memberships_of_one(list: Entries, name: Seq<char>, member: Seq<char>, at: int)
    requires
        unique_keys(list),
        0 <= at < list.len(),
        list[at].0 == name,
    ensures
        memberships(list, |other: Seq<char>| set![name].contains(other), member) == occurrences(
            list[at].1.all,
            member,
        ),
    decreases list.len(),
{
    let front = list.drop_last();
    let end = list.len() - 1;
    assert forall|i: int, j: int| 0 <= i < j < front.len() implies (#[trigger] front[i]).0 != (
    #[trigger] front[j]).0 by {
        assert(front[i] == list[i]);
        assert(front[j] == list[j]);
    }
    if at < end {
        assert(front[at] == list[at]);
        lemma_memberships_of_one(front, name, member, at);
        assert(list[at].0 != list[end].0);
    } else {
        assert forall|i: int| 0 <= i < front.len() implies !set![name].contains(
            (#[trigger] front[i]).0,
        ) by {
            assert(front[i] == list[i]);
            assert(list[i].0 != list[end].0);
        }
        lemma_memberships_none(front, set![name], member);
    }
}

/// A walk from a group meets a node as often as it is a member of the groups that the walk
/// asks.
proof fn lemma_walk_counts(
    name: Seq<char>,
    entries: Entries,
    seen: Set<Seq<char>>,
    member: Seq<char>,
)
    requires
        unique_keys(entries),
        is_group(entries, name),
        !is_group(entries, member),
    ensures
        ({
            let walk = walk_from(name, entries, seen);
            let asked = walk.seen.difference(seen);
            occurrences(walk.nodes, member) == memberships(
                entries,
                |other: Seq<char>| asked.contains(other),
                member,
            )
        }),
    decreases unseen(entries, seen), 0nat,
{
    let walk = walk_from(name, entries, seen);
    let asked = walk.seen.difference(seen);
    if seen.contains(name) {
        lemma_memberships_none(entries, asked, member);
    } else {
        let all = lookup(entries, name)->0.all;
        let now = seen.insert(name);
        lemma_unseen_insert(entries, seen, name);
        lemma_members_count(all, entries, now, member);
        lemma_walk_grows(name, entries, seen);
        lemma_lookup_absent(entries, name);
        let at = choose|i: int| 0 <= i < entries.len() && (#[trigger] entries[i]).0 == name;
        assert forall|i: int| 0 <= i < at implies (#[trigger] entries[i]).0 != name by {
            assert(entries[i].0 != entries[at].0);
        }
        lemma_lookup_at(entries, name, at);
        lemma_memberships_of_one(entries, name, member, at);
        lemma_memberships_split(
            entries,
            asked,
            set![name],
            walk.seen.difference(now),
            member,
        );
    }
}

proof fn lemma_members_count(
    members: Seq<Seq<char>>,
    entries: Entries,
    seen: Set<Seq<char>>,
    member: Seq<char>,
)
    requires
        unique_keys(entries),
        !is_group(entries, member),
    ensures
        ({
            let walk = walk_members(members, entries, seen);
            let asked = walk.seen.difference(seen);
            occurrences(walk.nodes, member) == occurrences(members, member) + memberships(
                entries,
                |other: Seq<char>| asked.contains(other),
                member,
            )
        }),
    decreases unseen(entries, seen), members.len() + 1,
{
    let walk = walk_members(members, entries, seen);
    let asked = walk.seen.difference(seen);
    if members.len() == 0 {
        lemma_memberships_none(entries, asked, member);
    } else {
        let front = members.drop_last();
        let last = members.last();
        let before = walk_members(front, entries, seen);
        lemma_members_count(front, entries, seen, member);
        lemma_members_grow(front, entries, seen);
        if is_group(entries, last) {
            let inner = walk_from(last, entries, seen.union(before.seen));
            lemma_unseen_union(entries, seen, before.seen);
            lemma_walk_grows(last, entries, seen.union(before.seen));
            lemma_walk_counts(last, entries, seen.union(before.seen), member);
            lemma_occurrences_add(before.nodes, inner.nodes, member);
            lemma_memberships_split(
                entries,
                asked,
                before.seen.difference(seen),
                inner.seen.difference(seen.union(before.seen)),
                member,
            );
        } else {
            assert(walk.nodes.drop_last() =~= before.nodes);
        }
    }
}

/// Which entries count does not depend on those without members.
proof fn lemma_memberships_alike(
    list: Entries,
    left: spec_fn(Seq<char>) -> bool,
    right: spec_fn(Seq<char>) -> bool,
    member: Seq<char>,
)
    requires
        forall|i: int|
            0 <= i < list.len() && (#[trigger] list[i]).1.all.len() > 0 ==> left(list[i].0)
                == right(list[i].0),
    ensures
        memberships(list, left, member) == memberships(list, right, member),
    decreases list.len(),
{
    if list.len() > 0 {
        let front = list.drop_last();
        assert forall|i: int| 0 <= i < front.len() && (#[trigger] front[i]).1.all.len() > 0 implies
            left(front[i].0) == right(front[i].0) by {
            assert(front[i] == list[i]);
        }
        lemma_memberships_alike(front, left, right, member);
        let end = list[list.len() - 1];
        assert(end.1.all.len() > 0 ==> left(end.0) == right(end.0));
    }
}

proof fn lemma_occurrences_filtered(
    list: Seq<Seq<char>>,
    keep: spec_fn(Seq<char>) -> bool,
    name: Seq<char>,
)
    requires
        keep(name),
    ensures
        occurrences(list.filter(keep), name) == occurrences(list, name),
    decreases list.len(),
{
    reveal(Seq::filter);
    if list.len() > 0 {
        let front = list.drop_last();
        lemma_occurrences_filtered(front, keep, name);
        assert(front.filter(keep).push(list.last()).drop_last() =~= front.filter(keep));
    }
}

/// A node other than the one that rejects stands among the nodes of a group as often as it is a
/// member of the groups that the group leads to, the group itself among them, each of them
/// counted once.
pub proof fn leaves_count_each_group_once(
    group: Seq<char>,
    entries: Entries,
    member: Seq<char>,
)
    requires
        unique_keys(entries),
        is_group(entries, group),
        !is_group(entries, member),
        member != "REJECT"@,
    ensures
        occurrences(leaf_nodes(group, entries), member) == memberships(
            entries,
            |name: Seq<char>| reachable(group, entries, name),
            member,
        ),
{
    let none = Set::<Seq<char>>::empty();
    let walk = walk_from(group, entries, none);
    let asked = walk.seen.difference(none);
    let seen = |name: Seq<char>| asked.contains(name);
    let reached = |name: Seq<char>| reachable(group, entries, name);
    lemma_walk_counts(group, entries, none, member);
    lemma_occurrences_filtered(walk.nodes, |name: Seq<char>| name != "REJECT"@, member);
    assert forall|i: int|
        0 <= i < entries.len() && (#[trigger] entries[i]).1.all.len() > 0 implies seen(entries[i].0)
        == reached(entries[i].0) by {
        let name = entries[i].0;
        assert forall|k: int| 0 <= k < i implies (#[trigger] entries[k]).0 != name by {
            assert(entries[k].0 != entries[i].0);
        }
        lemma_lookup_at(entries, name, i);
        if asked.contains(name) {
            lemma_seen_is_reachable(group, entries, none, name);
        }
        if reachable(group, entries, name) {
            let path = choose|path: Seq<Seq<char>>|
                #[trigger] is_path(entries, path) && path.first() == group && path.last() == name;
            lemma_reachable_is_seen(group, entries, path);
        }
    }
    lemma_memberships_alike(entries, seen, reached, member);
}

/// A name that is no group is its own only node, unless it is the one that rejects.
pub proof fn node_is_its_own_leaf(name: Seq<char>, entries: Entries)
    requires
        !is_group(entries, name),
    ensures
        leaf_nodes(name, entries) == (if name == "REJECT"@ {
            Seq::empty()
        } else {
            seq![name]
        }),
{
    reveal_with_fuel(Seq::filter, 2);
    assert(seq![name].drop_last() =~= Seq::<Seq<char>>::empty());
}

/// Walks from a name through the groups below it and adds the nodes that it meets.
fn collect_leaf_nodes(
    name: &str,
    proxies: &ProxyMap,
    seen: &mut StringHashSet,
    nodes: &mut Vec<String>,
)
    ensures
        final(seen)@ == walk_from(name@, proxies@, old(seen)@).seen,
        texts(final(nodes)@) == texts(old(nodes)@) + walk_from(name@, proxies@, old(seen)@).nodes,
    decreases unseen(proxies@, old(seen)@),
{
    let ghost before = texts(nodes@);
    let ghost start = seen@;
    if !seen.insert(name.to_owned()) {
        assert(seen@ =~= start);
        assert(before + Seq::<Seq<char>>::empty() =~= before);
        return;
    }
    if !proxies.has_group(name) {
        nodes.push(name.to_owned());
        assert(texts(nodes@) =~= before + seq![name@]);
        return;
    }
    let proxy = match proxies.get(name) {
        Some(proxy) => proxy,
        None => {
            return;
        },
    };
    let ghost members = proxy@.all;
    let ghost inside = start.insert(name@);
    proof {
        lemma_unseen_insert(proxies@, start, name@);
        assert(members.take(0) =~= Seq::<Seq<char>>::empty());
        assert(before + Seq::<Seq<char>>::empty() =~= before);
    }
    let mut i: usize = 0;
    while i < proxy.all.len()
        invariant
            i <= proxy.all@.len(),
            members == proxy@.all,
            inside == start.insert(name@),
            start == old(seen)@,
            unseen(proxies@, inside) < unseen(proxies@, old(seen)@),
            seen@ == walk_members(members.take(i as int), proxies@, inside).seen,
            texts(nodes@) == before + walk_members(members.take(i as int), proxies@, inside).nodes,
        decreases proxy.all@.len() - i,
    {
        let child = &proxy.all[i];
        let ghost walked = walk_members(members.take(i as int), proxies@, inside);
        let ghost listed = texts(nodes@);
        proof {
            assert(members.take(i + 1).drop_last() == members.take(i as int));
            assert(members.take(i + 1).last() == child@);
            lemma_members_grow(members.take(i as int), proxies@, inside);
            assert(inside.union(walked.seen) =~= walked.seen);
            lemma_unseen_union(proxies@, inside, walked.seen);
        }
        if proxies.has_group(child.as_str()) {
            collect_leaf_nodes(child.as_str(), proxies, seen, nodes);
            assert(texts(nodes@) =~= before + (walked.nodes + walk_from(
                child@,
                proxies@,
                walked.seen,
            ).nodes));
        } else {
            nodes.push(child.clone());
            assert(texts(nodes@) =~= listed.push(child@));
            assert(texts(nodes@) =~= before + walked.nodes.push(child@));
        }
        i += 1;
    }
    assert(members.take(i as int) == members);
}

/// The nodes of a group and of the groups in it, in the order in which they are met. The names
/// of the proxies differ, so each group is met once.
pub fn leaf_nodes_for_group(group: &str, proxies: &ProxyMap) -> (leaves: Vec<String>)
    ensures
        texts(leaves@) == leaf_nodes(group@, proxies@),
        unique_keys(proxies@),
{
    proof {
        use_type_invariant(proxies);
    }
    let mut seen = StringHashSet::new();
    let mut nodes: Vec<String> = Vec::new();
    collect_leaf_nodes(group, proxies, &mut seen, &mut nodes);
    let ghost all = walk_from(group@, proxies@, Set::empty()).nodes;
    assert(texts(nodes@) =~= all);
    without(&nodes, "REJECT")
}

/// The characters of each text of a list of borrowed texts.
pub open spec fn str_texts(list: Seq<&str>) -> Seq<Seq<char>> {
    list.map_values(|text: &str| text@)
}

/// The selector that a name, a selection and members make; an empty selection is none.
pub open spec fn pair_proxy(pair: (&str, &str, &[&str])) -> ProxyView {
    ProxyView {
        name: pair.0@,
        proxy_type: "Selector"@,
        now: if pair.1@.len() == 0 {
            None
        } else {
            Some(pair.1@)
        },
        all: str_texts(pair.2@),
    }
}

/// Selectors under their names, of which the last with a name stays.
pub open spec fn pair_entries(pairs: Seq<(&str, &str, &[&str])>) -> Entries
    decreases pairs.len(),
{
    if pairs.len() == 0 {
        Seq::empty()
    } else {
        inserted(pair_entries(pairs.drop_last()), pairs.last().0@, pair_proxy(pairs.last()))
    }
}

/// Owned copies of borrowed texts.
fn owned_texts(list: &[&str]) -> (owned: Vec<String>)
    ensures
        texts(owned@) == str_texts(list@),
{
    let mut owned: Vec<String> = Vec::new();
    let mut i: usize = 0;
    while i < list.len()
        invariant
            i <= list@.len(),
            owned@.len() == i,
            forall|k: int| 0 <= k < i ==> (#[trigger] owned@[k])@ == list@[k]@,
        decreases list@.len() - i,
    {
        owned.push(list[i].to_owned());
        i += 1;
    }
    assert(texts(owned@) =~= str_texts(list@));
    owned
}

/// Selectors from their names, selections and members.
pub fn proxies_from_pairs(pairs: &[(&str, &str, &[&str])]) -> (proxies: ProxyMap)
    ensures
        proxies@ == pair_entries(pairs@),
{
    let mut proxies = ProxyMap::new();
    let mut i: usize = 0;
    while i < pairs.len()
        invariant
            i <= pairs@.len(),
            proxies@ == pair_entries(pairs@.take(i as int)),
        decreases pairs@.len() - i,
    {
        proof {
            assert(pairs@.take(i + 1).drop_last() == pairs@.take(i as int));
            assert(pairs@.take(i + 1).last() == pairs@[i as int]);
        }
        let (name, now, all) = pairs[i];
        let now = if now.is_empty() {
            None
        } else {
            Some(now.to_owned())
        };
        let proxy = Proxy {
            name: name.to_owned(),
            proxy_type: "Selector".to_owned(),
            now,
            all: owned_texts(all),
        };
        assert(proxy@ =~= pair_proxy(pairs@[i as int]));
        proxies.insert(name.to_owned(), proxy);
        i += 1;
    }
    assert(pairs@.take(i as int) == pairs@);
    proxies
}

/// The texts among some JSON values, in their order.
pub open spec fn texts_among(items: Seq<JsonView>) -> Seq<Seq<char>>
    decreases items.len(),
{
    if items.len() == 0 {
        Seq::empty()
    } else {
        let before = texts_among(items.drop_last());
        match items.last() {
            JsonView::Text(text) => before.push(text),
            _ => before,
        }
    }
}

/// The proxy that the controller describes under a name. What is missing or of another kind is
/// left empty.
pub open spec fn described_proxy(name: Seq<char>, json: JsonView) -> ProxyView {
    ProxyView {
        name,
        proxy_type: match json.text_at("type"@) {
            Some(text) => text,
            None => Seq::empty(),
        },
        now: json.text_at("now"@),
        all: match json.member("all"@) {
            Some(JsonView::Array(items)) => texts_among(items),
            _ => Seq::empty(),
        },
    }
}

/// The proxies that the controller describes, under their names.
pub open spec fn described_entries(members: Seq<(Seq<char>, JsonView)>) -> Entries
    decreases members.len(),
{
    if members.len() == 0 {
        Seq::empty()
    } else {
        let last = members.last();
        inserted(
            described_entries(members.drop_last()),
            last.0,
            described_proxy(last.0, last.1),
        )
    }
}

/// The texts among some JSON values.
fn collect_texts(items: &Vec<Json>) -> (list: Vec<String>)
    ensures
        texts(list@) == texts_among(json_items(items@)),
{
    let ghost all = json_items(items@);
    let mut list: Vec<String> = Vec::new();
    let mut i: usize = 0;
    assert(texts(list@) =~= texts_among(all.take(0)));
    while i < items.len()
        invariant
            i <= items@.len(),
            all == json_items(items@),
            texts(list@) == texts_among(all.take(i as int)),
        decreases items@.len() - i,
    {
        let ghost before = texts(list@);
        proof {
            assert(all.take(i + 1).drop_last() == all.take(i as int));
            assert(all.take(i + 1).last() == items@[i as int]@);
        }
        if let Json::Text(text) = &items[i] {
            list.push(text.clone());
            assert(texts(list@) =~= before.push(text@));
        }
        i += 1;
    }
    assert(all.take(i as int) == all);
    list
}

/// The proxy that the controller describes under a name.
fn proxy_from_json(name: &str, json: &Json) -> (proxy: Proxy)
    ensures
        proxy@ == described_proxy(name@, json@),
{
    let proxy_type = match json.text_at("type") {
        Some(text) => text.to_owned(),
        None => String::new(),
    };
    let now = match json.text_at("now") {
        Some(text) => Some(text.to_owned()),
        None => None,
    };
    let all = match json.get("all") {
        Some(Json::Array(items)) => collect_texts(items),
        _ => Vec::new(),
    };
    let proxy = Proxy { name: name.to_owned(), proxy_type, now, all };
    assert(proxy@ =~= described_proxy(name@, json@));
    proxy
}

/// The proxies in the controller's answer.
pub fn parse_proxies(value: Json) -> (result: Result<ProxyMap, ControllerError>)
    ensures
        match result {
            Ok(proxies) => match value@.member("proxies"@) {
                Some(JsonView::Object(members)) => proxies@ == described_entries(members),
                _ => false,
            },
            Err(error) => error is MissingProxies && !(value@.member("proxies"@) matches Some(
                JsonView::Object(_),
            )),
        },
{
    match value.get("proxies") {
        Some(Json::Object(members)) => {
            let ghost all = json_members(members@);
            let mut proxies = ProxyMap::new();
            let mut i: usize = 0;
            while i < members.len()
                invariant
                    i <= members@.len(),
                    all == json_members(members@),
                    proxies@ == described_entries(all.take(i as int)),
                decreases members@.len() - i,
            {
                proof {
                    assert(all.take(i + 1).drop_last() == all.take(i as int));
                    assert(all.take(i + 1).last() == (
                        members@[i as int].0@,
                        members@[i as int].1@,
                    ));
                }
                let name = &members[i].0;
                let proxy = proxy_from_json(name.as_str(), &members[i].1);
                proxies.insert(name.clone(), proxy);
                i += 1;
            }
            assert(all.take(i as int) == all);
            Ok(proxies)
        },
        _ => Err(ControllerError::MissingProxies),
    }
}

/// Under a name stands the proxy of the entry with that name, and nothing where there is no such
/// entry.
pub proof fn lookup_finds_the_entry(entries: Entries, name: Seq<char>, proxy: ProxyView)
    requires
        unique_keys(entries),
    ensures
        lookup(entries, name) == Some(proxy) <==> entries.contains((name, proxy)),
        lookup(entries, name) is None <==> !keys(entries).contains(name),
{
    lemma_lookup_absent(entries, name);
    if keys(entries).contains(name) {
        let at = choose|i: int| 0 <= i < keys(entries).len() && keys(entries)[i] == name;
        assert(entries[at].0 == name);
    }
    if lookup(entries, name) is Some {
        let at = choose|i: int| 0 <= i < entries.len() && (#[trigger] entries[i]).0 == name;
        lemma_lookup_of_unique(entries, at);
        assert(keys(entries)[at] == name);
        if lookup(entries, name) == Some(proxy) {
            assert(entries[at] == (name, proxy));
        }
    }
    if entries.contains((name, proxy)) {
        let at = choose|i: int| 0 <= i < entries.len() && entries[i] == (name, proxy);
        assert(entries[at].0 == name);
        lemma_lookup_of_unique(entries, at);
    }
}

proof fn lemma_lookup_of_unique(entries: Entries, at: int)
    requires
        unique_keys(entries),
        0 <= at < entries.len(),
    ensures
        lookup(entries, entries[at].0) == Some(entries[at].1),
{
    assert forall|i: int| 0 <= i < at implies (#[trigger] entries[i]).0 != entries[at].0 by {
        assert(entries[i].0 != entries[at].0);
    }
    lemma_lookup_at(entries, entries[at].0, at);
}

/// A proxy is a group where its entry has members, whatever its type and its selection are.
pub proof fn groups_are_proxies_with_members(entries: Entries, at: int)
    requires
        unique_keys(entries),
        0 <= at < entries.len(),
    ensures
        is_group(entries, entries[at].0) <==> entries[at].1.all.len() > 0,
{
    lemma_lookup_of_unique(entries, at);
}

/// `name` has selected `now`.
pub open spec fn selects(entries: Entries, name: Seq<char>, now: Seq<char>) -> bool {
    exists|proxy: ProxyView|
        #[trigger] entries.contains((name, proxy)) && proxy.now == Some(now)
}

proof fn lemma_selects(entries: Entries, name: Seq<char>, now: Seq<char>)
    requires
        unique_keys(entries),
    ensures
        selects(entries, name, now) <==> (lookup(entries, name) matches Some(proxy) && proxy.now
            == Some(now)),
{
    if selects(entries, name, now) {
        let proxy = choose|proxy: ProxyView|
            #[trigger] entries.contains((name, proxy)) && proxy.now == Some(now);
        lookup_finds_the_entry(entries, name, proxy);
    }
    if let Some(proxy) = lookup(entries, name) {
        lookup_finds_the_entry(entries, name, proxy);
    }
}

/// A chain of selections: each name but the last has selected the next, which is a group, and no
/// name comes twice.
pub open spec fn is_chain(entries: Entries, chain: Seq<Seq<char>>) -> bool {
    &&& chain.len() > 0
    &&& chain.no_duplicates()
    &&& forall|i: int|
        0 <= i < chain.len() - 1 ==> selects(entries, #[trigger] chain[i], chain[i + 1])
            && is_group(entries, chain[i + 1])
}

proof fn lemma_chain_rest(entries: Entries, chain: Seq<Seq<char>>)
    requires
        is_chain(entries, chain),
        chain.len() > 1,
    ensures
        is_chain(entries, chain.drop_first()),
        chain.drop_first()[0] == chain[1],
        chain.drop_first().last() == chain.last(),
        !chain.drop_first().contains(chain[0]),
{
    let rest = chain.drop_first();
    assert forall|i: int| 0 <= i < rest.len() - 1 implies selects(
        entries,
        #[trigger] rest[i],
        rest[i + 1],
    ) && is_group(entries, rest[i + 1]) by {
        assert(rest[i] == chain[i + 1]);
        assert(rest[i + 1] == chain[i + 2]);
    }
    assert forall|i: int, j: int| 0 <= i < rest.len() && 0 <= j < rest.len() && i != j implies
        rest[i] != rest[j] by {
        assert(chain[i + 1] != chain[j + 1]);
    }
    if rest.contains(chain[0]) {
        let i = choose|i: int| 0 <= i < rest.len() && rest[i] == chain[0];
        assert(chain[i + 1] == chain[0]);
    }
}

proof fn lemma_chain_is_followed(
    entries: Entries,
    chain: Seq<Seq<char>>,
    node: Seq<char>,
    visited: Set<Seq<char>>,
)
    requires
        unique_keys(entries),
        is_chain(entries, chain),
        selects(entries, chain.last(), node),
        !is_group(entries, node),
        forall|i: int| 0 <= i < chain.len() ==> !visited.contains(#[trigger] chain[i]),
    ensures
        node_from(chain[0], entries, visited) == Some(node),
    decreases chain.len(),
{
    assert(!visited.contains(chain[0]));
    if chain.len() == 1 {
        lemma_selects(entries, chain[0], node);
    } else {
        let rest = chain.drop_first();
        lemma_selects(entries, chain[0], chain[1]);
        lemma_chain_rest(entries, chain);
        assert(selects(entries, chain[0], chain[1]) && is_group(entries, chain[1]));
        assert forall|i: int| 0 <= i < rest.len() implies !visited.insert(chain[0]).contains(
            #[trigger] rest[i],
        ) by {
            assert(rest[i] == chain[i + 1]);
            assert(rest.contains(rest[i]));
        }
        lemma_chain_is_followed(entries, rest, node, visited.insert(chain[0]));
        lemma_unseen_insert(entries, visited, chain[0]);
    }
}

/// The node that a name leads to is the one at the end of the chain of selections that begins at
/// the name: each group in the chain is followed to the next.
pub proof fn node_ends_the_chain(entries: Entries, chain: Seq<Seq<char>>, node: Seq<char>)
    requires
        unique_keys(entries),
        is_chain(entries, chain),
        selects(entries, chain.last(), node),
        !is_group(entries, node),
    ensures
        node_from(chain[0], entries, Set::empty()) == Some(node),
{
    lemma_chain_is_followed(entries, chain, node, Set::empty());
}

proof fn lemma_chain_before(
    entries: Entries,
    name: Seq<char>,
    rest: Seq<Seq<char>>,
    visited: Set<Seq<char>>,
)
    requires
        is_chain(entries, rest),
        selects(entries, name, rest[0]),
        is_group(entries, rest[0]),
        !visited.contains(name),
        forall|i: int|
            0 <= i < rest.len() ==> !visited.insert(name).contains(#[trigger] rest[i]),
    ensures
        is_chain(entries, seq![name] + rest),
        (seq![name] + rest)[0] == name,
        (seq![name] + rest).last() == rest.last(),
        forall|i: int|
            0 <= i < (seq![name] + rest).len() ==> !visited.contains(
                #[trigger] (seq![name] + rest)[i],
            ),
{
    let chain = seq![name] + rest;
    assert forall|i: int| 0 <= i < chain.len() - 1 implies selects(
        entries,
        #[trigger] chain[i],
        chain[i + 1],
    ) && is_group(entries, chain[i + 1]) by {
        if i > 0 {
            assert(chain[i] == rest[i - 1]);
            assert(chain[i + 1] == rest[i]);
        }
    }
    assert forall|i: int, j: int|
        0 <= i < chain.len() && 0 <= j < chain.len() && i != j implies chain[i] != chain[j] by {
        if i == 0 {
            assert(!visited.insert(name).contains(rest[j - 1]));
        } else if j == 0 {
            assert(!visited.insert(name).contains(rest[i - 1]));
        } else {
            assert(rest[i - 1] != rest[j - 1]);
        }
    }
    assert forall|i: int| 0 <= i < chain.len() implies !visited.contains(#[trigger] chain[i]) by {
        if i > 0 {
            assert(!visited.insert(name).contains(rest[i - 1]));
        }
    }
}

proof fn lemma_chain_of_search(
    entries: Entries,
    name: Seq<char>,
    visited: Set<Seq<char>>,
) -> (chain: Seq<Seq<char>>)
    requires
        unique_keys(entries),
        !visited.contains(name),
    ensures
        is_chain(entries, chain),
        chain[0] == name,
        forall|i: int| 0 <= i < chain.len() ==> !visited.contains(#[trigger] chain[i]),
        match node_from(name, entries, visited) {
            Some(node) => selects(entries, chain.last(), node) && !is_group(entries, node),
            None => forall|now: Seq<char>| #[trigger]
                selects(entries, chain.last(), now) ==> is_group(entries, now) && (visited.contains(
                    now,
                ) || chain.contains(now)),
        },
    decreases unseen(entries, visited),
{
    let single = seq![name];
    assert forall|now: Seq<char>| #[trigger] selects(entries, name, now) implies lookup(
        entries,
        name,
    ) matches Some(proxy) && proxy.now == Some(now) by {
        lemma_selects(entries, name, now);
    }
    match lookup(entries, name) {
        Some(proxy) => match proxy.now {
            Some(now) => {
                lemma_selects(entries, name, now);
                if is_group(entries, now) {
                    lemma_unseen_insert(entries, visited, name);
                    let more = visited.insert(name);
                    if more.contains(now) {
                        assert(single[0] == name);
                        assert(single.contains(name));
                        single
                    } else {
                        let rest = lemma_chain_of_search(entries, now, more);
                        lemma_chain_before(entries, name, rest, visited);
                        let chain = seq![name] + rest;
                        if node_from(name, entries, visited) is None {
                            assert forall|then: Seq<char>| #[trigger]
                                selects(entries, chain.last(), then) implies is_group(entries, then)
                                && (visited.contains(then) || chain.contains(then)) by {
                                if rest.contains(then) {
                                    let i = choose|i: int| 0 <= i < rest.len() && rest[i] == then;
                                    assert(chain[i + 1] == then);
                                } else {
                                    assert(chain[0] == name);
                                }
                            }
                        }
                        chain
                    }
                } else {
                    single
                }
            },
            None => single,
        },
        None => single,
    }
}

/// A name leads to no node only where a chain of selections from it ends: at a name that has
/// nothing selected, or at one that has selected a group of the chain again. Where it leads to a
/// node, the last name of such a chain has selected the node.
pub proof fn search_follows_a_chain(entries: Entries, name: Seq<char>)
    requires
        unique_keys(entries),
    ensures
        exists|chain: Seq<Seq<char>>|
            {
                &&& #[trigger] is_chain(entries, chain)
                &&& chain[0] == name
                &&& match node_from(name, entries, Set::empty()) {
                    Some(node) => selects(entries, chain.last(), node) && !is_group(entries, node),
                    None => forall|now: Seq<char>| #[trigger]
                        selects(entries, chain.last(), now) ==> is_group(entries, now)
                            && chain.contains(now),
                }
            },
{
    let chain = lemma_chain_of_search(entries, name, Set::empty());
    assert(is_chain(entries, chain));
}

/// The group in use is the one that the global group has selected, and the global group itself
/// where that has selected a node. Where it has selected nothing, the default group is in use,
/// else the global group. Without a proxy neither is. What the mode is makes no other difference.
pub proof fn group_in_use_is_selected(mode: ModeView, other: ModeView, entries: Entries)
    requires
        unique_keys(entries),
    ensures
        active(ModeView::Direct, entries) == ("DIRECT"@, "DIRECT"@),
        mode != ModeView::Direct && other != ModeView::Direct ==> active(mode, entries) == active(
            other,
            entries,
        ),
        forall|now: Seq<char>|
            mode != ModeView::Direct && #[trigger] selects(entries, "GLOBAL"@, now) ==> active(
                mode,
                entries,
            ).0 == (if is_group(entries, now) {
                now
            } else {
                "GLOBAL"@
            }) && (!is_group(entries, now) ==> active(mode, entries).1 == now),
        mode != ModeView::Direct && (forall|now: Seq<char>| !#[trigger]
            selects(entries, "GLOBAL"@, now)) ==> match default_group(entries) {
            Some(group) => active(mode, entries).0 == group,
            None => active(mode, entries).0 == "GLOBAL"@,
        },
{
    assert forall|now: Seq<char>| #[trigger] selects(entries, "GLOBAL"@, now) implies global_now(
        entries,
    ) == Some(now) by {
        lemma_selects(entries, "GLOBAL"@, now);
    }
    if let Some(now) = global_now(entries) {
        lemma_selects(entries, "GLOBAL"@, now);
    }
}

/// The node in use is the one at the end of the chain of selections that begins at the group in
/// use.
pub proof fn node_in_use_ends_the_chain(
    mode: ModeView,
    entries: Entries,
    chain: Seq<Seq<char>>,
    node: Seq<char>,
)
    requires
        unique_keys(entries),
        mode != ModeView::Direct,
        is_chain(entries, chain),
        chain[0] == active(mode, entries).0,
        selects(entries, chain.last(), node),
        !is_group(entries, node),
    ensures
        active(mode, entries).1 == node,
{
    node_ends_the_chain(entries, chain, node);
    if let Some(now) = global_now(entries) {
        if !is_group(entries, now) {
            lemma_selects(entries, "GLOBAL"@, now);
            if chain.len() > 1 {
                assert(selects(entries, chain[0], chain[1]) && is_group(entries, chain[1]));
                lemma_selects(entries, "GLOBAL"@, chain[1]);
            } else {
                lemma_selects(entries, "GLOBAL"@, node);
            }
        }
    }
}

/// Where the group in use leads to no node, what the global group has selected stands for the
/// node, and a word for an unknown one where it has selected nothing.
pub proof fn unknown_node_is_named(mode: ModeView, entries: Entries, now: Seq<char>)
    requires
        unique_keys(entries),
        mode != ModeView::Direct,
        node_from(active(mode, entries).0, entries, Set::empty()) is None,
    ensures
        selects(entries, "GLOBAL"@, now) ==> active(mode, entries).1 == now,
        (forall|other: Seq<char>| !#[trigger] selects(entries, "GLOBAL"@, other)) ==> active(
            mode,
            entries,
        ).1 == "未知"@,
{
    lemma_selects(entries, "GLOBAL"@, now);
    if let Some(other) = global_now(entries) {
        lemma_selects(entries, "GLOBAL"@, other);
    }
}

proof fn lemma_first_where(list: Seq<Seq<char>>, accept: spec_fn(Seq<char>) -> bool)
    ensures
        match first_where(list, accept) {
            Some(name) => exists|at: int|
                {
                    &&& 0 <= at < list.len()
                    &&& #[trigger] list[at] == name
                    &&& accept(name)
                    &&& forall|k: int| 0 <= k < at ==> !accept(#[trigger] list[k])
                },
            None => forall|k: int| 0 <= k < list.len() ==> !accept(#[trigger] list[k]),
        },
    decreases list.len(),
{
    if list.len() > 0 && !accept(list[0]) {
        let rest = list.drop_first();
        lemma_first_where(rest, accept);
        match first_where(rest, accept) {
            Some(name) => {
                let at = choose|at: int|
                    {
                        &&& 0 <= at < rest.len()
                        &&& #[trigger] rest[at] == name
                        &&& accept(name)
                        &&& forall|k: int| 0 <= k < at ==> !accept(#[trigger] rest[k])
                    };
                assert(list[at + 1] == name);
                assert forall|k: int| 0 <= k < at + 1 implies !accept(#[trigger] list[k]) by {
                    if k > 0 {
                        assert(list[k] == rest[k - 1]);
                    }
                }
            },
            None => {
                assert forall|k: int| 0 <= k < list.len() implies !accept(#[trigger] list[k]) by {
                    if k > 0 {
                        assert(list[k] == rest[k - 1]);
                    }
                }
            },
        }
    }
}

/// The default group is the one for manual selection wherever that is there.
pub proof fn manual_group_comes_first(entries: Entries)
    requires
        keys(entries).contains("🔰 手动选择"@),
    ensures
        default_group(entries) == Some("🔰 手动选择"@),
{
    let at = choose|i: int| 0 <= i < keys(entries).len() && keys(entries)[i] == "🔰 手动选择"@;
    assert(entries[at].0 == "🔰 手动选择"@);
    lemma_lookup_absent(entries, "🔰 手动选择"@);
}

/// Where the group for manual selection is not there, the default group is the first whose name
/// says that it is one.
pub proof fn marked_group_comes_next(entries: Entries, at: int)
    requires
        !keys(entries).contains("🔰 手动选择"@),
        0 <= at < entries.len(),
        contains_text(entries[at].0, "手动选择"@),
        forall|k: int| 0 <= k < at ==> !contains_text((#[trigger] entries[k]).0, "手动选择"@),
    ensures
        default_group(entries) == Some(entries[at].0),
{
    let marked = |name: Seq<char>| contains_text(name, MANUAL_MARK@);
    let names = keys(entries);
    lemma_lookup_absent(entries, "🔰 手动选择"@);
    assert forall|i: int| 0 <= i < entries.len() implies (#[trigger] entries[i]).0
        != "🔰 手动选择"@ by {
        assert(names[i] == entries[i].0);
    }
    lemma_first_where(names, marked);
    assert(marked(names[at]));
    match first_where(names, marked) {
        Some(name) => {
            let found = choose|i: int|
                {
                    &&& 0 <= i < names.len()
                    &&& #[trigger] names[i] == name
                    &&& marked(name)
                    &&& forall|k: int| 0 <= k < i ==> !marked(#[trigger] names[k])
                };
            if found < at {
                assert(!contains_text(entries[found].0, "手动选择"@));
            } else if at < found {
                assert(!marked(names[at]));
            }
        },
        None => {},
    }
}

/// Where no name says that it is a group for manual selection, the default group is the first
/// group among the members of the global group. There is none where that has no group in it.
pub proof fn global_member_comes_last(entries: Entries, global: ProxyView, at: int)
    requires
        unique_keys(entries),
        !keys(entries).contains("🔰 手动选择"@),
        forall|k: int| 0 <= k < entries.len() ==> !contains_text(
            (#[trigger] entries[k]).0,
            "手动选择"@,
        ),
        entries.contains(("GLOBAL"@, global)),
    ensures
        0 <= at < global.all.len() && is_group(entries, global.all[at]) && (forall|k: int|
            0 <= k < at ==> !is_group(entries, #[trigger] global.all[k])) ==> default_group(entries)
            == Some(global.all[at]),
        (forall|k: int| 0 <= k < global.all.len() ==> !is_group(entries, #[trigger] global.all[k]))
            ==> default_group(entries) is None,
{
    let marked = |name: Seq<char>| contains_text(name, MANUAL_MARK@);
    let grouped = |name: Seq<char>| is_group(entries, name);
    let names = keys(entries);
    lemma_lookup_absent(entries, "🔰 手动选择"@);
    assert forall|i: int| 0 <= i < entries.len() implies (#[trigger] entries[i]).0
        != "🔰 手动选择"@ by {
        assert(names[i] == entries[i].0);
    }
    lemma_first_where(names, marked);
    assert forall|i: int| 0 <= i < names.len() implies !marked(#[trigger] names[i]) by {
        assert(names[i] == entries[i].0);
    }
    lookup_finds_the_entry(entries, "GLOBAL"@, global);
    lemma_first_where(global.all, grouped);
    match first_where(global.all, grouped) {
        Some(name) => {
            let found = choose|i: int|
                {
                    &&& 0 <= i < global.all.len()
                    &&& #[trigger] global.all[i] == name
                    &&& grouped(name)
                    &&& forall|k: int| 0 <= k < i ==> !grouped(#[trigger] global.all[k])
                };
            assert(is_group(entries, global.all[found]));
            if 0 <= at < found {
                assert(!grouped(global.all[at]));
            }
        },
        None => {
            if 0 <= at < global.all.len() {
                assert(!grouped(global.all[at]));
            }
        },
    }
}

/// Without a global group and without a group for manual selection there is no default group.
pub proof fn no_default_group_without_a_global_one(entries: Entries)
    requires
        !keys(entries).contains("GLOBAL"@),
        !keys(entries).contains("🔰 手动选择"@),
        forall|k: int| 0 <= k < entries.len() ==> !contains_text(
            (#[trigger] entries[k]).0,
            "手动选择"@,
        ),
    ensures
        default_group(entries) is None,
{
    let marked = |name: Seq<char>| contains_text(name, MANUAL_MARK@);
    let names = keys(entries);
    assert forall|i: int| 0 <= i < entries.len() implies (#[trigger] entries[i]).0
        != "🔰 手动选择"@ && entries[i].0 != "GLOBAL"@ by {
        assert(names[i] == entries[i].0);
    }
    lemma_lookup_absent(entries, "🔰 手动选择"@);
    lemma_lookup_absent(entries, "GLOBAL"@);
    lemma_first_where(names, marked);
    assert forall|i: int| 0 <= i < names.len() implies !marked(#[trigger] names[i]) by {
        assert(names[i] == entries[i].0);
    }
}

/// Every entry stands under the name of its proxy.
pub open spec fn named_by_keys(entries: Entries) -> bool {
    forall|i: int| 0 <= i < entries.len() ==> (#[trigger] entries[i]).1.name == entries[i].0
}

proof fn lemma_group_names(entries: Entries, name: Seq<char>)
    requires
        unique_keys(entries),
        named_by_keys(entries),
    ensures
        group_names(entries).contains(name) <==> is_group(entries, name),
        group_names(entries).no_duplicates(),
    decreases entries.len(),
{
    reveal(Seq::filter);
    let grouped = |entry: (Seq<char>, ProxyView)| entry.1.all.len() > 0;
    let named = |entry: (Seq<char>, ProxyView)| entry.1.name;
    let names = group_names(entries);
    if entries.len() == 0 {
        assert(names =~= Seq::<Seq<char>>::empty());
    } else {
        let front = entries.drop_last();
        let last = entries.last();
        let end = entries.len() - 1;
        let before = group_names(front);
        assert forall|i: int, j: int| 0 <= i < j < front.len() implies (#[trigger] front[i]).0 != (
        #[trigger] front[j]).0 by {
            assert(entries[i].0 != entries[j].0);
        }
        assert forall|i: int| 0 <= i < front.len() implies (#[trigger] front[i]).1.name
            == front[i].0 by {
            assert(entries[i].1.name == entries[i].0);
        }
        lemma_group_names(front, name);
        lemma_group_names(front, last.0);
        assert(entries[end].1.name == entries[end].0);
        assert(lookup(front, last.0) is None) by {
            lemma_lookup_absent(front, last.0);
            assert forall|i: int| 0 <= i < front.len() implies (#[trigger] front[i]).0 != last.0 by {
                assert(entries[i].0 != entries[end].0);
            }
        }
        assert(entries =~= front.push(last));
        lemma_inserted_last(front, last.0, last.1);
        inserted_is_found(front, last.0, last.1, name);
        if last.1.all.len() > 0 {
            assert(names =~= before.push(last.0));
            if names.contains(name) {
                let i = choose|i: int| 0 <= i < names.len() && names[i] == name;
                if i < before.len() {
                    assert(before[i] == name);
                }
            }
            if before.contains(name) {
                let i = choose|i: int| 0 <= i < before.len() && before[i] == name;
                assert(names[i] == name);
            }
            assert(names[before.len() as int] == last.0);
            assert forall|i: int, j: int| 0 <= i < names.len() && 0 <= j < names.len() && i != j
                implies names[i] != names[j] by {
                if i < before.len() && j < before.len() {
                    assert(before[i] != before[j]);
                } else if i < before.len() {
                    assert(before.contains(before[i]));
                } else {
                    assert(before.contains(before[j]));
                }
            }
        } else {
            assert(names =~= before);
        }
    }
}

/// A name is listed among the groups if and only if the entry under it has members, whatever its
/// type is. The names are listed once each, in the order of their code points.
pub proof fn listed_groups_are_all_groups(entries: Entries, name: Seq<char>)
    requires
        unique_keys(entries),
        named_by_keys(entries),
    ensures
        sorted_groups(entries).contains(name) <==> is_group(entries, name),
        sorted_groups(entries).contains(name) <==> exists|i: int|
            0 <= i < entries.len() && (#[trigger] entries[i]).0 == name && entries[i].1.all.len()
                > 0,
        sorted_groups(entries).no_duplicates(),
        in_text_order(sorted_groups(entries)),
{
    let names = group_names(entries);
    let order = |left: Seq<char>, right: Seq<char>| text_le(left, right);
    let sorted = sorted_groups(entries);
    lemma_group_names(entries, name);
    lemma_text_order();
    names.lemma_sort_by_ensures(order);
    names.to_multiset_ensures();
    sorted.to_multiset_ensures();
    assert(names.contains(name) <==> names.to_multiset().count(name) > 0);
    assert(sorted.contains(name) <==> sorted.to_multiset().count(name) > 0);
    names.lemma_multiset_has_no_duplicates();
    sorted.lemma_multiset_has_no_duplicates_conv();
    assert forall|i: int, j: int| 0 <= i <= j < sorted.len() implies text_le(
        #[trigger] sorted[i],
        #[trigger] sorted[j],
    ) by {
        if i < j {
            assert(order(sorted[i], sorted[j]));
        } else {
            lemma_text_le_total(sorted[i], sorted[i]);
        }
    }
    lemma_lookup_absent(entries, name);
    if is_group(entries, name) {
        let at = choose|i: int| 0 <= i < entries.len() && (#[trigger] entries[i]).0 == name;
        lemma_lookup_of_unique(entries, at);
    }
    assert forall|i: int| 0 <= i < entries.len() && (#[trigger] entries[i]).0 == name implies
        lookup(entries, name) == Some(entries[i].1) by {
        lemma_lookup_of_unique(entries, i);
    }
}

proof fn lemma_inserted_keeps(entries: Entries, key: Seq<char>, proxy: ProxyView)
    requires
        unique_keys(entries),
        named_by_keys(entries),
        proxy.name == key,
    ensures
        unique_keys(inserted(entries, key, proxy)),
        named_by_keys(inserted(entries, key, proxy)),
{
    lemma_lookup_absent(entries, key);
    if lookup(entries, key) is None {
        lemma_inserted_last(entries, key, proxy);
    } else {
        let at = choose|i: int| 0 <= i < entries.len() && (#[trigger] entries[i]).0 == key;
        assert forall|i: int| 0 <= i < at implies (#[trigger] entries[i]).0 != key by {
            assert(entries[i].0 != entries[at].0);
        }
        lemma_lookup_at(entries, key, at);
        let after = inserted(entries, key, proxy);
        assert(after == entries.update(at, (key, proxy)));
        assert forall|i: int, j: int| 0 <= i < j < after.len() implies (#[trigger] after[i]).0 != (
        #[trigger] after[j]).0 by {
            assert(entries[i].0 != entries[j].0);
        }
    }
}

/// Under each name of the controller's answer stands what the last member with that name
/// describes: its type, its selection, and the texts among its members in their order. Nothing
/// stands under other names, and every proxy is named as the member is.
pub proof fn described_proxies_are_found(members: Seq<(Seq<char>, JsonView)>, at: int, name: Seq<char>)
    ensures
        unique_keys(described_entries(members)),
        named_by_keys(described_entries(members)),
        0 <= at < members.len() && (forall|k: int|
            at < k < members.len() ==> (#[trigger] members[k]).0 != members[at].0) ==> (lookup(
            described_entries(members),
            members[at].0,
        ) matches Some(proxy) && {
            &&& proxy.name == members[at].0
            &&& proxy.now == members[at].1.text_at("now"@)
            &&& members[at].1.text_at("type"@) matches Some(kind) ==> proxy.proxy_type == kind
            &&& members[at].1.text_at("type"@) is None ==> proxy.proxy_type.len() == 0
            &&& match members[at].1.member("all"@) {
                Some(JsonView::Array(items)) => {
                    &&& forall|text: Seq<char>|
                        proxy.all.contains(text) <==> items.contains(JsonView::Text(text))
                    &&& (forall|i: int| 0 <= i < items.len() ==> #[trigger] items[i] is Text)
                        ==> proxy.all == items.map_values(|item: JsonView| item->Text_0)
                },
                _ => proxy.all.len() == 0,
            }
        }),
        (forall|k: int| 0 <= k < members.len() ==> (#[trigger] members[k]).0 != name) ==> lookup(
            described_entries(members),
            name,
        ) is None,
    decreases members.len(),
{
    if members.len() > 0 {
        let front = members.drop_last();
        let last = members.last();
        let end = members.len() - 1;
        let proxy = described_proxy(last.0, last.1);
        described_proxies_are_found(front, at, name);
        lemma_inserted_keeps(described_entries(front), last.0, proxy);
        inserted_is_found(described_entries(front), last.0, proxy, name);
        assert(members[end] == last);
        if forall|k: int| 0 <= k < members.len() ==> (#[trigger] members[k]).0 != name {
            assert forall|k: int| 0 <= k < front.len() implies (#[trigger] front[k]).0 != name by {
                assert(members[k].0 != name);
            }
        }
        if 0 <= at < members.len() && (forall|k: int|
            at < k < members.len() ==> (#[trigger] members[k]).0 != members[at].0) {
            inserted_is_found(described_entries(front), last.0, proxy, members[at].0);
            if at < end {
                assert(members[end].0 != members[at].0);
                assert(front[at] == members[at]);
                assert forall|k: int| at < k < front.len() implies (#[trigger] front[k]).0
                    != front[at].0 by {
                    assert(members[k].0 != members[at].0);
                }
            } else {
                if let Some(JsonView::Array(items)) = last.1.member("all"@) {
                    lemma_texts_among(items);
                }
            }
        }
    }
}

proof fn lemma_texts_among(items: Seq<JsonView>)
    ensures
        forall|text: Seq<char>|
            texts_among(items).contains(text) <==> items.contains(JsonView::Text(text)),
        (forall|i: int| 0 <= i < items.len() ==> #[trigger] items[i] is Text) ==> texts_among(items)
            == items.map_values(|item: JsonView| item->Text_0),
    decreases items.len(),
{
    let list = texts_among(items);
    if items.len() > 0 {
        let front = items.drop_last();
        let before = texts_among(front);
        let end = items.len() - 1;
        lemma_texts_among(front);
        assert(items[end] == items.last());
        assert forall|text: Seq<char>| list.contains(text) <==> items.contains(
            JsonView::Text(text),
        ) by {
            if list.contains(text) {
                let i = choose|i: int| 0 <= i < list.len() && list[i] == text;
                if i < before.len() {
                    assert(before[i] == text);
                    assert(before.contains(text));
                    assert(front.contains(JsonView::Text(text)));
                    let k = choose|k: int| 0 <= k < front.len() && front[k] == JsonView::Text(text);
                    assert(items[k] == JsonView::Text(text));
                } else {
                    assert(items[end] == JsonView::Text(text));
                }
            }
            if items.contains(JsonView::Text(text)) {
                let k = choose|k: int| 0 <= k < items.len() && items[k] == JsonView::Text(text);
                if k < end {
                    assert(front[k] == items[k]);
                    assert(before.contains(text));
                    let i = choose|i: int| 0 <= i < before.len() && before[i] == text;
                    assert(list[i] == text);
                } else {
                    assert(list[before.len() as int] == text);
                }
            }
        }
        if forall|i: int| 0 <= i < items.len() ==> #[trigger] items[i] is Text {
            assert forall|i: int| 0 <= i < front.len() implies #[trigger] front[i] is Text by {
                assert(items[i] is Text);
            }
            assert(items[end] is Text);
            assert(list =~= items.map_values(|item: JsonView| item->Text_0));
        }
    } else {
        assert(list =~= items.map_values(|item: JsonView| item->Text_0));
    }
}

/// The texts of one array after another are those of the one and then those of the other.
pub proof fn texts_keep_their_order(left: Seq<JsonView>, right: Seq<JsonView>)
    ensures
        texts_among(left + right) == texts_among(left) + texts_among(right),
    decreases right.len(),
{
    if right.len() == 0 {
        assert(left + right =~= left);
        assert(texts_among(left) + texts_among(right) =~= texts_among(left));
    } else {
        assert((left + right).drop_last() =~= left + right.drop_last());
        texts_keep_their_order(left, right.drop_last());
        assert(texts_among(left + right) =~= texts_among(left) + texts_among(right));
    }
}

/// Under each name stands the selector that the last pair with that name makes, with its
/// selection, where that is not empty, and with its members in their order.
pub proof fn paired_selectors_are_found(
    pairs: Seq<(&str, &str, &[&str])>,
    at: int,
)
    requires
        0 <= at < pairs.len(),
        forall|k: int| at < k < pairs.len() ==> (#[trigger] pairs[k]).0@ != pairs[at].0@,
    ensures
        lookup(pair_entries(pairs), pairs[at].0@) matches Some(proxy) && {
            &&& proxy.name == pairs[at].0@
            &&& proxy.proxy_type == "Selector"@
            &&& proxy.now == (if pairs[at].1@ == Seq::<char>::empty() {
                None
            } else {
                Some(pairs[at].1@)
            })
            &&& proxy.all.len() == pairs[at].2@.len()
            &&& forall|i: int|
                0 <= i < proxy.all.len() ==> #[trigger] proxy.all[i] == pairs[at].2@[i]@
        },
    decreases pairs.len(),
{
    let front = pairs.drop_last();
    let last = pairs.last();
    let end = pairs.len() - 1;
    inserted_is_found(pair_entries(front), last.0@, pair_proxy(last), pairs[at].0@);
    assert(pairs[end] == last);
    if at < end {
        assert(pairs[end].0@ != pairs[at].0@);
        assert(front[at] == pairs[at]);
        assert forall|k: int| at < k < front.len() implies (#[trigger] front[k]).0@
            != front[at].0@ by {
            assert(pairs[k].0@ != pairs[at].0@);
        }
        paired_selectors_are_found(front, at);
    } else if pairs[at].1@.len() == 0 {
        assert(pairs[at].1@ =~= Seq::<char>::empty());
    }
}

proof fn lemma_walk_from_left_to_right(
    left: Seq<Seq<char>>,
    right: Seq<Seq<char>>,
    entries: Entries,
    seen: Set<Seq<char>>,
)
    ensures
        ({
            let first = walk_members(left, entries, seen);
            let second = walk_members(right, entries, first.seen);
            let both = walk_members(left + right, entries, seen);
            &&& both.nodes == first.nodes + second.nodes
            &&& both.seen == second.seen
        }),
    decreases right.len(),
{
    let first = walk_members(left, entries, seen);
    if right.len() == 0 {
        assert(left + right =~= left);
        assert(first.nodes + Seq::<Seq<char>>::empty() =~= first.nodes);
    } else {
        let front = right.drop_last();
        assert((left + right).drop_last() =~= left + front);
        lemma_walk_from_left_to_right(left, front, entries, seen);
        let before = walk_members(front, entries, first.seen);
        lemma_members_grow(left, entries, seen);
        lemma_members_grow(front, entries, first.seen);
        lemma_members_grow(left + front, entries, seen);
        assert(seen.union(before.seen) =~= before.seen);
        assert(first.seen.union(before.seen) =~= before.seen);
        assert(walk_members(left + right, entries, seen).nodes =~= first.nodes + walk_members(
            right,
            entries,
            first.seen,
        ).nodes);
    }
}

/// The members of a group are walked from left to right: what the first of them come to stands
/// before what the others come to, and what the first have asked is not asked again.
pub proof fn members_are_walked_in_order(
    left: Seq<Seq<char>>,
    right: Seq<Seq<char>>,
    entries: Entries,
    seen: Set<Seq<char>>,
)
    ensures
        walk_members(left + right, entries, seen).nodes == walk_members(left, entries, seen).nodes
            + walk_members(right, entries, walk_members(left, entries, seen).seen).nodes,
{
    lemma_walk_from_left_to_right(left, right, entries, seen);
}

/// The nodes of a group without groups in it are its members, in their order, but for the one
/// that rejects.
pub proof fn leaves_of_a_flat_group_are_its_members(group: Seq<char>, entries: Entries)
    requires
        is_group(entries, group),
        forall|i: int|
            0 <= i < lookup(entries, group)->0.all.len() ==> !is_group(
                entries,
                #[trigger] lookup(entries, group)->0.all[i],
            ),
    ensures
        leaf_nodes(group, entries) == lookup(entries, group)->0.all.filter(
            |name: Seq<char>| name != "REJECT"@,
        ),
{
    lemma_unseen_insert(entries, Set::empty(), group);
    lemma_flat_walk(lookup(entries, group)->0.all, entries, Set::empty().insert(group));
}

proof fn lemma_flat_walk(members: Seq<Seq<char>>, entries: Entries, seen: Set<Seq<char>>)
    requires
        forall|i: int| 0 <= i < members.len() ==> !is_group(entries, #[trigger] members[i]),
    ensures
        walk_members(members, entries, seen).nodes == members,
    decreases members.len(),
{
    if members.len() > 0 {
        let front = members.drop_last();
        assert forall|i: int| 0 <= i < front.len() implies !is_group(entries, #[trigger] front[i]) by {
            assert(front[i] == members[i]);
        }
        lemma_flat_walk(front, entries, seen);
        assert(!is_group(entries, members[members.len() - 1]));
        assert(front.push(members.last()) =~= members);
    } else {
        assert(members =~= Seq::<Seq<char>>::empty());
    }
}

/// A walk goes into a member that is a group where the group was not asked yet, and through all
/// of its members then. A member that is no group is met as it is.
pub proof fn groups_are_entered_once(member: Seq<char>, entries: Entries, seen: Set<Seq<char>>)
    ensures
        is_group(entries, member) && seen.contains(member) ==> walk_members(
            seq![member],
            entries,
            seen,
        ).nodes == Seq::<Seq<char>>::empty(),
        is_group(entries, member) && !seen.contains(member) ==> walk_members(
            seq![member],
            entries,
            seen,
        ).nodes == walk_members(
            lookup(entries, member)->0.all,
            entries,
            seen.insert(member),
        ).nodes,
        !is_group(entries, member) ==> walk_members(seq![member], entries, seen).nodes
            == seq![member],
        is_group(entries, member) ==> leaf_nodes(member, entries) == walk_members(
            lookup(entries, member)->0.all,
            entries,
            Set::empty().insert(member),
        ).nodes.filter(|name: Seq<char>| name != "REJECT"@),
{
    let none = Seq::<Seq<char>>::empty();
    let single = seq![member];
    assert(single.drop_last() =~= none);
    assert(walk_members(none, entries, seen).seen == seen);
    assert(walk_members(none, entries, seen).nodes =~= none);
    assert(seen.union(seen) =~= seen);
    lemma_unseen_union(entries, seen, seen);
    if is_group(entries, member) {
        lemma_unseen_insert(entries, Set::empty(), member);
        if !seen.contains(member) {
            lemma_unseen_insert(entries, seen, member);
        }
        assert(none + walk_from(member, entries, seen).nodes =~= walk_from(
            member,
            entries,
            seen,
        ).nodes);
    } else {
        assert(none.push(member) =~= single);
    }
}

/// Following a name asks it, and forgets no name that was asked before.
pub proof fn followed_names_are_asked(name: Seq<char>, entries: Entries, visited: Set<Seq<char>>)
    ensures
        visited.subset_of(asked_from(name, entries, visited)),
        asked_from(name, entries, visited).contains(name),
    decreases unseen(entries, visited),
{
    if !visited.contains(name) {
        if let Some(proxy) = lookup(entries, name) {
            if let Some(now) = proxy.now {
                if is_group(entries, now) {
                    lemma_unseen_insert(entries, visited, name);
                    followed_names_are_asked(now, entries, visited.insert(name));
                }
            }
        }
    }
}

/// A proxy is seen with all that it holds.
pub proof fn proxies_are_seen_as_they_are(proxy: Proxy, i: int)
    ensures
        proxy@.name == proxy.name@,
        proxy@.proxy_type == proxy.proxy_type@,
        proxy.now matches Some(now) ==> proxy@.now == Some(now@),
        proxy.now is None ==> proxy@.now is None,
        proxy@.all.len() == proxy.all@.len(),
        0 <= i < proxy.all@.len() ==> proxy@.all[i] == proxy.all@[i]@,
{
}

/// Selectors that are made of pairs stand under their own names, each name once.
pub proof fn paired_selectors_stand_under_their_names(pairs: Seq<(&str, &str, &[&str])>)
    ensures
        unique_keys(pair_entries(pairs)),
        named_by_keys(pair_entries(pairs)),
    decreases pairs.len(),
{
    if pairs.len() > 0 {
        paired_selectors_stand_under_their_names(pairs.drop_last());
        lemma_inserted_keeps(
            pair_entries(pairs.drop_last()),
            pairs.last().0@,
            pair_proxy(pairs.last()),
        );
    }
}

/// A name of the controller's answer is listed among the groups if and only if the last member
/// with that name describes a text among its members, whatever it says of its type.
pub proof fn described_groups_are_listed(members: Seq<(Seq<char>, JsonView)>, at: int)
    requires
        0 <= at < members.len(),
        forall|k: int| at < k < members.len() ==> (#[trigger] members[k]).0 != members[at].0,
    ensures
        sorted_groups(described_entries(members)).contains(members[at].0) <==> (
        members[at].1.member("all"@) matches Some(JsonView::Array(items)) && exists|i: int|
            0 <= i < items.len() && #[trigger] items[i] is Text),
{
    let entries = described_entries(members);
    let name = members[at].0;
    described_proxies_are_found(members, at, name);
    listed_groups_are_all_groups(entries, name);
    let proxy = lookup(entries, name)->0;
    if let Some(JsonView::Array(items)) = members[at].1.member("all"@) {
        if proxy.all.len() > 0 {
            let text = proxy.all[0];
            assert(proxy.all.contains(text));
            let i = choose|i: int| 0 <= i < items.len() && items[i] == JsonView::Text(text);
            assert(items[i] is Text);
        }
        if exists|i: int| 0 <= i < items.len() && #[trigger] items[i] is Text {
            let i = choose|i: int| 0 <= i < items.len() && #[trigger] items[i] is Text;
            assert(items.contains(JsonView::Text(items[i]->Text_0)));
            assert(proxy.all.contains(items[i]->Text_0));
        }
    }
}

} // verus!
