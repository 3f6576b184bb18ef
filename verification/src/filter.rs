//! Which nodes a filter keeps, and in which batches nodes are tested.

use vstd::prelude::*;
use crate::text::{
    contains_text, copy_texts, drop_trailing, is_middle, is_whitespace, keep_non_empty,
    lemma_filter_keeps_all, lemma_pieces_concat, lemma_pieces_non_empty, lemma_pieces_of_one,
    middle_is_one, non_empty, occurs_at, optional_str, pieces, split, text_contains, texts, trim,
    trim_each, trimmed, trimmed_start, trimming_again_changes_nothing,
    trimming_takes_away_whitespace, Delimiter,
};

verus! {

/// A text in lower case, as `str::to_lowercase` maps it.
pub uninterp spec fn lowercase(text: Seq<char>) -> Seq<char>;

/// `str::to_lowercase`, named by [`lowercase`]. An empty text has an empty one.
#[verifier::external_body]
fn to_lowercase(text: &str) -> (lowered: String)
    ensures
        lowered@ == lowercase(text@),
        text@.len() == 0 ==> lowered@.len() == 0,
{
    text.to_lowercase()
}

/// The ranges of a search: those of the filter where there is one, else the configured ones,
/// each without whitespace around it and none of them empty.
pub open spec fn filter_ranges(
    filter: Option<Seq<char>>,
    configured: Seq<Seq<char>>,
) -> Seq<Seq<char>> {
    let listed = match filter {
        Some(filter) => pieces(filter, Delimiter::Char(',')),
        None => configured,
    };
    non_empty(listed.map_values(|range: Seq<char>| trimmed(range)))
}

/// A filter takes the place of the configured ranges.
pub proof fn filter_overrides_configuration(
    filter: Seq<char>,
    configured: Seq<Seq<char>>,
    other: Seq<Seq<char>>,
)
    ensures
        filter_ranges(Some(filter), configured) == filter_ranges(Some(filter), other),
{
}

/// The ranges of a search.
pub fn parse_filter_ranges(filter: Option<&str>, configured: &[String]) -> (ranges: Vec<String>)
    ensures
        texts(ranges@) == filter_ranges(optional_str(filter), texts(configured@)),
{
    match filter {
        Some(filter) => {
            let listed = split(filter, Delimiter::Char(','));
            keep_non_empty(trim_each(listed.as_slice()))
        },
        None => keep_non_empty(trim_each(configured)),
    }
}

/// One of `patterns` stands in `text`.
pub open spec fn contains_any(text: Seq<char>, patterns: Seq<Seq<char>>) -> bool {
    exists|i: int| 0 <= i < patterns.len() && contains_text(text, #[trigger] patterns[i])
}

/// The nodes whose names hold `range`, in their order.
pub open spec fn in_range(nodes: Seq<Seq<char>>, range: Seq<char>) -> Seq<Seq<char>> {
    nodes.filter(|node: Seq<char>| contains_text(node, range))
}

/// The nodes whose names hold none of `ranges`, in their order.
pub open spec fn in_no_range(nodes: Seq<Seq<char>>, ranges: Seq<Seq<char>>) -> Seq<Seq<char>> {
    nodes.filter(|node: Seq<char>| !contains_any(node, ranges))
}

/// The batches in which nodes are tested, each with its label: one for each range, and after
/// them the nodes that are in no range; without ranges, all nodes at once.
pub open spec fn batches(
    nodes: Seq<Seq<char>>,
    ranges: Seq<Seq<char>>,
) -> Seq<(Seq<char>, Seq<Seq<char>>)> {
    if ranges.len() == 0 {
        seq![("全部节点"@, nodes)]
    } else {
        let matched = ranges.map_values(|range: Seq<char>| (range, in_range(nodes, range)));
        let others = in_no_range(nodes, ranges);
        if others.len() > 0 {
            matched.push(("其他节点"@, others))
        } else {
            matched
        }
    }
}

/// A labelled batch as contracts see it.
pub open spec fn batch_view(batch: (String, Vec<String>)) -> (Seq<char>, Seq<Seq<char>>) {
    (batch.0@, texts(batch.1@))
}

/// Every node stands in a batch.
pub proof fn batches_hold_every_node(nodes: Seq<Seq<char>>, ranges: Seq<Seq<char>>, node: Seq<char>)
    requires
        nodes.contains(node),
    ensures
        exists|i: int|
            0 <= i < batches(nodes, ranges).len() && (#[trigger] batches(
                nodes,
                ranges,
            )[i]).1.contains(node),
{
    let all = batches(nodes, ranges);
    let at = choose|i: int| 0 <= i < nodes.len() && nodes[i] == node;
    if ranges.len() == 0 {
        assert(all[0].1.contains(node));
    } else if contains_any(node, ranges) {
        let i = choose|i: int| 0 <= i < ranges.len() && contains_text(node, #[trigger] ranges[i]);
        nodes.lemma_filter_contains(|text: Seq<char>| contains_text(text, ranges[i]), at);
        assert(all[i].1 == in_range(nodes, ranges[i]));
    } else {
        nodes.lemma_filter_contains(|text: Seq<char>| !contains_any(text, ranges), at);
        assert(all.last().1.contains(node));
    }
}

/// A batch holds nodes alone, those of a range hold the range in their names, and those of
/// the last batch after the ranges hold none.
pub proof fn batches_hold_what_they_say(
    nodes: Seq<Seq<char>>,
    ranges: Seq<Seq<char>>,
    batch: int,
    at: int,
)
    requires
        ranges.len() > 0,
        0 <= batch < batches(nodes, ranges).len(),
        0 <= at < batches(nodes, ranges)[batch].1.len(),
    ensures
        nodes.contains(batches(nodes, ranges)[batch].1[at]),
        batch < ranges.len() ==> contains_text(
            batches(nodes, ranges)[batch].1[at],
            ranges[batch],
        ),
        batch == ranges.len() ==> !contains_any(batches(nodes, ranges)[batch].1[at], ranges),
{
    let node = batches(nodes, ranges)[batch].1[at];
    if batch < ranges.len() {
        let accept = |text: Seq<char>| contains_text(text, ranges[batch]);
        nodes.lemma_filter_pred(accept, at);
        assert(nodes.filter(accept).contains(node));
        nodes.lemma_filter_contains_rev(accept, node);
    } else {
        let accept = |text: Seq<char>| !contains_any(text, ranges);
        nodes.lemma_filter_pred(accept, at);
        assert(nodes.filter(accept).contains(node));
        nodes.lemma_filter_contains_rev(accept, node);
    }
}

/// Whether one of the patterns stands in a text.
pub fn holds_any(text: &str, patterns: &[String]) -> (yes: bool)
    ensures
        yes == contains_any(text@, texts(patterns@)),
{
    let mut i: usize = 0;
    while i < patterns.len()
        invariant
            i <= patterns@.len(),
            forall|k: int| 0 <= k < i ==> !contains_text(text@, #[trigger] texts(patterns@)[k]),
        decreases patterns@.len() - i,
    {
        assert(texts(patterns@)[i as int] == patterns@[i as int]@);
        if text_contains(text, patterns[i].as_str()) {
            return true;
        }
        i += 1;
    }
    false
}

/// The nodes whose names hold a range.
fn nodes_in_range(nodes: &[String], range: &str) -> (kept: Vec<String>)
    ensures
        texts(kept@) == in_range(texts(nodes@), range@),
{
    let ghost all = texts(nodes@);
    let ghost accept = |node: Seq<char>| contains_text(node, range@);
    let mut kept: Vec<String> = Vec::new();
    let mut i: usize = 0;
    assert(texts(kept@) =~= all.take(0).filter(accept)) by {
        reveal(Seq::filter);
    }
    while i < nodes.len()
        invariant
            i <= nodes@.len(),
            all == texts(nodes@),
            accept == (|node: Seq<char>| contains_text(node, range@)),
            texts(kept@) == all.take(i as int).filter(accept),
        decreases nodes@.len() - i,
    {
        let ghost before = texts(kept@);
        proof {
            reveal(Seq::filter);
            assert(all.take(i + 1).drop_last() == all.take(i as int));
            assert(all[i as int] == nodes@[i as int]@);
        }
        if text_contains(nodes[i].as_str(), range) {
            kept.push(nodes[i].clone());
            assert(texts(kept@) =~= before.push(nodes@[i as int]@));
        }
        i += 1;
    }
    assert(all.take(i as int) == all);
    kept
}

/// The nodes whose names hold none of the ranges.
fn nodes_in_no_range(nodes: &[String], ranges: &[String]) -> (kept: Vec<String>)
    ensures
        texts(kept@) == in_no_range(texts(nodes@), texts(ranges@)),
{
    let ghost all = texts(nodes@);
    let ghost accept = |node: Seq<char>| !contains_any(node, texts(ranges@));
    let mut kept: Vec<String> = Vec::new();
    let mut i: usize = 0;
    assert(texts(kept@) =~= all.take(0).filter(accept)) by {
        reveal(Seq::filter);
    }
    while i < nodes.len()
        invariant
            i <= nodes@.len(),
            all == texts(nodes@),
            accept == (|node: Seq<char>| !contains_any(node, texts(ranges@))),
            texts(kept@) == all.take(i as int).filter(accept),
        decreases nodes@.len() - i,
    {
        let ghost before = texts(kept@);
        proof {
            reveal(Seq::filter);
            assert(all.take(i + 1).drop_last() == all.take(i as int));
            assert(all[i as int] == nodes@[i as int]@);
        }
        if !holds_any(nodes[i].as_str(), ranges) {
            kept.push(nodes[i].clone());
            assert(texts(kept@) =~= before.push(nodes@[i as int]@));
        }
        i += 1;
    }
    assert(all.take(i as int) == all);
    kept
}

/// The batches in which nodes are tested.
pub fn candidate_batches(nodes: &[String], ranges: &[String]) -> (list: Vec<
    (String, Vec<String>),
>)
    ensures
        list@.map_values(|batch: (String, Vec<String>)| batch_view(batch)) == batches(
            texts(nodes@),
            texts(ranges@),
        ),
{
    let ghost viewed = |batch: (String, Vec<String>)| batch_view(batch);
    let ghost all = batches(texts(nodes@), texts(ranges@));
    let mut list: Vec<(String, Vec<String>)> = Vec::new();
    if ranges.len() == 0 {
        list.push(("全部节点".to_owned(), copy_texts(nodes)));
        assert(list@.map_values(viewed) =~= all);
        return list;
    }
    let mut i: usize = 0;
    while i < ranges.len()
        invariant
            i <= ranges@.len(),
            list@.len() == i,
            forall|k: int|
                0 <= k < i ==> batch_view(#[trigger] list@[k]) == (
                    ranges@[k]@,
                    in_range(texts(nodes@), ranges@[k]@),
                ),
        decreases ranges@.len() - i,
    {
        let range = &ranges[i];
        list.push((range.clone(), nodes_in_range(nodes, range.as_str())));
        i += 1;
    }
    let ghost matched = texts(ranges@).map_values(
        |range: Seq<char>| (range, in_range(texts(nodes@), range)),
    );
    assert(list@.map_values(viewed) =~= matched);
    let others = nodes_in_no_range(nodes, ranges);
    assert(texts(others@).len() == others@.len());
    if others.len() > 0 {
        list.push(("其他节点".to_owned(), others));
        assert(list@.map_values(viewed) =~= all);
    }
    list
}

/// The nodes of which the text in the same place of `lowered` holds one of `keywords`.
pub open spec fn keyword_matches(
    nodes: Seq<Seq<char>>,
    lowered: Seq<Seq<char>>,
    keywords: Seq<Seq<char>>,
) -> Seq<Seq<char>>
    decreases nodes.len(),
{
    if nodes.len() == 0 {
        Seq::empty()
    } else {
        let before = keyword_matches(nodes.drop_last(), lowered, keywords);
        if contains_any(lowered[nodes.len() - 1], keywords) {
            before.push(nodes.last())
        } else {
            before
        }
    }
}

/// The nodes whose names in lower case hold one of `keywords`.
pub open spec fn with_keyword(nodes: Seq<Seq<char>>, keywords: Seq<Seq<char>>) -> Seq<Seq<char>> {
    nodes.filter(|node: Seq<char>| contains_any(lowercase(node), keywords))
}

proof fn lemma_keyword_matches(
    nodes: Seq<Seq<char>>,
    lowered: Seq<Seq<char>>,
    keywords: Seq<Seq<char>>,
)
    requires
        lowered.len() >= nodes.len(),
        forall|i: int| 0 <= i < nodes.len() ==> #[trigger] lowered[i] == lowercase(nodes[i]),
    ensures
        keyword_matches(nodes, lowered, keywords) == with_keyword(nodes, keywords),
    decreases nodes.len(),
{
    reveal(Seq::filter);
    if nodes.len() > 0 {
        lemma_keyword_matches(nodes.drop_last(), lowered, keywords);
    }
}

/// The nodes of which the text in the same place of `lowered` holds one of the keywords.
pub fn keep_matching(nodes: &[String], lowered: &[String], keywords: &[String]) -> (kept: Vec<
    String,
>)
    requires
        nodes@.len() == lowered@.len(),
    ensures
        texts(kept@) == keyword_matches(texts(nodes@), texts(lowered@), texts(keywords@)),
{
    let ghost all = texts(nodes@);
    let mut kept: Vec<String> = Vec::new();
    let mut i: usize = 0;
    assert(texts(kept@) =~= keyword_matches(all.take(0), texts(lowered@), texts(keywords@)));
    while i < nodes.len()
        invariant
            i <= nodes@.len(),
            nodes@.len() == lowered@.len(),
            all == texts(nodes@),
            texts(kept@) == keyword_matches(
                all.take(i as int),
                texts(lowered@),
                texts(keywords@),
            ),
        decreases nodes@.len() - i,
    {
        let ghost before = texts(kept@);
        proof {
            assert(all.take(i + 1).drop_last() == all.take(i as int));
            assert(all.take(i + 1).last() == nodes@[i as int]@);
            assert(texts(lowered@)[i as int] == lowered@[i as int]@);
        }
        if holds_any(lowered[i].as_str(), keywords) {
            kept.push(nodes[i].clone());
            assert(texts(kept@) =~= before.push(nodes@[i as int]@));
        }
        i += 1;
    }
    assert(all.take(i as int) == all);
    kept
}

/// Each text of a list in lower case.
fn lower_each(list: &[String]) -> (lowered: Vec<String>)
    ensures
        texts(lowered@) == texts(list@).map_values(|text: Seq<char>| lowercase(text)),
{
    let mut lowered: Vec<String> = Vec::new();
    let mut i: usize = 0;
    while i < list.len()
        invariant
            i <= list@.len(),
            lowered@.len() == i,
            forall|k: int| 0 <= k < i ==> (#[trigger] lowered@[k])@ == lowercase(list@[k]@),
        decreases list@.len() - i,
    {
        lowered.push(to_lowercase(list[i].as_str()));
        i += 1;
    }
    assert(texts(lowered@) =~= texts(list@).map_values(|text: Seq<char>| lowercase(text)));
    lowered
}

/// The nodes whose names in lower case hold one of the keywords.
fn nodes_with_keyword(nodes: &[String], keywords: &[String]) -> (kept: Vec<String>)
    ensures
        texts(kept@) == with_keyword(texts(nodes@), texts(keywords@)),
{
    let lowered = lower_each(nodes);
    proof {
        assert(texts(lowered@).len() == lowered@.len());
        assert(texts(nodes@).len() == nodes@.len());
        lemma_keyword_matches(texts(nodes@), texts(lowered@), texts(keywords@));
    }
    keep_matching(nodes, lowered.as_slice(), keywords)
}

/// The nodes that one keyword keeps, whatever its case: all of them where it is blank.
pub open spec fn fuzzy_matches(nodes: Seq<Seq<char>>, keyword: Seq<char>) -> Seq<Seq<char>> {
    let lowered = lowercase(trimmed(keyword));
    if lowered.len() == 0 {
        nodes
    } else {
        with_keyword(nodes, seq![lowered])
    }
}

/// The nodes that one keyword keeps. Without a comma it keeps what a filter of it keeps.
pub fn fuzzy_filter_nodes(nodes: &[String], keyword: &str) -> (kept: Vec<String>)
    ensures
        texts(kept@) == fuzzy_matches(texts(nodes@), keyword@),
        !keyword@.contains(',') ==> texts(kept@) == filtered(texts(nodes@), Some(keyword@)),
{
    let lowered = to_lowercase(trim(keyword).as_str());
    proof {
        if !keyword@.contains(',') && trimmed(keyword@).len() > 0 {
            one_keyword_filters_alike(texts(nodes@), keyword@);
        }
    }
    if lowered.as_str().is_empty() {
        return copy_texts(nodes);
    }
    let mut keywords: Vec<String> = Vec::new();
    keywords.push(lowered);
    assert(texts(keywords@) =~= seq![lowered@]);
    nodes_with_keyword(nodes, keywords.as_slice())
}

/// The keywords of a filter, in lower case.
pub open spec fn filter_keywords(filter: Seq<char>) -> Seq<Seq<char>> {
    non_empty(
        pieces(trimmed(filter), Delimiter::Char(',')).map_values(
            |keyword: Seq<char>| trimmed(keyword),
        ),
    ).map_values(|keyword: Seq<char>| lowercase(keyword))
}

/// The nodes that a filter keeps, whatever its case: those with one of its keywords in their
/// names. A filter without keywords keeps all.
pub open spec fn filtered(nodes: Seq<Seq<char>>, filter: Option<Seq<char>>) -> Seq<Seq<char>> {
    match filter {
        Some(filter) if trimmed(filter).len() > 0 && filter_keywords(filter).len() > 0 =>
            with_keyword(nodes, filter_keywords(filter)),
        _ => nodes,
    }
}

/// A filter of one keyword keeps what the keyword keeps.
pub proof fn one_keyword_filters_alike(nodes: Seq<Seq<char>>, keyword: Seq<char>)
    requires
        !keyword.contains(','),
        trimmed(keyword).len() > 0,
    ensures
        fuzzy_matches(nodes, keyword) == filtered(nodes, Some(keyword)),
{
    let word = trimmed(keyword);
    let comma = Delimiter::Char(',');
    trimming_again_changes_nothing(keyword);
    assert forall|i: int| 0 <= i < word.len() implies !comma.cuts(#[trigger] word[i]) by {
        assert(keyword.contains(word[i]));
    }
    lemma_pieces_of_one(word, comma);
    let words = pieces(word, comma).map_values(|text: Seq<char>| trimmed(text));
    assert(words =~= seq![word]);
    lemma_filter_keeps_all(words, |text: Seq<char>| text.len() > 0);
    assert(filter_keywords(keyword) =~= seq![lowercase(word)]);
    if lowercase(word).len() == 0 {
        let keep = |node: Seq<char>| contains_any(lowercase(node), filter_keywords(keyword));
        assert forall|i: int| 0 <= i < nodes.len() implies keep(#[trigger] nodes[i]) by {
            let name = lowercase(nodes[i]);
            let none = filter_keywords(keyword)[0];
            assert(name.subrange(0, 0) =~= none);
            assert(occurs_at(name, none, 0));
            assert(contains_text(name, none));
        }
        lemma_filter_keeps_all(nodes, keep);
    }
}

proof fn lemma_filter_again(nodes: Seq<Seq<char>>, keep: spec_fn(Seq<char>) -> bool)
    ensures
        nodes.filter(keep).filter(keep) == nodes.filter(keep),
{
    let kept = nodes.filter(keep);
    assert forall|i: int| 0 <= i < kept.len() implies keep(#[trigger] kept[i]) by {
        nodes.lemma_filter_pred(keep, i);
    }
    lemma_filter_keeps_all(kept, keep);
}

/// Filtering again with the same keyword or filter changes nothing.
pub proof fn filtering_again_changes_nothing(
    nodes: Seq<Seq<char>>,
    keyword: Seq<char>,
    filter: Option<Seq<char>>,
)
    ensures
        fuzzy_matches(fuzzy_matches(nodes, keyword), keyword) == fuzzy_matches(nodes, keyword),
        filtered(filtered(nodes, filter), filter) == filtered(nodes, filter),
{
    let lowered = seq![lowercase(trimmed(keyword))];
    lemma_filter_again(nodes, |node: Seq<char>| contains_any(lowercase(node), lowered));
    if let Some(filter) = filter {
        let keywords = filter_keywords(filter);
        lemma_filter_again(nodes, |node: Seq<char>| contains_any(lowercase(node), keywords));
    }
}

/// The nodes that a filter keeps.
pub fn filter_nodes_by_keyword(nodes: &[String], filter: Option<&str>) -> (kept: Vec<String>)
    ensures
        texts(kept@) == filtered(texts(nodes@), optional_str(filter)),
{
    match filter {
        Some(filter) => {
            let filter = trim(filter);
            if filter.as_str().is_empty() {
                return copy_texts(nodes);
            }
            let listed = split(filter.as_str(), Delimiter::Char(','));
            let keywords = lower_each(keep_non_empty(trim_each(listed.as_slice())).as_slice());
            assert(texts(keywords@).len() == keywords@.len());
            if keywords.len() == 0 {
                return copy_texts(nodes);
            }
            nodes_with_keyword(nodes, keywords.as_slice())
        },
        None => copy_texts(nodes),
    }
}

/// A filter of two parts with a comma between has the ranges of the one part and then those of
/// the other. A part without a comma is one range, without the whitespace around it, and a blank
/// part is none.
pub proof fn ranges_are_the_parts_between_commas(
    left: Seq<char>,
    right: Seq<char>,
    configured: Seq<Seq<char>>,
)
    ensures
        filter_ranges(Some(left + seq![','] + right), configured) == filter_ranges(
            Some(left),
            configured,
        ) + filter_ranges(Some(right), configured),
        !left.contains(',') ==> filter_ranges(Some(left), configured) == (if trimmed(left).len()
            == 0 {
            Seq::<Seq<char>>::empty()
        } else {
            seq![trimmed(left)]
        }),
{
    let comma = Delimiter::Char(',');
    lemma_pieces_concat(left, ',', right, comma);
    lemma_kept_ranges(pieces(left, comma), pieces(right, comma));
    if !left.contains(',') {
        assert forall|i: int| 0 <= i < left.len() implies !comma.cuts(#[trigger] left[i]) by {
            assert(left.contains(left[i]));
        }
        lemma_pieces_of_one(left, comma);
        lemma_kept_range(left);
    }
}

proof fn lemma_kept_range(part: Seq<char>)
    ensures
        non_empty(seq![part].map_values(|range: Seq<char>| trimmed(range))) == (if trimmed(
            part,
        ).len() == 0 {
            Seq::<Seq<char>>::empty()
        } else {
            seq![trimmed(part)]
        }),
{
    let list = seq![part].map_values(|range: Seq<char>| trimmed(range));
    assert(list =~= seq![trimmed(part)]);
    assert(list.drop_last() =~= Seq::<Seq<char>>::empty());
    reveal_with_fuel(Seq::filter, 2);
    assert(Seq::<Seq<char>>::empty().push(trimmed(part)) =~= seq![trimmed(part)]);
}

proof fn lemma_kept_ranges(left: Seq<Seq<char>>, right: Seq<Seq<char>>)
    ensures
        non_empty((left + right).map_values(|range: Seq<char>| trimmed(range))) == non_empty(
            left.map_values(|range: Seq<char>| trimmed(range)),
        ) + non_empty(right.map_values(|range: Seq<char>| trimmed(range))),
{
    let cut = |range: Seq<char>| trimmed(range);
    let filled = |text: Seq<char>| text.len() > 0;
    assert((left + right).map_values(cut) =~= left.map_values(cut) + right.map_values(cut));
    Seq::filter_distributes_over_add(left.map_values(cut), right.map_values(cut), filled);
}

/// The configured ranges count where there is no filter, each without the whitespace around it
/// and in their order, but for blank ones.
pub proof fn configured_ranges_keep_their_order(configured: Seq<Seq<char>>, range: Seq<char>)
    ensures
        filter_ranges(None, Seq::empty()) == Seq::<Seq<char>>::empty(),
        filter_ranges(None, configured.push(range)) == (if trimmed(range).len() == 0 {
            filter_ranges(None, configured)
        } else {
            filter_ranges(None, configured).push(trimmed(range))
        }),
{
    let none = Seq::<Seq<char>>::empty();
    assert(none.map_values(|range: Seq<char>| trimmed(range)) =~= none);
    assert(filter_ranges(None, none) =~= none) by {
        reveal(Seq::filter);
    }
    lemma_kept_ranges(configured, seq![range]);
    lemma_kept_range(range);
    assert(configured + seq![range] =~= configured.push(range));
    assert(filter_ranges(None, configured.push(range)) =~= if trimmed(range).len() == 0 {
        filter_ranges(None, configured)
    } else {
        filter_ranges(None, configured).push(trimmed(range))
    });
}

/// A batch for each range comes in the order of the ranges, under the range for its label, with
/// all the nodes whose names hold the range, in their order and whether or not another batch has
/// them. The nodes that hold no range come last under a label of their own, where there are any.
/// Without ranges all nodes are one batch.
pub proof fn batches_come_in_the_order_of_ranges(
    nodes: Seq<Seq<char>>,
    ranges: Seq<Seq<char>>,
    at: int,
)
    ensures
        ranges.len() == 0 ==> batches(nodes, ranges) == seq![("全部节点"@, nodes)],
        0 <= at < ranges.len() ==> at < batches(nodes, ranges).len() && batches(nodes, ranges)[at]
            == (
            ranges[at],
            nodes.filter(|node: Seq<char>| contains_text(node, ranges[at])),
        ),
        ranges.len() > 0 ==> {
            let others = nodes.filter(
                |node: Seq<char>|
                    forall|i: int|
                        0 <= i < ranges.len() ==> !contains_text(node, #[trigger] ranges[i]),
            );
            if others.len() > 0 {
                &&& batches(nodes, ranges).len() == ranges.len() + 1
                &&& batches(nodes, ranges).last() == ("其他节点"@, others)
            } else {
                batches(nodes, ranges).len() == ranges.len()
            }
        },
{
    let apart = |node: Seq<char>|
        forall|i: int| 0 <= i < ranges.len() ==> !contains_text(node, #[trigger] ranges[i]);
    let other = |node: Seq<char>| !contains_any(node, ranges);
    assert forall|node: Seq<char>| #[trigger] apart(node) == other(node) by {}
    assert(apart =~= other);
    assert(in_no_range(nodes, ranges) == nodes.filter(apart));
}

proof fn lemma_trimmed_beside(text: Seq<char>, ch: char)
    requires
        is_whitespace(ch),
    ensures
        trimmed(seq![ch] + text) == trimmed(text),
        trimmed(text.push(ch)) == trimmed(text),
{
    let space = |ch: char| is_whitespace(ch);
    let part = trimmed(text);
    trimming_takes_away_whitespace(text);
    trimming_takes_away_whitespace(seq![ch] + text);
    trimming_takes_away_whitespace(text.push(ch));
    let (left, right) = choose|left: Seq<char>, right: Seq<char>|
        {
            &&& text == #[trigger] (left + part + right)
            &&& forall|i: int| 0 <= i < left.len() ==> space(#[trigger] left[i])
            &&& forall|i: int| 0 <= i < right.len() ==> space(#[trigger] right[i])
        };
    let before = seq![ch] + left;
    assert(seq![ch] + text =~= before + part + right);
    assert forall|i: int| 0 <= i < before.len() implies space(#[trigger] before[i]) by {
        if i > 0 {
            assert(before[i] == left[i - 1]);
        }
    }
    assert(is_middle(seq![ch] + text, part, space));
    middle_is_one(seq![ch] + text, part, trimmed(seq![ch] + text), space);
    let after = right.push(ch);
    assert(text.push(ch) =~= left + part + after);
    assert forall|i: int| 0 <= i < after.len() implies space(#[trigger] after[i]) by {
        if i < right.len() {
            assert(after[i] == right[i]);
        }
    }
    assert(is_middle(text.push(ch), part, space));
    middle_is_one(text.push(ch), part, trimmed(text.push(ch)), space);
}

proof fn lemma_first_piece(text: Seq<char>, ch: char, delimiter: Delimiter)
    requires
        !delimiter.cuts(ch),
    ensures
        pieces(text, delimiter).len() > 0,
        pieces(seq![ch] + text, delimiter) == pieces(text, delimiter).update(
            0,
            seq![ch] + pieces(text, delimiter)[0],
        ),
    decreases text.len(),
{
    let longer = seq![ch] + text;
    let cut = pieces(text, delimiter);
    let moved = cut.update(0, seq![ch] + cut[0]);
    if text.len() == 0 {
        assert(longer =~= seq![ch]);
        lemma_pieces_of_one(longer, delimiter);
        lemma_pieces_of_one(text, delimiter);
        assert(moved =~= seq![longer]);
    } else {
        let front = text.drop_last();
        lemma_first_piece(front, ch, delimiter);
        assert(longer.drop_last() =~= seq![ch] + front);
        let before = pieces(front, delimiter);
        if delimiter.cuts(text.last()) {
            assert(pieces(longer, delimiter) =~= moved);
        } else if before.len() == 1 {
            assert((seq![ch] + before[0]).push(text.last()) =~= seq![ch] + before[0].push(
                text.last(),
            ));
            assert(pieces(longer, delimiter) =~= moved);
        } else {
            assert(pieces(longer, delimiter) =~= moved);
        }
    }
}

proof fn lemma_parts_of_trimmed_start(text: Seq<char>)
    ensures
        pieces(trimmed_start(text), Delimiter::Char(',')).map_values(
            |part: Seq<char>| trimmed(part),
        ) == pieces(text, Delimiter::Char(',')).map_values(|part: Seq<char>| trimmed(part)),
    decreases text.len(),
{
    let comma = Delimiter::Char(',');
    let cut = |part: Seq<char>| trimmed(part);
    if text.len() > 0 && is_whitespace(text.first()) {
        let rest = text.drop_first();
        let ch = text.first();
        lemma_parts_of_trimmed_start(rest);
        lemma_first_piece(rest, ch, comma);
        lemma_trimmed_beside(pieces(rest, comma)[0], ch);
        assert(seq![ch] + rest =~= text);
        assert(pieces(text, comma).map_values(cut) =~= pieces(rest, comma).map_values(cut));
    }
}

proof fn lemma_parts_of_trimmed_end(text: Seq<char>)
    ensures
        pieces(drop_trailing(text, |ch: char| is_whitespace(ch)), Delimiter::Char(',')).map_values(
            |part: Seq<char>| trimmed(part),
        ) == pieces(text, Delimiter::Char(',')).map_values(|part: Seq<char>| trimmed(part)),
    decreases text.len(),
{
    let comma = Delimiter::Char(',');
    let cut = |part: Seq<char>| trimmed(part);
    if text.len() > 0 && is_whitespace(text.last()) {
        let front = text.drop_last();
        let before = pieces(front, comma);
        lemma_parts_of_trimmed_end(front);
        lemma_pieces_non_empty(front, comma);
        lemma_trimmed_beside(before.last(), text.last());
        assert(pieces(text, comma).map_values(cut) =~= before.map_values(cut));
    }
}

/// The keywords of a filter are the ranges that it gives a search, in lower case.
pub proof fn keywords_are_ranges_in_lower_case(filter: Seq<char>, configured: Seq<Seq<char>>)
    ensures
        filter_keywords(filter) == filter_ranges(Some(filter), configured).map_values(
            |range: Seq<char>| lowercase(range),
        ),
{
    lemma_parts_of_trimmed_start(filter);
    lemma_parts_of_trimmed_end(trimmed_start(filter));
}

/// A filter keeps a node, in its place, if and only if the name of the node holds one of the
/// parts of the filter between commas, whatever the case of either. Without a filter, and with
/// one of blank parts, all nodes stay.
pub proof fn filter_keeps_what_its_parts_name(
    nodes: Seq<Seq<char>>,
    filter: Seq<char>,
    configured: Seq<Seq<char>>,
)
    ensures
        filtered(nodes, None) == nodes,
        filter_ranges(Some(filter), configured).len() == 0 ==> filtered(nodes, Some(filter))
            == nodes,
        filter_ranges(Some(filter), configured).len() > 0 ==> filtered(nodes, Some(filter))
            == nodes.filter(
            |node: Seq<char>|
                exists|i: int|
                    0 <= i < filter_ranges(Some(filter), configured).len() && contains_text(
                        lowercase(node),
                        lowercase(#[trigger] filter_ranges(Some(filter), configured)[i]),
                    ),
        ),
{
    let ranges = filter_ranges(Some(filter), configured);
    let keywords = filter_keywords(filter);
    keywords_are_ranges_in_lower_case(filter, configured);
    if ranges.len() > 0 {
        if trimmed(filter).len() == 0 {
            let comma = Delimiter::Char(',');
            let none = Seq::<char>::empty();
            assert(trimmed(filter) =~= none);
            assert(pieces(none, comma) =~= seq![none]);
            trimming_again_changes_nothing(filter);
            lemma_kept_range(none);
            assert(keywords.len() == 0);
        }
        let named = |node: Seq<char>|
            exists|i: int|
                0 <= i < filter_ranges(Some(filter), configured).len() && contains_text(
                    lowercase(node),
                    lowercase(#[trigger] filter_ranges(Some(filter), configured)[i]),
                );
        let kept = |node: Seq<char>| contains_any(lowercase(node), keywords);
        assert forall|node: Seq<char>| #[trigger] named(node) == kept(node) by {
            if named(node) {
                let i = choose|i: int|
                    0 <= i < ranges.len() && contains_text(
                        lowercase(node),
                        lowercase(#[trigger] ranges[i]),
                    );
                assert(contains_text(lowercase(node), keywords[i]));
            }
            if kept(node) {
                let i = choose|i: int|
                    0 <= i < keywords.len() && contains_text(
                        lowercase(node),
                        #[trigger] keywords[i],
                    );
                assert(contains_text(lowercase(node), lowercase(ranges[i])));
            }
        }
        assert(named =~= kept);
    }
}

/// One keyword keeps a node, in its place, if and only if the name of the node holds it, whatever
/// the case of either and whatever whitespace stands around it.
pub proof fn keyword_keeps_what_it_names(nodes: Seq<Seq<char>>, keyword: Seq<char>)
    ensures
        lowercase(trimmed(keyword)).len() == 0 ==> fuzzy_matches(nodes, keyword) == nodes,
        lowercase(trimmed(keyword)).len() > 0 ==> fuzzy_matches(nodes, keyword) == nodes.filter(
            |node: Seq<char>| contains_text(lowercase(node), lowercase(trimmed(keyword))),
        ),
{
    let word = lowercase(trimmed(keyword));
    let named = |node: Seq<char>| contains_text(lowercase(node), lowercase(trimmed(keyword)));
    let kept = |node: Seq<char>| contains_any(lowercase(node), seq![word]);
    assert forall|node: Seq<char>| #[trigger] named(node) == kept(node) by {
        assert(seq![word][0] == word);
    }
    assert(named =~= kept);
}

/// A node is kept by the text in its place among the lowered names, whether or not other nodes
/// are.
pub proof fn lowered_names_decide(
    nodes: Seq<Seq<char>>,
    lowered: Seq<Seq<char>>,
    keywords: Seq<Seq<char>>,
    node: Seq<char>,
)
    ensures
        keyword_matches(Seq::empty(), lowered, keywords) == Seq::<Seq<char>>::empty(),
        (exists|i: int|
            0 <= i < keywords.len() && contains_text(
                lowered[nodes.len() as int],
                #[trigger] keywords[i],
            )) ==> keyword_matches(nodes.push(node), lowered, keywords) == keyword_matches(
            nodes,
            lowered,
            keywords,
        ).push(node),
        (forall|i: int|
            0 <= i < keywords.len() ==> !contains_text(
                lowered[nodes.len() as int],
                #[trigger] keywords[i],
            )) ==> keyword_matches(nodes.push(node), lowered, keywords) == keyword_matches(
            nodes,
            lowered,
            keywords,
        ),
{
    assert(nodes.push(node).drop_last() =~= nodes);
}

} // verus!
