//! Fuzzy matching with `neo_frizbee`.
use neo_frizbee::{match_list_indices, Config, Matcher};
use vstd::prelude::*;

use crate::ascending;
use crate::ascending::ascending_of;
use crate::select;
use crate::utf8;

verus! {

/// The score that `neo_frizbee::Matcher` gives `haystack` for `needle` with at most
/// `max_typos` typos, or nothing where it does not match.
pub uninterp spec fn frizbee_score(
    needle: Seq<char>,
    haystack: Seq<char>,
    max_typos: u16,
) -> Option<u16>;

/// The places of `text` that `neo_frizbee::match_list_indices` reports for `needle`
/// with at most `max_typos` typos, or nothing where it does not match.
pub uninterp spec fn frizbee_indices(
    needle: Seq<char>,
    text: Seq<char>,
    max_typos: u16,
) -> Option<Seq<usize>>;

/// The longest needle, in bytes, whose score cannot overflow.
pub const MAX_NEEDLE_BYTES: usize = 3275;

/// The longest haystack, in bytes, in which the cost of a gap cannot overflow.
pub const MAX_HAYSTACK_BYTES: usize = 65_533;

/// A haystack that is longer than this many bytes is matched greedily.
pub const GREEDY_HAYSTACK_BYTES: usize = 512;

/// The needle can be handed to the matcher: it is not empty, its score cannot
/// overflow, and fewer typos are allowed than it has bytes, one at most.
pub open spec fn needle_fits(needle: Seq<char>, max_typos: u16) -> bool {
    &&& 0 < utf8::utf8_len(needle) <= MAX_NEEDLE_BYTES
    &&& max_typos <= 1
    &&& max_typos < utf8::utf8_len(needle)
}

/// A haystack of `h` bytes can be matched against a needle of `n` bytes: the cost of a
/// gap cannot overflow, and the greedy match of a long haystack never has a needle
/// that is longer.
pub open spec fn haystack_fits(n: nat, h: nat, max_typos: u16) -> bool {
    &&& h <= MAX_HAYSTACK_BYTES
    &&& h <= GREEDY_HAYSTACK_BYTES || n <= GREEDY_HAYSTACK_BYTES || (max_typos == 1 && n <= h)
}

/// The longest needle that can be matched against a haystack of `h` bytes, with a typo
/// from four bytes on.
pub open spec fn needle_limit(h: nat) -> nat {
    if h > MAX_HAYSTACK_BYTES {
        0
    } else if h > GREEDY_HAYSTACK_BYTES && h < MAX_NEEDLE_BYTES {
        h
    } else {
        MAX_NEEDLE_BYTES as nat
    }
}

/// The matcher treats the needle alike on every machine. Of a needle of one byte, and
/// of one that holds the null character, the vector units and their plain
/// replacement differ in what they skip.
pub open spec fn is_portable(needle: Seq<char>) -> bool {
    utf8::utf8_len(needle) >= 2 && !needle.contains('\0')
}

/// The score that `r` reports for place `k`.
pub open spec fn score_at(r: Seq<(usize, u16)>, k: int) -> Option<u16> {
    if exists|i: int| 0 <= i < r.len() && #[trigger] r[i].0 == k {
        Some(r[choose|i: int| 0 <= i < r.len() && #[trigger] r[i].0 == k].1)
    } else {
        None
    }
}

/// The places of `r` ascend and lie below `n`.
pub open spec fn places_ascend(r: Seq<(usize, u16)>, n: int) -> bool {
    &&& forall|i: int| 0 <= i < r.len() ==> (#[trigger] r[i]).0 < n
    &&& forall|i: int, j: int| 0 <= i < j < r.len() ==> (#[trigger] r[i]).0 < (#[trigger] r[j]).0
}

/// `neo_frizbee::Matcher::match_iter`, with the default scoring and unsorted: the
/// haystacks that match, in their order, each with its place and its score. Whether a
/// haystack matches and with what score is fixed by the needle, that haystack and the
/// number of typos; for a needle that is not portable this is left unsaid, because it
/// depends on the machine.
#[verifier::external_body]
pub(crate) fn frizbee_scores(
    needle: &str,
    haystacks: &[&str],
    max_typos: u16,
) -> (r: Vec<(usize, u16)>)
    requires
        needle_fits(needle@, max_typos),
        haystacks@.len() <= u32::MAX,
        forall|k: int|
            0 <= k < haystacks@.len() ==> haystack_fits(
                utf8::utf8_len(needle@),
                utf8::utf8_len(#[trigger] haystacks@[k]@),
                max_typos,
            ),
    ensures
        places_ascend(r@, haystacks@.len() as int),
        is_portable(needle@) ==> forall|k: int|
            0 <= k < haystacks@.len() ==> #[trigger] score_at(r@, k) == frizbee_score(
                needle@,
                haystacks@[k]@,
                max_typos,
            ),
{
    let config = Config { max_typos: Some(max_typos), sort: false, ..Default::default() };
    Matcher::new(needle, &config).match_iter(haystacks).map(|m| (m.index as usize, m.score)).collect()
}

/// `neo_frizbee::match_list_indices` on one haystack, with the default scoring and
/// unsorted: the places of `text` that were matched, where it matches. They are fixed
/// by the needle, the text and the number of typos; for a needle that is not portable
/// this is left unsaid, because it depends on the machine.
#[verifier::external_body]
pub(crate) fn frizbee_alignment(needle: &str, text: &str, max_typos: u16) -> (r: Option<Vec<usize>>)
    requires
        needle_fits(needle@, max_typos),
        haystack_fits(utf8::utf8_len(needle@), utf8::utf8_len(text@), max_typos),
    ensures
        is_portable(needle@) ==> match r {
            Some(indices) => frizbee_indices(needle@, text@, max_typos) == Some(indices@),
            None => frizbee_indices(needle@, text@, max_typos) is None,
        },
{
    let config = Config { max_typos: Some(max_typos), sort: false, ..Default::default() };
    match_list_indices(needle, &[text], &config).pop().map(|m| m.indices)
}

/// What a report says of its own entries.
pub proof fn lemma_score_at(r: Seq<(usize, u16)>, n: int, i: int)
    requires
        places_ascend(r, n),
        0 <= i < r.len(),
    ensures
        score_at(r, r[i].0 as int) == Some(r[i].1),
{
    let k = r[i].0 as int;
    let j = choose|j: int| 0 <= j < r.len() && #[trigger] r[j].0 == k;
    assert(r[j].0 == k);
    if j < i {
        assert(r[j].0 < r[i].0);
    } else if i < j {
        assert(r[i].0 < r[j].0);
    }
}

/// What a report makes of place `k`.
pub open spec fn reported<V>(
    r: Seq<(usize, u16)>,
    item: spec_fn(int, u16) -> V,
) -> spec_fn(int) -> Option<V> {
    |k: int|
        match score_at(r, k) {
            Some(score) => Some(item(k, score)),
            None => None,
        }
}

/// Mapping the entries of a report is selecting the places that it scores.
pub proof fn lemma_reported<V>(r: Seq<(usize, u16)>, n: int, item: spec_fn(int, u16) -> V)
    requires
        n >= 0,
        places_ascend(r, n),
    ensures
        r.map_values(|e: (usize, u16)| item(e.0 as int, e.1)) == select::select(
            n,
            reported(r, item),
        ),
    decreases n,
{
    let f = |e: (usize, u16)| item(e.0 as int, e.1);
    if n == 0 {
        assert(r.len() == 0);
        assert(r.map_values(f) =~= Seq::empty());
    } else if r.len() > 0 && r.last().0 == n - 1 {
        let r1 = r.drop_last();
        assert forall|i: int| 0 <= i < r1.len() implies (#[trigger] r1[i]).0 < n - 1 by {
            assert(r[i].0 < r[r.len() - 1].0);
        }
        assert(places_ascend(r1, n - 1));
        lemma_reported(r1, n - 1, item);
        lemma_score_at(r, n, r.len() - 1);
        let g = reported(r, item);
        let g1 = reported(r1, item);
        assert forall|k: int| 0 <= k < n - 1 implies g(k) == #[trigger] g1(k) by {
            if exists|i: int| 0 <= i < r.len() && #[trigger] r[i].0 == k {
                let i = choose|i: int| 0 <= i < r.len() && #[trigger] r[i].0 == k;
                lemma_score_at(r, n, i);
                assert(r1[i] == r[i]);
                lemma_score_at(r1, n - 1, i);
            } else if exists|i: int| 0 <= i < r1.len() && #[trigger] r1[i].0 == k {
                let i = choose|i: int| 0 <= i < r1.len() && #[trigger] r1[i].0 == k;
                assert(r[i].0 == k);
            }
        }
        select::lemma_select_same(n - 1, g, g1);
        assert(r.map_values(f) =~= r1.map_values(f).push(item(n - 1, r.last().1)));
    } else {
        assert forall|i: int| 0 <= i < r.len() implies (#[trigger] r[i]).0 < n - 1 by {
            if i < r.len() - 1 {
                assert(r[i].0 < r[r.len() - 1].0);
            } else {
                assert(r[i] == r.last());
            }
        }
        assert(places_ascend(r, n - 1));
        assert(score_at(r, n - 1) is None) by {
            if exists|i: int| 0 <= i < r.len() && #[trigger] r[i].0 == n - 1 {
                let i = choose|i: int| 0 <= i < r.len() && #[trigger] r[i].0 == n - 1;
                assert(r[i].0 < n - 1);
            }
        }
        lemma_reported(r, n - 1, item);
    }
}

/// The scores of the places from which haystacks were chosen by `pre`, by what the
/// matcher reports of the haystacks.
pub open spec fn source_scores<C>(
    pre: spec_fn(int) -> Option<C>,
    report: Seq<(usize, u16)>,
) -> spec_fn(int) -> Option<u16> {
    |j: int| score_at(report, select::select(j, pre).len() as int)
}

/// What is chosen by `pre` and scored, with its score.
pub open spec fn scored_source<C, V>(
    pre: spec_fn(int) -> Option<C>,
    scores: spec_fn(int) -> Option<u16>,
    item: spec_fn(C, u16) -> V,
) -> spec_fn(int) -> Option<V> {
    |j: int|
        match (pre(j), scores(j)) {
            (Some(c), Some(score)) => Some(item(c, score)),
            _ => None,
        }
}

/// What the matcher reports of the haystacks that were sent to it is what is chosen and
/// scored at their sources.
pub proof fn lemma_report_of_sources<C, V>(
    n: int,
    pre: spec_fn(int) -> Option<C>,
    sent: Seq<C>,
    report: Seq<(usize, u16)>,
    item: spec_fn(C, u16) -> V,
)
    requires
        n >= 0,
        sent == select::select(n, pre),
        places_ascend(report, sent.len() as int),
    ensures
        report.map_values(|e: (usize, u16)| item(sent[e.0 as int], e.1)) == select::select(
            n,
            scored_source(pre, source_scores(pre, report), item),
        ),
{
    let at = |k: int, score: u16| item(sent[k], score);
    let g = reported(report, at);
    lemma_reported(report, sent.len() as int, at);
    assert(report.map_values(|e: (usize, u16)| at(e.0 as int, e.1)) =~= report.map_values(
        |e: (usize, u16)| item(sent[e.0 as int], e.1),
    ));
    select::lemma_select_again(n, pre, g);
    let h = |k: int|
        if pre(k) is Some {
            g(select::select(k, pre).len() as int)
        } else {
            None
        };
    let f = scored_source(pre, source_scores(pre, report), item);
    assert forall|j: int| 0 <= j < n implies h(j) == #[trigger] f(j) by {
        if pre(j) is Some {
            select::lemma_select_place(n, pre, j);
        }
    }
    select::lemma_select_same(n, h, f);
}

/// A report has at most one entry for each place.
pub proof fn lemma_report_len(report: Seq<(usize, u16)>, n: int)
    requires
        n >= 0,
        places_ascend(report, n),
    ensures
        report.len() <= n,
    decreases n,
{
    if report.len() > 0 {
        let last = report.len() - 1;
        let rest = report.drop_last();
        assert(report[last].0 < n);
        assert forall|i: int| 0 <= i < rest.len() implies (#[trigger] rest[i]).0 < n - 1 by {
            assert(report[i].0 < report[last].0);
        }
        lemma_report_len(rest, n - 1);
    }
}

/// The places to highlight for a fuzzy match are `r`: where the matcher aligns the
/// needle with the text, its places ascending; nothing otherwise.
pub open spec fn is_alignment(
    needle: Seq<char>,
    text: Seq<char>,
    max_typos: u16,
    r: Seq<usize>,
) -> bool {
    is_portable(needle) ==> match frizbee_indices(needle, text, max_typos) {
        Some(indices) => ascending::is_ascending_of(r, indices),
        None => r.len() == 0,
    }
}

/// What is highlighted of the places that the matcher reported.
pub fn alignment_places(matched: Option<Vec<usize>>) -> (r: Vec<usize>)
    ensures
        match matched {
            Some(indices) => ascending::is_ascending_of(r@, indices@),
            None => r@.len() == 0,
        },
{
    match matched {
        Some(indices) => ascending_of(&indices),
        None => Vec::new(),
    }
}

/// The places of `text` to highlight for a fuzzy match of the query.
pub fn frizbee_match_indices(query_lower: &str, text: &str, max_typos: u16) -> (r: Vec<usize>)
    requires
        needle_fits(query_lower@, max_typos),
        haystack_fits(utf8::utf8_len(query_lower@), utf8::utf8_len(text@), max_typos),
    ensures
        is_alignment(query_lower@, text@, max_typos, r@),
{
    alignment_places(frizbee_alignment(query_lower, text, max_typos))
}

} // verus!
