//! Laws of what is found in a text.
use vstd::prelude::*;
use vstd::string::*;

use crate::extract;
use crate::laws;
use crate::model;
use crate::model::IndexModel;
use crate::ranking::CompletionKind;
use crate::select;
use crate::text;
use crate::utf8;

verus! {

/// `c` belongs to a word: it is alphanumeric, an underscore or a hyphen.
pub open spec fn in_word(c: char) -> bool {
    text::char_is_alphanumeric(c) || c == '_' || c == '-'
}

/// The characters of `s` from `i` up to but not including `j` are a word of it: a longest
/// stretch of characters that belong to words.
pub open spec fn is_word_of(s: Seq<char>, i: int, j: int) -> bool {
    &&& 0 <= i < j <= s.len()
    &&& forall|k: int| i <= k < j ==> in_word(#[trigger] s[k])
    &&& i > 0 ==> !in_word(s[i - 1])
    &&& j < s.len() ==> !in_word(s[j])
}

/// The characters of `s` from `i` up to but not including `j` are a token of it: a longest
/// stretch without whitespace.
pub open spec fn is_token_of(s: Seq<char>, i: int, j: int) -> bool {
    &&& 0 <= i < j <= s.len()
    &&& forall|k: int| i <= k < j ==> !text::char_is_whitespace(#[trigger] s[k])
    &&& i > 0 ==> text::char_is_whitespace(s[i - 1])
    &&& j < s.len() ==> text::char_is_whitespace(s[j])
}

/// The word is offered as a completion: it has at least two characters, and one that is not
/// an ASCII digit.
pub open spec fn is_offered_word(w: Seq<char>) -> bool {
    w.len() >= 2 && exists|k: int| 0 <= k < w.len() && !('0' <= #[trigger] w[k] <= '9')
}

/// The stretch is a longest one of characters with the property.
spec fn is_stretch(s: Seq<char>, p: spec_fn(char) -> bool, i: int, j: int) -> bool {
    &&& 0 <= i < j <= s.len()
    &&& forall|k: int| i <= k < j ==> p(#[trigger] s[k])
    &&& i > 0 ==> !p(s[i - 1])
    &&& j < s.len() ==> !p(s[j])
}

/// A stretch behind the first `n` characters is one of the rest.
proof fn lemma_stretch_behind(s: Seq<char>, p: spec_fn(char) -> bool, i: int, j: int, n: int)
    requires
        is_stretch(s, p, i, j),
        0 <= n <= i,
    ensures
        is_stretch(s.skip(n), p, i - n, j - n),
        s.skip(n).subrange(i - n, j - n) == s.subrange(i, j),
{
    let t = s.skip(n);
    assert forall|k: int| i - n <= k < j - n implies p(#[trigger] t[k]) by {
        assert(t[k] == s[k + n]);
    }
    assert(t.subrange(i - n, j - n) =~= s.subrange(i, j));
}

/// Every stretch is among the runs.
proof fn lemma_stretch_is_run(s: Seq<char>, p: spec_fn(char) -> bool, i: int, j: int) -> (r: int)
    requires
        is_stretch(s, p, i, j),
    ensures
        0 <= r < extract::runs(s, p).len(),
        extract::runs(s, p)[r] == s.subrange(i, j),
    decreases s.len(),
{
    if !p(s[0]) {
        lemma_stretch_behind(s, p, i, j, 1);
        assert(s.skip(1) =~= s.drop_first());
        lemma_stretch_is_run(s.drop_first(), p, i - 1, j - 1)
    } else {
        let n = text::head_len(s, p) as int;
        text::lemma_head_len(s, p);
        if i == 0 {
            text::lemma_head_is(s, p, j);
            assert(s.take(j) =~= s.subrange(0, j));
            0
        } else {
            assert(i > n) by {
                if i <= n {
                    assert(p(s[i - 1]));
                }
            }
            lemma_stretch_behind(s, p, i, j, n);
            let r = lemma_stretch_is_run(s.skip(n), p, i - n, j - n);
            let first = seq![s.take(n)];
            assert((first + extract::runs(s.skip(n), p))[r + 1] == extract::runs(s.skip(n), p)[r]);
            r + 1
        }
    }
}

/// Stretches are among the runs in their order.
proof fn lemma_stretches_in_order(
    s: Seq<char>,
    p: spec_fn(char) -> bool,
    i: int,
    j: int,
    k: int,
    l: int,
) -> (r: (int, int))
    requires
        is_stretch(s, p, i, j),
        is_stretch(s, p, k, l),
        j <= k,
    ensures
        0 <= r.0 < r.1 < extract::runs(s, p).len(),
        extract::runs(s, p)[r.0] == s.subrange(i, j),
        extract::runs(s, p)[r.1] == s.subrange(k, l),
    decreases s.len(),
{
    if !p(s[0]) {
        lemma_stretch_behind(s, p, i, j, 1);
        lemma_stretch_behind(s, p, k, l, 1);
        assert(s.skip(1) =~= s.drop_first());
        lemma_stretches_in_order(s.drop_first(), p, i - 1, j - 1, k - 1, l - 1)
    } else {
        let n = text::head_len(s, p) as int;
        text::lemma_head_len(s, p);
        let first = seq![s.take(n)];
        let rest = extract::runs(s.skip(n), p);
        if i == 0 {
            text::lemma_head_is(s, p, j);
            assert(s.take(j) =~= s.subrange(0, j));
            lemma_stretch_behind(s, p, k, l, n);
            let r = lemma_stretch_is_run(s.skip(n), p, k - n, l - n);
            assert((first + rest)[r + 1] == rest[r]);
            (0, r + 1)
        } else {
            assert(i > n) by {
                if i <= n {
                    assert(p(s[i - 1]));
                }
            }
            lemma_stretch_behind(s, p, i, j, n);
            lemma_stretch_behind(s, p, k, l, n);
            let r = lemma_stretches_in_order(s.skip(n), p, i - n, j - n, k - n, l - n);
            assert((first + rest)[r.0 + 1] == rest[r.0]);
            assert((first + rest)[r.1 + 1] == rest[r.1]);
            (r.0 + 1, r.1 + 1)
        }
    }
}

/// A word of the text is a stretch, and what is offered of it is the word.
proof fn lemma_word(s: Seq<char>, i: int, j: int)
    requires
        is_word_of(s, i, j),
        is_offered_word(s.subrange(i, j)),
    ensures
        is_stretch(s, extract::word_chars(), i, j),
        extract::word_candidate(s.subrange(i, j)) == Some(
            (s.subrange(i, j), CompletionKind::Word),
        ),
{
    let p = extract::word_chars();
    assert forall|k: int| i <= k < j implies p(#[trigger] s[k]) by {
        assert(in_word(s[k]));
    }
    let w = s.subrange(i, j);
    let k = choose|k: int| 0 <= k < w.len() && !('0' <= #[trigger] w[k] <= '9');
    assert(!text::is_digit(w[k]));
}

/// Every word of a text is found: each longest stretch of alphanumeric characters, underscores
/// and hyphens, whatever it begins with, that has at least two characters and is not all
/// digits.
pub proof fn law_every_word_is_found(s: Seq<char>, i: int, j: int)
    requires
        is_word_of(s, i, j),
        is_offered_word(s.subrange(i, j)),
    ensures
        extract::text_candidates(s).contains((s.subrange(i, j), CompletionKind::Word)),
{
    let p = extract::word_chars();
    let all = extract::runs(s, p);
    let f = |r: int| extract::word_candidate(extract::runs(s, extract::word_chars())[r]);
    let words = extract::word_candidates(s);
    let tokens = extract::token_candidates(s);
    lemma_word(s, i, j);
    let r = lemma_stretch_is_run(s, p, i, j);
    assert(f(r) is Some);
    select::lemma_select_place(all.len() as int, f, r);
    let at = select::select(r, f).len() as int;
    assert((tokens + words)[tokens.len() + at] == words[at]);
}

/// Nothing but the words of a text is found as words, each no more often than it stands there:
/// what is found as a word is a word of the text that is offered.
pub proof fn law_only_words_are_found(s: Seq<char>, n: int)
    requires
        0 <= n < extract::text_candidates(s).len(),
        extract::text_candidates(s)[n].1 == CompletionKind::Word,
    ensures
        is_offered_word(extract::text_candidates(s)[n].0),
        exists|i: int, j: int|
            #![trigger s.subrange(i, j)]
            is_word_of(s, i, j) && extract::text_candidates(s)[n].0 == s.subrange(i, j),
{
    let p = extract::word_chars();
    let words = extract::word_candidates(s);
    let tokens = extract::token_candidates(s);
    let x = extract::text_candidates(s)[n];
    let f = |r: int| extract::word_candidate(extract::runs(s, extract::word_chars())[r]);
    laws::law_text_candidates(s, n);
    if n < tokens.len() {
        lemma_tokens_are_no_words(s, n);
    }
    assert(words[n - tokens.len()] == x);
    assert(words.contains(x));
    let r = select::lemma_select_source(extract::runs(s, p).len() as int, f, x);
    let (i, j) = lemma_run_is_stretch(s, p, r);
    assert forall|k: int| i <= k < j implies in_word(#[trigger] s[k]) by {
        assert(p(s[k]));
    }
    assert(is_word_of(s, i, j));
    assert(s.subrange(i, j) == x.0);
    assert(!text::all_digits(x.0));
    let k = choose|k: int| 0 <= k < x.0.len() && !text::is_digit(#[trigger] x.0[k]);
    assert(!('0' <= x.0[k] <= '9'));
}

/// Every run is a stretch.
proof fn lemma_run_is_stretch(s: Seq<char>, p: spec_fn(char) -> bool, r: int) -> (at: (int, int))
    requires
        0 <= r < extract::runs(s, p).len(),
    ensures
        is_stretch(s, p, at.0, at.1),
        extract::runs(s, p)[r] == s.subrange(at.0, at.1),
    decreases s.len(),
{
    if !p(s[0]) {
        let t = s.drop_first();
        let (i, j) = lemma_run_is_stretch(t, p, r);
        assert forall|k: int| i + 1 <= k < j + 1 implies p(#[trigger] s[k]) by {
            assert(t[k - 1] == s[k]);
        }
        assert(t.subrange(i, j) =~= s.subrange(i + 1, j + 1));
        if i > 0 {
            assert(t[i - 1] == s[i]);
        }
        if j < t.len() {
            assert(t[j] == s[j + 1]);
        }
        (i + 1, j + 1)
    } else {
        let n = text::head_len(s, p) as int;
        text::lemma_head_len(s, p);
        let first = seq![s.take(n)];
        let rest = extract::runs(s.skip(n), p);
        assert(0 < n <= s.len());
        if r == 0 {
            assert((first + rest)[0] == s.take(n));
            assert(s.take(n) =~= s.subrange(0, n));
            (0, n)
        } else {
            let t = s.skip(n);
            assert((first + rest)[r] == rest[r - 1]);
            let (i, j) = lemma_run_is_stretch(t, p, r - 1);
            assert(i > 0) by {
                if i == 0 {
                    assert(p(t[0]));
                    assert(t[0] == s[n]);
                }
            }
            assert forall|k: int| i + n <= k < j + n implies p(#[trigger] s[k]) by {
                assert(t[k - n] == s[k]);
            }
            assert(t.subrange(i, j) =~= s.subrange(i + n, j + n));
            assert(t[i - 1] == s[i + n - 1]);
            if j < t.len() {
                assert(t[j] == s[j + n]);
            }
            (i + n, j + n)
        }
    }
}

/// What is found by its token is no word.
proof fn lemma_tokens_are_no_words(s: Seq<char>, n: int)
    requires
        0 <= n < extract::token_candidates(s).len(),
    ensures
        extract::token_candidates(s)[n].1 == CompletionKind::Url
            || extract::token_candidates(s)[n].1 == CompletionKind::Filename,
{
    let x = extract::token_candidates(s)[n];
    let f = |r: int| extract::token_candidate(extract::runs(s, extract::token_chars())[r]);
    assert(extract::token_candidates(s).contains(x));
    let r = select::lemma_select_source(
        extract::runs(s, extract::token_chars()).len() as int,
        f,
        x,
    );
}

/// The words are found in the order in which they stand in the text, so that the last of them
/// is the one that was seen last.
pub proof fn law_words_are_found_in_order(s: Seq<char>, i: int, j: int, k: int, l: int)
    requires
        is_word_of(s, i, j),
        is_offered_word(s.subrange(i, j)),
        is_word_of(s, k, l),
        is_offered_word(s.subrange(k, l)),
        j <= k,
    ensures
        exists|a: int, b: int|
            #![trigger extract::text_candidates(s)[a], extract::text_candidates(s)[b]]
            0 <= a < b < extract::text_candidates(s).len() && extract::text_candidates(s)[a] == (
                s.subrange(i, j),
                CompletionKind::Word,
            ) && extract::text_candidates(s)[b] == (s.subrange(k, l), CompletionKind::Word),
{
    let p = extract::word_chars();
    let all = extract::runs(s, p);
    let n = all.len() as int;
    let f = |r: int| extract::word_candidate(extract::runs(s, extract::word_chars())[r]);
    let words = extract::word_candidates(s);
    let tokens = extract::token_candidates(s);
    lemma_word(s, i, j);
    lemma_word(s, k, l);
    let (x, y) = lemma_stretches_in_order(s, p, i, j, k, l);
    assert(f(x) is Some);
    assert(f(y) is Some);
    select::lemma_select_place(n, f, x);
    select::lemma_select_place(n, f, y);
    select::lemma_select_place(y, f, x);
    let a = tokens.len() + select::select(x, f).len() as int;
    let b = tokens.len() + select::select(y, f).len() as int;
    assert(extract::text_candidates(s)[a] == words[a - tokens.len()]);
    assert(extract::text_candidates(s)[b] == words[b - tokens.len()]);
}

/// What a token stands for is found for every token of the text, before all of its words.
pub proof fn law_every_token_is_read(s: Seq<char>, i: int, j: int)
    requires
        is_token_of(s, i, j),
        extract::token_candidate(s.subrange(i, j)) is Some,
    ensures
        extract::text_candidates(s).contains(extract::token_candidate(s.subrange(i, j))->0),
{
    let p = extract::token_chars();
    let all = extract::runs(s, p);
    let f = |r: int| extract::token_candidate(extract::runs(s, extract::token_chars())[r]);
    let words = extract::word_candidates(s);
    let tokens = extract::token_candidates(s);
    assert forall|k: int| i <= k < j implies p(#[trigger] s[k]) by {
        assert(!text::char_is_whitespace(s[k]));
    }
    let r = lemma_stretch_is_run(s, p, i, j);
    select::lemma_select_place(all.len() as int, f, r);
    let at = select::select(r, f).len() as int;
    assert((tokens + words)[at] == tokens[at]);
}

/// The words of a text come behind its web addresses and filenames.
pub proof fn law_words_come_last(s: Seq<char>, a: int, b: int)
    requires
        0 <= a < b < extract::text_candidates(s).len(),
        extract::text_candidates(s)[a].1 == CompletionKind::Word,
    ensures
        extract::text_candidates(s)[b].1 == CompletionKind::Word,
{
    let words = extract::word_candidates(s);
    let tokens = extract::token_candidates(s);
    if a < tokens.len() {
        lemma_tokens_are_no_words(s, a);
        assert(extract::text_candidates(s)[a] == tokens[a]);
    }
    let x = words[b - tokens.len()];
    assert(words.contains(x));
    let f = |r: int| extract::word_candidate(extract::runs(s, extract::word_chars())[r]);
    let r = select::lemma_select_source(
        extract::runs(s, extract::word_chars()).len() as int,
        f,
        x,
    );
}

/// `c` may stand around a token: a quotation mark, a bracket, a comma or a semicolon.
pub open spec fn may_surround(c: char) -> bool {
    "\"'`()[]{}<>,;"@.contains(c)
}

/// `c` may stand behind a token: a full stop, a comma, a colon, a semicolon, a closing bracket
/// or a quotation mark.
pub open spec fn may_follow(c: char) -> bool {
    ".,;:)]}>\"'"@.contains(c)
}

/// The token has no punctuation around it.
pub open spec fn is_bare(t: Seq<char>) -> bool {
    &&& t.len() > 0
    &&& !may_surround(t[0])
    &&& !may_surround(t.last())
    &&& !may_follow(t.last())
}

/// Membership in a list of characters.
proof fn lemma_punctuation(c: char)
    ensures
        extract::outer_punctuation(c) <==> may_surround(c),
        extract::trailing_punctuation(c) <==> may_follow(c),
{
    reveal_strlit("\"'`()[]{}<>,;");
    reveal_strlit(".,;:)]}>\"'");
    let a = "\"'`()[]{}<>,;"@;
    let b = ".,;:)]}>\"'"@;
    assert(a[0] == '"' && a[1] == '\'' && a[2] == '`' && a[3] == '(' && a[4] == ')' && a[5] == '['
        && a[6] == ']' && a[7] == '{' && a[8] == '}' && a[9] == '<' && a[10] == '>' && a[11] == ','
        && a[12] == ';' && a.len() == 13);
    assert(b[0] == '.' && b[1] == ',' && b[2] == ';' && b[3] == ':' && b[4] == ')' && b[5] == ']'
        && b[6] == '}' && b[7] == '>' && b[8] == '"' && b[9] == '\'' && b.len() == 10);
}

/// The end of a text is as long as the characters behind the last one without the property.
pub(crate) proof fn lemma_tail_is(s: Seq<char>, p: spec_fn(char) -> bool, n: int)
    requires
        0 <= n <= s.len(),
        forall|i: int| s.len() - n <= i < s.len() ==> p(#[trigger] s[i]),
        n < s.len() ==> !p(s[s.len() - n - 1]),
    ensures
        text::tail_len(s, p) == n,
{
    let m = text::tail_len(s, p) as int;
    text::lemma_tail_len(s, p);
    if m < n {
        assert(p(s[s.len() - m - 1]));
    } else if n < m {
        assert(p(s[s.len() - n - 1]));
    }
}

/// A token without punctuation around it is itself.
proof fn lemma_bare_is_itself(t: Seq<char>)
    requires
        is_bare(t),
    ensures
        extract::bare_token(t) == t,
{
    let p = |c: char| extract::outer_punctuation(c);
    let q = |c: char| extract::trailing_punctuation(c);
    lemma_punctuation(t[0]);
    lemma_punctuation(t.last());
    text::lemma_head_is(t, p, 0);
    assert(t.skip(0) =~= t);
    lemma_tail_is(t, p, 0);
    assert(t.take(t.len() as int) =~= t);
    lemma_tail_is(t, q, 0);
}

/// Punctuation around a token changes nothing about what the token stands for: quotation marks
/// and brackets before it, what ends a clause behind it, and quotation marks and brackets
/// behind that.
pub proof fn law_punctuation_does_not_matter(
    before: Seq<char>,
    t: Seq<char>,
    behind: Seq<char>,
    last: Seq<char>,
)
    requires
        is_bare(t),
        forall|k: int| 0 <= k < before.len() ==> may_surround(#[trigger] before[k]),
        forall|k: int| 0 <= k < behind.len() ==> may_follow(#[trigger] behind[k]),
        forall|k: int| 0 <= k < last.len() ==> may_surround(#[trigger] last[k]),
    ensures
        extract::token_candidate(before + t + behind + last) == extract::token_candidate(t),
{
    let p = |c: char| extract::outer_punctuation(c);
    let q = |c: char| extract::trailing_punctuation(c);
    let raw = before + t + behind + last;
    let n = before.len() as int;
    lemma_bare_is_itself(t);
    lemma_punctuation(t[0]);
    lemma_punctuation(t.last());
    assert forall|k: int| 0 <= k < n implies p(#[trigger] raw[k]) by {
        assert(raw[k] == before[k]);
        lemma_punctuation(before[k]);
    }
    assert(raw[n] == t[0]);
    text::lemma_head_is(raw, p, n);
    let a = raw.skip(n);
    assert(a =~= t + behind + last);
    let cut = text::tail_len(a, p) as int;
    text::lemma_tail_len(a, p);
    assert(cut <= behind.len() + last.len()) by {
        if cut > behind.len() + last.len() {
            assert(p(a[t.len() - 1]));
            assert(a[t.len() - 1] == t.last());
        }
    }
    assert(cut >= last.len()) by {
        if cut < last.len() {
            assert(a[a.len() - cut - 1] == last[last.len() - cut - 1]);
            lemma_punctuation(last[last.len() - cut - 1]);
        }
    }
    let b = a.take(a.len() - cut);
    let left = b.len() - t.len();
    assert forall|k: int| b.len() - left <= k < b.len() implies q(#[trigger] b[k]) by {
        assert(b[k] == behind[k - t.len()]);
        lemma_punctuation(behind[k - t.len()]);
    }
    assert(b[b.len() - left - 1] == t.last());
    lemma_tail_is(b, q, left);
    assert(b.take(t.len() as int) =~= t);
}

/// The scheme stands in the token at `j`, and not before.
pub open spec fn has_scheme_at(t: Seq<char>, scheme: Seq<char>, j: int) -> bool {
    &&& 0 <= j
    &&& j + scheme.len() <= t.len()
    &&& t.subrange(j, j + scheme.len()) == scheme
    &&& forall|k: int| 0 <= k < j ==> #[trigger] t.subrange(k, k + scheme.len()) != scheme
}

/// The scheme does not stand in the token.
pub open spec fn has_no_scheme(t: Seq<char>, scheme: Seq<char>) -> bool {
    forall|k: int|
        0 <= k && k + scheme.len() <= t.len() ==> #[trigger] t.subrange(k, k + scheme.len())
            != scheme
}

/// The token holds no web address.
pub open spec fn is_no_address(t: Seq<char>) -> bool {
    has_no_scheme(t, "https://"@) && has_no_scheme(t, "http://"@)
}

proof fn lemma_scheme_at(t: Seq<char>, scheme: Seq<char>, j: int)
    requires
        has_scheme_at(t, scheme, j),
        scheme.len() > 0,
    ensures
        utf8::contains_text(t, scheme),
        utf8::first_occurrence(t, scheme) == j,
{
    assert(utf8::occurs_at(t, scheme, j));
    assert forall|k: int| 0 <= k < j implies !utf8::occurs_at(t, scheme, k) by {
        assert(t.subrange(k, k + scheme.len()) != scheme);
    }
    utf8::lemma_first_occurrence_is(t, scheme, j);
}

proof fn lemma_no_scheme(t: Seq<char>, scheme: Seq<char>)
    requires
        has_no_scheme(t, scheme),
    ensures
        !utf8::contains_text(t, scheme),
{
    if utf8::contains_text(t, scheme) {
        let k = choose|k: int| utf8::occurs_at(t, scheme, k);
        assert(t.subrange(k, k + scheme.len()) == scheme);
    }
}

/// A token that holds a web address stands for the address: all from its scheme on.
pub proof fn law_web_address_is_found(t: Seq<char>, j: int)
    requires
        is_bare(t),
        has_scheme_at(t, "https://"@, j) || (has_no_scheme(t, "https://"@) && has_scheme_at(
            t,
            "http://"@,
            j,
        )),
    ensures
        extract::token_candidate(t) == Some((t.skip(j), CompletionKind::Url)),
{
    reveal_strlit("https://");
    reveal_strlit("http://");
    lemma_bare_is_itself(t);
    if has_scheme_at(t, "https://"@, j) {
        lemma_scheme_at(t, "https://"@, j);
    } else {
        lemma_no_scheme(t, "https://"@);
        lemma_scheme_at(t, "http://"@, j);
    }
    let url = t.skip(j);
    let q = |c: char| extract::trailing_punctuation(c);
    lemma_punctuation(t.last());
    assert(url.last() == t.last());
    lemma_tail_is(url, q, 0);
    assert(url.take(url.len() as int) =~= url);
}

/// `s` with its ASCII letters in lower case.
pub open spec fn in_lower_case(s: Seq<char>) -> Seq<char> {
    s.map_values(
        |c: char|
            if 'A' <= c <= 'Z' {
                (c as int + 32) as char
            } else {
                c
            },
    )
}

/// `s` is the extension of a kind of file that is told by it.
#[verifier::opaque]
pub open spec fn names_a_kind_of_file(s: Seq<char>) -> bool {
    ||| s == "bash"@ || s == "bazel"@ || s == "c"@ || s == "cc"@
    ||| s == "cfg"@ || s == "conf"@ || s == "cpp"@ || s == "css"@
    ||| s == "csv"@ || s == "cts"@ || s == "go"@ || s == "h"@
    ||| s == "hpp"@ || s == "html"@ || s == "java"@ || s == "js"@
    ||| s == "json"@ || s == "jsx"@ || s == "lock"@ || s == "log"@
    ||| s == "lua"@ || s == "md"@ || s == "mdx"@ || s == "mjs"@
    ||| s == "mts"@ || s == "proto"@ || s == "py"@ || s == "rb"@
    ||| s == "rs"@ || s == "scss"@ || s == "sh"@ || s == "sql"@
    ||| s == "swift"@ || s == "toml"@ || s == "ts"@ || s == "tsx"@
    ||| s == "txt"@ || s == "xml"@ || s == "yaml"@ || s == "yml"@
    ||| s == "zsh"@
}

/// The known extensions are these, in upper and lower case.
pub proof fn law_known_extensions(s: Seq<char>)
    ensures
        extract::is_extension(s) <==> names_a_kind_of_file(in_lower_case(s)),
{
    reveal(names_a_kind_of_file);
    reveal_strlit("bash");
    reveal_strlit("bazel");
    reveal_strlit("c");
    reveal_strlit("cc");
    reveal_strlit("cfg");
    reveal_strlit("conf");
    reveal_strlit("cpp");
    reveal_strlit("css");
    reveal_strlit("csv");
    reveal_strlit("cts");
    reveal_strlit("go");
    reveal_strlit("h");
    reveal_strlit("hpp");
    reveal_strlit("html");
    reveal_strlit("java");
    reveal_strlit("js");
    reveal_strlit("json");
    reveal_strlit("jsx");
    reveal_strlit("lock");
    reveal_strlit("log");
    reveal_strlit("lua");
    reveal_strlit("md");
    reveal_strlit("mdx");
    reveal_strlit("mjs");
    reveal_strlit("mts");
    reveal_strlit("proto");
    reveal_strlit("py");
    reveal_strlit("rb");
    reveal_strlit("rs");
    reveal_strlit("scss");
    reveal_strlit("sh");
    reveal_strlit("sql");
    reveal_strlit("swift");
    reveal_strlit("toml");
    reveal_strlit("ts");
    reveal_strlit("tsx");
    reveal_strlit("txt");
    reveal_strlit("xml");
    reveal_strlit("yaml");
    reveal_strlit("yml");
    reveal_strlit("zsh");
    let known = extract::known_extensions();
    let low = in_lower_case(s);
    assert forall|k: int| 0 <= k < known.len() implies (extract::eq_ignoring_case(
        s,
        #[trigger] known[k],
    ) <==> low == known[k]) by {
        lemma_extension_is_lower(k);
        let x = known[k];
        if extract::eq_ignoring_case(s, x) {
            assert forall|n: int| 0 <= n < s.len() implies low[n] == x[n] by {
                assert(text::ascii_lower(s[n]) == text::ascii_lower(x[n]));
            }
            assert(low =~= x);
        }
        if low == x {
            assert forall|n: int| 0 <= n < s.len() implies text::ascii_lower(#[trigger] s[n])
                == text::ascii_lower(x[n]) by {
                assert(low[n] == x[n]);
            }
        }
    }
    assert(known.len() == 41);
    if names_a_kind_of_file(low) {
        let k = lemma_extension_is_listed(low);
        assert(extract::eq_ignoring_case(s, known[k]));
    }
    if extract::is_extension(s) {
        let k = choose|k: int|
            0 <= k < known.len() && extract::eq_ignoring_case(s, #[trigger] known[k]);
        assert(low == known[k]);
        lemma_listed_is_extension(k);
    }
}

/// The extensions are listed in lower case.
proof fn lemma_extension_is_lower(k: int)
    requires
        0 <= k < 41,
    ensures
        forall|n: int|
            0 <= n < extract::known_extensions()[k].len() ==> text::ascii_lower(
                #[trigger] extract::known_extensions()[k][n],
            ) == extract::known_extensions()[k][n],
{
    reveal_strlit("bash");
    reveal_strlit("bazel");
    reveal_strlit("c");
    reveal_strlit("cc");
    reveal_strlit("cfg");
    reveal_strlit("conf");
    reveal_strlit("cpp");
    reveal_strlit("css");
    reveal_strlit("csv");
    reveal_strlit("cts");
    reveal_strlit("go");
    reveal_strlit("h");
    reveal_strlit("hpp");
    reveal_strlit("html");
    reveal_strlit("java");
    reveal_strlit("js");
    reveal_strlit("json");
    reveal_strlit("jsx");
    reveal_strlit("lock");
    reveal_strlit("log");
    reveal_strlit("lua");
    reveal_strlit("md");
    reveal_strlit("mdx");
    reveal_strlit("mjs");
    reveal_strlit("mts");
    reveal_strlit("proto");
    reveal_strlit("py");
    reveal_strlit("rb");
    reveal_strlit("rs");
    reveal_strlit("scss");
    reveal_strlit("sh");
    reveal_strlit("sql");
    reveal_strlit("swift");
    reveal_strlit("toml");
    reveal_strlit("ts");
    reveal_strlit("tsx");
    reveal_strlit("txt");
    reveal_strlit("xml");
    reveal_strlit("yaml");
    reveal_strlit("yml");
    reveal_strlit("zsh");
}

/// Each of them is in the list.
proof fn lemma_extension_is_listed(s: Seq<char>) -> (k: int)
    requires
        names_a_kind_of_file(s),
    ensures
        0 <= k < extract::known_extensions().len(),
        extract::known_extensions()[k] == s,
{
    reveal(names_a_kind_of_file);
    let known = extract::known_extensions();
    assert(known[0] == "bash"@);
    assert(known[1] == "bazel"@);
    assert(known[2] == "c"@);
    assert(known[3] == "cc"@);
    assert(known[4] == "cfg"@);
    assert(known[5] == "conf"@);
    assert(known[6] == "cpp"@);
    assert(known[7] == "css"@);
    assert(known[8] == "csv"@);
    assert(known[9] == "cts"@);
    assert(known[10] == "go"@);
    assert(known[11] == "h"@);
    assert(known[12] == "hpp"@);
    assert(known[13] == "html"@);
    assert(known[14] == "java"@);
    assert(known[15] == "js"@);
    assert(known[16] == "json"@);
    assert(known[17] == "jsx"@);
    assert(known[18] == "lock"@);
    assert(known[19] == "log"@);
    assert(known[20] == "lua"@);
    assert(known[21] == "md"@);
    assert(known[22] == "mdx"@);
    assert(known[23] == "mjs"@);
    assert(known[24] == "mts"@);
    assert(known[25] == "proto"@);
    assert(known[26] == "py"@);
    assert(known[27] == "rb"@);
    assert(known[28] == "rs"@);
    assert(known[29] == "scss"@);
    assert(known[30] == "sh"@);
    assert(known[31] == "sql"@);
    assert(known[32] == "swift"@);
    assert(known[33] == "toml"@);
    assert(known[34] == "ts"@);
    assert(known[35] == "tsx"@);
    assert(known[36] == "txt"@);
    assert(known[37] == "xml"@);
    assert(known[38] == "yaml"@);
    assert(known[39] == "yml"@);
    assert(known[40] == "zsh"@);
    choose|k: int| 0 <= k < known.len() && known[k] == s
}

/// The list has no others.
proof fn lemma_listed_is_extension(k: int)
    requires
        0 <= k < extract::known_extensions().len(),
    ensures
        names_a_kind_of_file(extract::known_extensions()[k]),
{
    reveal(names_a_kind_of_file);
}

/// `name` is the name of a file: a stem that does not begin with a dot and has something
/// alphanumeric in it, a dot, and a known extension without a dot; and no separators.
pub open spec fn is_file_name(name: Seq<char>, stem: Seq<char>, extension: Seq<char>) -> bool {
    &&& name == stem + seq!['.'] + extension
    &&& stem.len() > 0 && stem[0] != '.'
    &&& exists|k: int| 0 <= k < stem.len() && text::char_is_alphanumeric(#[trigger] stem[k])
    &&& !extension.contains('.')
    &&& names_a_kind_of_file(in_lower_case(extension))
    &&& !name.contains('/') && !name.contains('\\')
}

/// What is told as a filename is the name of a file.
proof fn lemma_file_name(name: Seq<char>, stem: Seq<char>, extension: Seq<char>)
    requires
        is_file_name(name, stem, extension),
    ensures
        extract::is_filename_like(name),
{
    let p = |c: char| c != '.';
    let n = extension.len() as int;
    law_known_extensions(extension);
    assert(name[stem.len() as int] == '.');
    assert forall|k: int| name.len() - n <= k < name.len() implies p(#[trigger] name[k]) by {
        assert(name[k] == extension[k - stem.len() - 1]);
        assert(extension.contains(name[k]));
    }
    lemma_tail_is(name, p, n);
    assert(extract::after_dot(name) =~= extension);
    assert(extract::before_dot(name) =~= stem);
    assert(name[0] == stem[0]);
}

/// A token that is the name of a file stands for it.
pub proof fn law_filename_is_found(t: Seq<char>, stem: Seq<char>, extension: Seq<char>)
    requires
        is_bare(t),
        is_no_address(t),
        is_file_name(t, stem, extension),
    ensures
        extract::token_candidate(t) == Some((t, CompletionKind::Filename)),
{
    lemma_bare_is_itself(t);
    lemma_no_scheme(t, "https://"@);
    lemma_no_scheme(t, "http://"@);
    lemma_file_name(t, stem, extension);
}

/// A token that is a path to a file stands for the name of the file alone.
pub proof fn law_file_of_a_path_is_found(
    t: Seq<char>,
    folder: Seq<char>,
    name: Seq<char>,
    stem: Seq<char>,
    extension: Seq<char>,
)
    requires
        is_bare(t),
        is_no_address(t),
        t == folder + name,
        folder.len() > 0,
        folder.last() == '/' || folder.last() == '\\',
        is_file_name(name, stem, extension),
    ensures
        extract::token_candidate(t) == Some((name, CompletionKind::Filename)),
{
    let p = |c: char| !extract::separator(c);
    let n = name.len() as int;
    lemma_bare_is_itself(t);
    lemma_no_scheme(t, "https://"@);
    lemma_no_scheme(t, "http://"@);
    lemma_file_name(name, stem, extension);
    lemma_no_scheme_in_front(t, "https://"@);
    lemma_no_scheme_in_front(t, "http://"@);
    assert(t[folder.len() - 1] == folder.last());
    assert forall|k: int| t.len() - n <= k < t.len() implies p(#[trigger] t[k]) by {
        assert(t[k] == name[k - folder.len()]);
        assert(name.contains(t[k]));
    }
    lemma_tail_is(t, p, n);
    assert(extract::last_part(t) =~= name);
    let k = choose|k: int| 0 <= k < stem.len() && text::char_is_alphanumeric(#[trigger] stem[k]);
    assert(t[folder.len() + k] == stem[k]);
    assert(extract::is_path_like(t));
}

proof fn lemma_no_scheme_in_front(t: Seq<char>, scheme: Seq<char>)
    requires
        has_no_scheme(t, scheme),
    ensures
        !scheme.is_prefix_of(t),
{
    if scheme.is_prefix_of(t) {
        assert(t.subrange(0int, 0int + scheme.len()) =~= scheme);
    }
}

/// A token without a web address stands for nothing but the name of a file: the token itself
/// or, of a path, what stands behind its last separator.
pub proof fn law_other_tokens_stand_for_nothing(t: Seq<char>)
    requires
        is_bare(t),
        is_no_address(t),
    ensures
        match extract::token_candidate(t) {
            Some((name, kind)) => {
                &&& kind == CompletionKind::Filename
                &&& name.len() <= t.len()
                &&& t.skip(t.len() - name.len()) == name
                &&& name.len() < t.len() ==> t[t.len() - name.len() - 1] == '/' || t[t.len()
                    - name.len() - 1] == '\\'
                &&& exists|stem: Seq<char>, extension: Seq<char>| #[trigger]
                    is_file_name(name, stem, extension)
            },
            None => true,
        },
{
    let p = |c: char| !extract::separator(c);
    lemma_bare_is_itself(t);
    lemma_no_scheme(t, "https://"@);
    lemma_no_scheme(t, "http://"@);
    text::lemma_tail_len(t, p);
    if extract::token_candidate(t) is Some {
        let found = extract::token_candidate(t)->0;
        let name = found.0;
        assert(t.skip(0) =~= t);
        if extract::is_path_like(t) {
            assert(name == extract::last_part(t));
        }
        lemma_filename_splits(name);
    }
}

/// What is told as a filename has a stem and an extension.
proof fn lemma_filename_splits(name: Seq<char>)
    requires
        extract::is_filename_like(name),
    ensures
        is_file_name(name, extract::before_dot(name), extract::after_dot(name)),
{
    let d = |c: char| c != '.';
    let n = text::tail_len(name, d) as int;
    text::lemma_tail_len(name, d);
    let stem = extract::before_dot(name);
    let extension = extract::after_dot(name);
    assert(n < name.len()) by {
        let k = choose|k: int| 0 <= k < name.len() && name[k] == '.';
        if n == name.len() {
            assert(d(name[k]));
        }
    }
    assert(name =~= stem + seq!['.'] + extension);
    assert(!extension.contains('.')) by {
        if extension.contains('.') {
            let k = choose|k: int| 0 <= k < extension.len() && extension[k] == '.';
            assert(d(name[name.len() - n + k]));
        }
    }
    assert(names_a_kind_of_file(in_lower_case(extension))) by {
        law_known_extensions(extension);
    }
    assert(stem.len() > 0);
    assert(stem[0] == name[0]);
}

/// Every word of a text is a candidate once the text was taken in, under its lowercase, unless
/// it is too long to be one.
pub proof fn law_words_of_a_text_become_candidates(m: IndexModel, s: Seq<char>, i: int, j: int)
    requires
        is_word_of(s, i, j),
        is_offered_word(s.subrange(i, j)),
        j - i <= 300,
        !text::char_is_whitespace(s[i]),
        !text::char_is_whitespace(s[j - 1]),
        text::lowercase(s.subrange(i, j)).len() > 0,
    ensures
        model::with_candidates(m, extract::text_candidates(s)).candidates.contains_key(
            text::lowercase(s.subrange(i, j)),
        ),
{
    let w = s.subrange(i, j);
    let found = extract::text_candidates(s);
    law_every_word_is_found(s, i, j);
    let n = choose|n: int| 0 <= n < found.len() && found[n] == (w, CompletionKind::Word);
    lemma_word(s, i, j);
    lemma_sighting_becomes_candidate(m, found, n, w);
}

/// A text that was seen among others is a candidate.
proof fn lemma_sighting_becomes_candidate(
    m: IndexModel,
    found: Seq<(Seq<char>, CompletionKind)>,
    n: int,
    w: Seq<char>,
)
    requires
        0 <= n < found.len(),
        found[n].0 == w,
        2 <= w.len() <= 300,
        is_offered_word(w),
        !text::char_is_whitespace(w[0]),
        !text::char_is_whitespace(w.last()),
        text::lowercase(w).len() > 0,
    ensures
        model::with_candidates(m, found).candidates.contains_key(text::lowercase(w)),
    decreases found.len(),
{
    let rest = found.drop_last();
    let before = model::with_candidates(m, rest);
    if n < found.len() - 1 {
        assert(rest[n] == found[n]);
        lemma_sighting_becomes_candidate(m, rest, n, w);
    } else {
        let p = text::whitespace();
        text::lemma_head_is(w, p, 0);
        assert(w.skip(0) =~= w);
        lemma_tail_is(w, p, 0);
        assert(w.take(w.len() as int) =~= w);
        assert(text::trimmed(w) == w);
        let k = choose|k: int| 0 <= k < w.len() && !('0' <= #[trigger] w[k] <= '9');
        assert(!text::is_digit(w[k]));
        assert(found.last() == found[n]);
    }
}

/// What tokens stand for is found in the order in which they stand in the text.
pub proof fn law_tokens_are_read_in_order(s: Seq<char>, i: int, j: int, k: int, l: int)
    requires
        is_token_of(s, i, j),
        extract::token_candidate(s.subrange(i, j)) is Some,
        is_token_of(s, k, l),
        extract::token_candidate(s.subrange(k, l)) is Some,
        j <= k,
    ensures
        exists|a: int, b: int|
            #![trigger extract::text_candidates(s)[a], extract::text_candidates(s)[b]]
            0 <= a < b < extract::text_candidates(s).len() && extract::text_candidates(s)[a]
                == extract::token_candidate(s.subrange(i, j))->0 && extract::text_candidates(s)[b]
                == extract::token_candidate(s.subrange(k, l))->0,
{
    let p = extract::token_chars();
    let n = extract::runs(s, p).len() as int;
    let f = |r: int| extract::token_candidate(extract::runs(s, extract::token_chars())[r]);
    let tokens = extract::token_candidates(s);
    assert forall|x: int| i <= x < j implies p(#[trigger] s[x]) by {
        assert(!text::char_is_whitespace(s[x]));
    }
    assert forall|x: int| k <= x < l implies p(#[trigger] s[x]) by {
        assert(!text::char_is_whitespace(s[x]));
    }
    let (x, y) = lemma_stretches_in_order(s, p, i, j, k, l);
    assert(f(x) is Some);
    assert(f(y) is Some);
    select::lemma_select_place(n, f, x);
    select::lemma_select_place(n, f, y);
    select::lemma_select_place(y, f, x);
    let a = select::select(x, f).len() as int;
    let b = select::select(y, f).len() as int;
    assert(extract::text_candidates(s)[a] == tokens[a]);
    assert(extract::text_candidates(s)[b] == tokens[b]);
}

/// A token of nothing but punctuation stands for nothing.
pub proof fn law_punctuation_stands_for_nothing(t: Seq<char>)
    requires
        forall|k: int| 0 <= k < t.len() ==> may_surround(#[trigger] t[k]),
    ensures
        extract::token_candidate(t) is None,
{
    let p = |c: char| extract::outer_punctuation(c);
    let q = |c: char| extract::trailing_punctuation(c);
    assert forall|k: int| 0 <= k < t.len() implies p(#[trigger] t[k]) by {
        lemma_punctuation(t[k]);
    }
    text::lemma_head_is(t, p, t.len() as int);
    let rest = t.skip(t.len() as int);
    assert(text::trim_by(t, p).len() == 0);
    assert(extract::bare_token(t).len() == 0);
}

} // verus!
