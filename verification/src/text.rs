//! Operations on text. Contracts speak of the characters of a text; comparisons
//! and searches run on its UTF-8 bytes.
use std::cmp::Ordering;
use vstd::prelude::*;
use vstd::string::*;
use vstd::utf8::*;

use crate::order;
use crate::utf8;

verus! {

/// Whether `char::is_alphanumeric` holds of `c`.
pub uninterp spec fn char_is_alphanumeric(c: char) -> bool;

/// `c` has the Unicode property `White_Space`.
pub open spec fn char_is_whitespace(c: char) -> bool {
    let n = c as u32;
    ||| 0x9 <= n <= 0xd || n == 0x20 || n == 0x85 || n == 0xa0
    ||| n == 0x1680 || 0x2000 <= n <= 0x200a
    ||| n == 0x2028 || n == 0x2029 || n == 0x202f || n == 0x205f || n == 0x3000
}

/// `c` is an ASCII letter or digit.
pub open spec fn is_ascii_alphanumeric(c: char) -> bool {
    48 <= c as u32 <= 57 || 65 <= c as u32 <= 90 || 97 <= c as u32 <= 122
}

/// The lowercase of an ASCII letter; any other character as it is.
pub open spec fn ascii_lower(c: char) -> char {
    if 65 <= c as int <= 90 {
        (c as int + 32) as char
    } else {
        c
    }
}

/// What `str::to_lowercase` makes of `text`.
pub uninterp spec fn lowercase(text: Seq<char>) -> Seq<char>;

/// `char::is_alphanumeric`: whether a character is alphabetic or numeric, as the
/// Unicode tables of the standard library have it. The answer is fixed by the
/// character; of the ASCII characters these are the letters and the digits.
pub assume_specification[ char::is_alphanumeric ](c: char) -> (b: bool)
    ensures
        b == char_is_alphanumeric(c),
        c as u32 <= 127 ==> b == is_ascii_alphanumeric(c),
;

/// `char::is_whitespace`: whether a character has the Unicode property
/// `White_Space`.
pub assume_specification[ char::is_whitespace ](c: char) -> (b: bool)
    ensures
        b == char_is_whitespace(c),
;

/// `str::to_lowercase`: the lowercase equivalent of a text. It is fixed by the text. A
/// character becomes one or more, so that the result is not shorter; of an ASCII text
/// the uppercase letters become the lowercase ones, and all else stays.
pub assume_specification[ str::to_lowercase ](s: &str) -> (r: String)
    ensures
        r@ == lowercase(s@),
        r@.len() >= s@.len(),
        is_ascii_chars(s@) ==> r@ == s@.map_values(|c: char| ascii_lower(c)),
;

/// The form under which candidates are found: the lowercase of `text`.
pub fn normalize(text: &str) -> (r: String)
    ensures
        r@ == lowercase(text@),
        r@.len() >= text@.len(),
        is_ascii_chars(text@) ==> r@ == text@.map_values(|c: char| ascii_lower(c)),
{
    text.to_lowercase()
}

/// The characters of `s`.
pub fn to_chars(s: &str) -> (v: Vec<char>)
    ensures
        v@ == s@,
{
    let mut v: Vec<char> = Vec::new();
    for c in it: s.chars()
        invariant
            it.seq() == s@,
            v@ == s@.take(it.index()),
    {
        v.push(c);
        assert(v@ =~= s@.take(it.index() + 1));
    }
    assert(s@.take(s@.len() as int) =~= s@);
    v
}

/// The number of bytes of `s`.
pub fn byte_len(s: &str) -> (n: usize)
    ensures
        n == utf8::utf8_len(s@),
{
    s.as_bytes().len()
}

/// The number of bytes of the UTF-8 encoding of `c`.
pub fn char_width(c: char) -> (n: usize)
    ensures
        n == encode_scalar(c as u32).len(),
        1 <= n <= 4,
{
    let v: u32 = c as u32;
    if v <= 0x7f {
        1
    } else if v <= 0x7ff {
        2
    } else if v <= 0xffff {
        3
    } else {
        4
    }
}

/// The length of the common head of `a` and `b`.
fn common_prefix_len(a: &[u8], b: &[u8]) -> (n: usize)
    ensures
        n <= a@.len(),
        n <= b@.len(),
        a@.take(n as int) == b@.take(n as int),
        n < a@.len() && n < b@.len() ==> a@[n as int] != b@[n as int],
{
    let mut n: usize = 0;
    assert(a@.take(0) =~= b@.take(0));
    while n < a.len() && n < b.len() && a[n] == b[n]
        invariant
            n <= a@.len(),
            n <= b@.len(),
            a@.take(n as int) == b@.take(n as int),
        decreases a@.len() - n,
    {
        assert(a@.take(n + 1) =~= a@.take(n as int).push(a@[n as int]));
        assert(b@.take(n + 1) =~= b@.take(n as int).push(b@[n as int]));
        n += 1;
    }
    n
}

/// Whether the two texts are equal.
pub fn str_eq(a: &str, b: &str) -> (r: bool)
    ensures
        r == (a@ == b@),
{
    let x = a.as_bytes();
    let y = b.as_bytes();
    let n = common_prefix_len(x, y);
    proof {
        if n == x@.len() && n == y@.len() {
            assert(x@ =~= x@.take(n as int));
            assert(y@ =~= y@.take(n as int));
            utf8::lemma_encode_injective(a@, b@);
        }
    }
    n == x.len() && n == y.len()
}

/// Whether `prefix` heads `text`.
pub fn str_starts_with(text: &str, prefix: &str) -> (r: bool)
    ensures
        r == prefix@.is_prefix_of(text@),
{
    let x = text.as_bytes();
    let y = prefix.as_bytes();
    let n = common_prefix_len(x, y);
    proof {
        utf8::lemma_encode_prefix(prefix@, text@);
        if n == y@.len() {
            assert(y@ =~= y@.take(n as int));
            assert(x@.take(n as int) =~= x@.subrange(0, y@.len() as int));
        } else if y@.is_prefix_of(x@) {
            assert(y@[n as int] == x@.subrange(0, y@.len() as int)[n as int]);
        }
    }
    n == y.len()
}

proof fn lemma_compare_at(a: Seq<char>, b: Seq<char>, n: int)
    requires
        0 <= n <= utf8::utf8_len(a),
        n <= utf8::utf8_len(b),
        encode_utf8(a).take(n) == encode_utf8(b).take(n),
        n < utf8::utf8_len(a) && n < utf8::utf8_len(b) ==> encode_utf8(a)[n] != encode_utf8(b)[n],
    ensures
        utf8::text_less(a, b) == (n < utf8::utf8_len(b) && (n == utf8::utf8_len(a) || encode_utf8(a)[n]
            < encode_utf8(b)[n])),
        utf8::text_less(b, a) == (n < utf8::utf8_len(a) && (n == utf8::utf8_len(b) || encode_utf8(b)[n]
            < encode_utf8(a)[n])),
        n == utf8::utf8_len(a) && n == utf8::utf8_len(b) ==> a == b,
{
    let x = utf8::text_key(a);
    let y = utf8::text_key(b);
    assert(x.take(n) =~= y.take(n)) by {
        assert forall|i: int| 0 <= i < n implies x[i] == y[i] by {
            assert(encode_utf8(a).take(n)[i] == encode_utf8(a)[i]);
            assert(encode_utf8(b).take(n)[i] == encode_utf8(b)[i]);
            assert(x[i] == encode_utf8(a)[i] as int);
            assert(y[i] == encode_utf8(b)[i] as int);
        }
    }
    assert(x =~= x.take(n) + x.skip(n));
    assert(y =~= x.take(n) + y.skip(n));
    order::lex_common_prefix(x.take(n), x.skip(n), y.skip(n));
    order::lex_common_prefix(x.take(n), y.skip(n), x.skip(n));
    if n == utf8::utf8_len(a) && n == utf8::utf8_len(b) {
        assert(x =~= y);
        utf8::lemma_text_key_injective(a, b);
    }
}

/// Compares two texts by their bytes, as `str::cmp` does.
pub fn compare_text(a: &str, b: &str) -> (r: Ordering)
    ensures
        r == Ordering::Less <==> utf8::text_less(a@, b@),
        r == Ordering::Greater <==> utf8::text_less(b@, a@),
        r == Ordering::Equal <==> a@ == b@,
{
    let x = a.as_bytes();
    let y = b.as_bytes();
    let n = common_prefix_len(x, y);
    proof {
        lemma_compare_at(a@, b@, n + 0);
        order::lex_irreflexive(utf8::text_key(a@));
    }
    if n == x.len() {
        if n == y.len() {
            Ordering::Equal
        } else {
            Ordering::Less
        }
    } else if n == y.len() {
        Ordering::Greater
    } else if x[n] < y[n] {
        Ordering::Less
    } else {
        Ordering::Greater
    }
}

/// Whether `needle` stands in `hay` at byte `i`.
fn bytes_occur_at(hay: &[u8], needle: &[u8], i: usize) -> (r: bool)
    requires
        i + needle@.len() <= hay@.len(),
    ensures
        r == (hay@.subrange(i as int, i + needle@.len()) == needle@),
{
    let mut k: usize = 0;
    let hay_len = hay.len();
    while k < needle.len()
        invariant
            hay_len == hay@.len(),
            i + needle@.len() <= hay@.len(),
            k <= needle@.len(),
            forall|m: int| 0 <= m < k ==> hay@[i + m] == needle@[m],
        decreases needle@.len() - k,
    {
        if hay[i + k] != needle[k] {
            assert(hay@.subrange(i as int, i + needle@.len())[k as int] != needle@[k as int]);
            return false;
        }
        k += 1;
    }
    assert(hay@.subrange(i as int, i + needle@.len()) =~= needle@);
    true
}

/// The byte offset of the first occurrence of `needle` in `hay`, as `str::find`
/// gives it.
pub fn str_find(hay: &str, needle: &str) -> (r: Option<usize>)
    ensures
        match r {
            Some(at) => {
                &&& utf8::is_first_occurrence(hay@, needle@, utf8::first_occurrence(hay@, needle@))
                &&& at == utf8::byte_offset(hay@, utf8::first_occurrence(hay@, needle@))
                &&& at + utf8::utf8_len(needle@) <= utf8::utf8_len(hay@)
            },
            None => !utf8::contains_text(hay@, needle@),
        },
        r is Some <==> utf8::contains_text(hay@, needle@),
{
    let x = hay.as_bytes();
    let y = needle.as_bytes();
    if y.len() == 0 {
        proof {
            utf8::lemma_encode_nonempty(needle@);
            assert(hay@.subrange(0, 0) =~= needle@);
            assert(utf8::occurs_at(hay@, needle@, 0));
            utf8::lemma_first_occurrence_is(hay@, needle@, 0);
            assert(hay@.take(0) =~= Seq::<char>::empty());
        }
        return Some(0);
    }
    let mut i: usize = 0;
    proof {
        utf8::lemma_encode_nonempty(needle@);
    }
    while i < x.len() && y.len() <= x.len() - i
        invariant
            x@ == encode_utf8(hay@),
            y@ == encode_utf8(needle@),
            needle@.len() > 0,
            i <= x@.len(),
            forall|j: int|
                utf8::occurs_at(hay@, needle@, j) ==> i <= #[trigger] utf8::byte_offset(hay@, j),
        decreases x@.len() - i,
    {
        if bytes_occur_at(x, y, i) {
            proof {
                let j = utf8::lemma_byte_occurrence(hay@, needle@, i as int);
                assert forall|k: int| 0 <= k < j implies !utf8::occurs_at(hay@, needle@, k) by {
                    if utf8::occurs_at(hay@, needle@, k) {
                        utf8::lemma_offsets_increase(hay@, k, j);
                        assert(i <= utf8::byte_offset(hay@, k));
                    }
                }
                utf8::lemma_first_occurrence_is(hay@, needle@, j);
            }
            return Some(i);
        }
        proof {
            assert forall|j: int| utf8::occurs_at(hay@, needle@, j) implies i + 1
                <= #[trigger] utf8::byte_offset(hay@, j) by {
                utf8::lemma_char_occurrence(hay@, needle@, j);
            }
        }
        i += 1;
    }
    proof {
        if utf8::contains_text(hay@, needle@) {
            let j = choose|j: int| utf8::occurs_at(hay@, needle@, j);
            utf8::lemma_char_occurrence(hay@, needle@, j);
            utf8::lemma_encode_nonempty(needle@);
            assert(i <= utf8::byte_offset(hay@, j));
        }
    }
    None
}

/// Whether `needle` stands somewhere in `hay`.
pub fn str_contains(hay: &str, needle: &str) -> (r: bool)
    ensures
        r == utf8::contains_text(hay@, needle@),
{
    str_find(hay, needle).is_some()
}

/// Whether `c` stands in `text`.
pub fn contains_char(text: &str, c: char) -> (r: bool)
    ensures
        r == text@.contains(c),
{
    for x in it: text.chars()
        invariant
            it.seq() == text@,
            forall|k: int| 0 <= k < it.index() ==> text@[k] != c,
    {
        if x == c {
            assert(text@[it.index()] == c);
            return true;
        }
    }
    false
}

/// The part of `text` between the bytes `start` and `end`.
pub fn byte_slice(text: &str, start: usize, end: usize) -> (r: &str)
    requires
        start <= end <= utf8::utf8_len(text@),
        is_char_boundary(encode_utf8(text@), start as int),
        is_char_boundary(encode_utf8(text@), end as int),
    ensures
        encode_utf8(r@) == encode_utf8(text@).subrange(start as int, end as int),
        r@ == decode_utf8(encode_utf8(text@).subrange(start as int, end as int)),
{
    let (head, _tail) = text.split_at(end);
    proof {
        encode_utf8_valid_utf8(text@);
        encode_utf8_valid_utf8(head@);
        let h = encode_utf8(head@);
        assert(h == encode_utf8(text@).subrange(0, end as int));
        if start < end {
            is_char_boundary_iff_not_is_continuation_byte(encode_utf8(text@), start as int);
            is_char_boundary_iff_not_is_continuation_byte(h, start as int);
        } else {
            is_char_boundary_start_end_of_seq(h);
        }
    }
    let (_before, part) = head.split_at(start);
    proof {
        assert(encode_utf8(part@) =~= encode_utf8(text@).subrange(start as int, end as int));
        encode_utf8_decode_utf8(part@);
    }
    part
}

/// How many characters at the head of `s` have the property `p`.
pub open spec fn head_len(s: Seq<char>, p: spec_fn(char) -> bool) -> nat
    decreases s.len(),
{
    if s.len() > 0 && p(s[0]) {
        1 + head_len(s.drop_first(), p)
    } else {
        0
    }
}

/// How many characters at the end of `s` have the property `p`.
pub open spec fn tail_len(s: Seq<char>, p: spec_fn(char) -> bool) -> nat
    decreases s.len(),
{
    if s.len() > 0 && p(s.last()) {
        1 + tail_len(s.drop_last(), p)
    } else {
        0
    }
}

/// `s` without the characters at its head that have the property `p`.
pub open spec fn trim_start_by(s: Seq<char>, p: spec_fn(char) -> bool) -> Seq<char> {
    s.skip(head_len(s, p) as int)
}

/// `s` without the characters at its end that have the property `p`.
pub open spec fn trim_end_by(s: Seq<char>, p: spec_fn(char) -> bool) -> Seq<char> {
    s.take(s.len() - tail_len(s, p))
}

/// `s` without the characters at both ends that have the property `p`.
pub open spec fn trim_by(s: Seq<char>, p: spec_fn(char) -> bool) -> Seq<char> {
    trim_end_by(trim_start_by(s, p), p)
}

/// The place that ends the head of `s` is its length.
pub proof fn lemma_head_is(s: Seq<char>, p: spec_fn(char) -> bool, n: int)
    requires
        0 <= n <= s.len(),
        forall|i: int| 0 <= i < n ==> p(#[trigger] s[i]),
        n < s.len() ==> !p(s[n]),
    ensures
        head_len(s, p) == n,
    decreases s.len(),
{
    if n > 0 {
        assert(p(s[0]));
        let t = s.drop_first();
        assert forall|i: int| 0 <= i < n - 1 implies p(#[trigger] t[i]) by {
            assert(t[i] == s[i + 1]);
        }
        lemma_head_is(t, p, n - 1);
    }
}

/// The head of `s` is as long as its characters have the property.
pub proof fn lemma_head_len(s: Seq<char>, p: spec_fn(char) -> bool)
    ensures
        head_len(s, p) <= s.len(),
        forall|i: int| 0 <= i < head_len(s, p) ==> p(#[trigger] s[i]),
        head_len(s, p) < s.len() ==> !p(s[head_len(s, p) as int]),
    decreases s.len(),
{
    if s.len() > 0 && p(s[0]) {
        let t = s.drop_first();
        lemma_head_len(t, p);
        assert forall|i: int| 0 <= i < head_len(s, p) implies p(#[trigger] s[i]) by {
            if i > 0 {
                assert(t[i - 1] == s[i]);
            }
        }
    }
}

/// The end of `s` is as long as its characters have the property.
pub proof fn lemma_tail_len(s: Seq<char>, p: spec_fn(char) -> bool)
    ensures
        tail_len(s, p) <= s.len(),
        forall|i: int| s.len() - tail_len(s, p) <= i < s.len() ==> p(#[trigger] s[i]),
        tail_len(s, p) < s.len() ==> !p(s[s.len() - tail_len(s, p) - 1]),
    decreases s.len(),
{
    if s.len() > 0 && p(s.last()) {
        let t = s.drop_last();
        lemma_tail_len(t, p);
        assert forall|i: int| s.len() - tail_len(s, p) <= i < s.len() implies p(
            #[trigger] s[i],
        ) by {
            if i < s.len() - 1 {
                assert(t[i] == s[i]);
            }
        }
    }
}

/// Whether a property holds of a character: what the executable `f` says.
pub open spec fn decides<F: Fn(char) -> bool>(f: F, p: spec_fn(char) -> bool) -> bool {
    &&& forall|c: char| #[trigger] call_requires(f, (c,))
    &&& forall|c: char, b: bool| #[trigger] call_ensures(f, (c,), b) ==> b == p(c)
}

/// The bytes between two characters are those of the characters between them.
pub proof fn lemma_slice_chars(s: Seq<char>, j: int, k: int)
    requires
        0 <= j <= k <= s.len(),
    ensures
        utf8::byte_offset(s, j) <= utf8::byte_offset(s, k) <= utf8::utf8_len(s),
        is_char_boundary(encode_utf8(s), utf8::byte_offset(s, j) as int),
        is_char_boundary(encode_utf8(s), utf8::byte_offset(s, k) as int),
        decode_utf8(
            encode_utf8(s).subrange(
                utf8::byte_offset(s, j) as int,
                utf8::byte_offset(s, k) as int,
            ),
        ) == s.subrange(j, k),
{
    utf8::lemma_offset_is_boundary(s, j);
    utf8::lemma_offset_is_boundary(s, k);
    let part = s.subrange(j, k);
    assert(s.take(k) =~= s.take(j) + part);
    utf8::lemma_encode_concat(s.take(j), part);
    let a = utf8::byte_offset(s, j) as int;
    let b = utf8::byte_offset(s, k) as int;
    assert(encode_utf8(s).subrange(0, b).subrange(a, b) =~= encode_utf8(s).subrange(a, b));
    assert(encode_utf8(s.take(k)).subrange(a, b) =~= encode_utf8(part));
    encode_utf8_decode_utf8(part);
}

/// The part of `text` from character `j` to character `k`, which start at the bytes
/// `start` and `end`.
pub(crate) fn char_slice(
    text: &str,
    start: usize,
    end: usize,
    Ghost(j): Ghost<int>,
    Ghost(k): Ghost<int>,
) -> (r: &str)
    requires
        0 <= j <= k <= text@.len(),
        start == utf8::byte_offset(text@, j),
        end == utf8::byte_offset(text@, k),
    ensures
        r@ == text@.subrange(j, k),
{
    proof {
        lemma_slice_chars(text@, j, k);
    }
    byte_slice(text, start, end)
}

/// The next character moves the offset on by its width.
pub proof fn lemma_next_offset(s: Seq<char>, k: int)
    requires
        0 <= k < s.len(),
    ensures
        utf8::byte_offset(s, k + 1) == utf8::byte_offset(s, k) + encode_scalar(s[k] as u32).len(),
        utf8::byte_offset(s, k + 1) <= utf8::utf8_len(s),
{
    assert(s.take(k + 1) =~= s.take(k).push(s[k]));
    utf8::lemma_encode_push(s.take(k), s[k]);
    utf8::lemma_offset_is_boundary(s, k + 1);
}

/// `text` without the characters at its head of which `f` holds.
pub(crate) fn trim_start_where<'a, F: Fn(char) -> bool>(
    text: &'a str,
    f: &F,
    Ghost(p): Ghost<spec_fn(char) -> bool>,
) -> (r: &'a str)
    requires
        decides(*f, p),
    ensures
        r@ == trim_start_by(text@, p),
{
    let ghost s = text@;
    let total = byte_len(text);
    let mut start: usize = 0;
    let ghost mut n: int = 0;
    assert(s.take(0) =~= Seq::<char>::empty());
    for c in it: text.chars()
        invariant_except_break
            n == it.index(),
        invariant
            it.seq() == s,
            s == text@,
            total == utf8::utf8_len(s),
            decides(*f, p),
            0 <= n <= s.len(),
            start == utf8::byte_offset(s, n),
            forall|i: int| 0 <= i < n ==> p(#[trigger] s[i]),
        ensures
            n < s.len() ==> !p(s[n]),
    {
        assert(c == s[n]);
        if !f(c) {
            break;
        }
        proof {
            lemma_next_offset(s, n);
            n = n + 1;
        }
        start += char_width(c);
    }
    proof {
        lemma_head_is(s, p, n);
        assert(s.take(s.len() as int) =~= s);
        assert(s.subrange(n, s.len() as int) =~= s.skip(n));
    }
    char_slice(text, start, total, Ghost(n), Ghost(s.len() as int))
}

/// `text` without the characters at its end of which `f` holds.
pub(crate) fn trim_end_where<'a, F: Fn(char) -> bool>(
    text: &'a str,
    f: &F,
    Ghost(p): Ghost<spec_fn(char) -> bool>,
) -> (r: &'a str)
    requires
        decides(*f, p),
    ensures
        r@ == trim_end_by(text@, p),
{
    let ghost s = text@;
    let chars = to_chars(text);
    let mut end: usize = byte_len(text);
    let mut n: usize = chars.len();
    assert(s.take(s.len() as int) =~= s);
    while n > 0 && f(chars[n - 1])
        invariant
            s == text@,
            chars@ == s,
            decides(*f, p),
            n <= s.len(),
            end == utf8::byte_offset(s, n as int),
            trim_end_by(s, p) == trim_end_by(s.take(n as int), p),
        decreases n,
    {
        proof {
            lemma_next_offset(s, n - 1);
            let t = s.take(n as int);
            assert(t.last() == s[n - 1]);
            assert(t.drop_last() =~= s.take(n - 1));
            lemma_tail_len(t.drop_last(), p);
            assert(trim_end_by(t, p) =~= trim_end_by(s.take(n - 1), p));
        }
        end -= char_width(chars[n - 1]);
        n -= 1;
    }
    proof {
        let t = s.take(n as int);
        if n > 0 {
            assert(t.last() == s[n - 1]);
        }
        assert(tail_len(t, p) == 0);
        assert(trim_end_by(t, p) =~= t);
        assert(s.take(0) =~= Seq::<char>::empty());
        assert(s.subrange(0, n as int) =~= t);
    }
    char_slice(text, 0, end, Ghost(0), Ghost(n as int))
}

/// `text` without the characters at both ends of which `f` holds.
pub(crate) fn trim_where<'a, F: Fn(char) -> bool>(
    text: &'a str,
    f: &F,
    Ghost(p): Ghost<spec_fn(char) -> bool>,
) -> (r: &'a str)
    requires
        decides(*f, p),
    ensures
        r@ == trim_by(text@, p),
{
    trim_end_where(trim_start_where(text, f, Ghost(p)), f, Ghost(p))
}

/// The property of being whitespace.
pub open spec fn whitespace() -> spec_fn(char) -> bool {
    |c: char| char_is_whitespace(c)
}

/// `s` without the whitespace at both ends.
pub open spec fn trimmed(s: Seq<char>) -> Seq<char> {
    trim_by(s, whitespace())
}

/// Trimming what was trimmed changes nothing.
pub proof fn lemma_trimmed_again(s: Seq<char>)
    ensures
        trimmed(trimmed(s)) == trimmed(s),
{
    let p = whitespace();
    let a = trim_start_by(s, p);
    let t = trim_end_by(a, p);
    lemma_head_len(s, p);
    lemma_tail_len(a, p);
    if t.len() > 0 {
        assert(t[0] == s[head_len(s, p) as int]);
        assert(t.last() == a[a.len() - tail_len(a, p) - 1]);
        lemma_head_is(t, p, 0);
        assert(t.skip(0) =~= t);
        assert(tail_len(t, p) == 0);
        assert(t.take(t.len() as int) =~= t);
    } else {
        assert(trimmed(t) =~= t);
    }
}

/// Whether `c` is whitespace.
pub fn is_whitespace(c: char) -> (r: bool)
    ensures
        r == char_is_whitespace(c),
{
    c.is_whitespace()
}

/// `text` without the whitespace at both ends, as `str::trim` gives it.
pub fn trim_text(text: &str) -> (r: &str)
    ensures
        r@ == trimmed(text@),
{
    trim_where(text, &is_whitespace, Ghost(whitespace()))
}

/// `c` is an ASCII digit.
pub open spec fn is_digit(c: char) -> bool {
    48 <= c as int <= 57
}

/// Every character of `s` is an ASCII digit.
pub open spec fn all_digits(s: Seq<char>) -> bool {
    forall|i: int| 0 <= i < s.len() ==> is_digit(#[trigger] s[i])
}

/// Whether every character of `text` is an ASCII digit.
pub fn is_all_digits(text: &str) -> (r: bool)
    ensures
        r == all_digits(text@),
{
    for c in it: text.chars()
        invariant
            it.seq() == text@,
            forall|i: int| 0 <= i < it.index() ==> is_digit(#[trigger] text@[i]),
    {
        let code: u32 = c as u32;
        proof {
            char_u32_cast(c, code);
            assert(c == text@[it.index()]);
        }
        if code < 48 || code > 57 {
            assert(!is_digit(text@[it.index()]));
            return false;
        }
    }
    true
}

} // verus!
