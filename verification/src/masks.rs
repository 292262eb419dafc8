//! Character masks: which ASCII characters a text holds, as bits.
use vstd::prelude::*;

use crate::text::byte_len;
use crate::utf8;

verus! {

/// Bit `i` of `m` is set.
pub open spec fn bit64(m: u64, i: int) -> bool {
    (m >> (i as u64)) & 1 == 1
}

/// Bit `i` of `m` is set.
pub open spec fn bit32(m: u32, i: int) -> bool {
    (m >> (i as u32)) & 1 == 1
}

/// How many of the numbers below `n` have the property `p`.
pub open spec fn count_below(n: int, p: spec_fn(int) -> bool) -> nat
    decreases n,
{
    if n <= 0 {
        0
    } else {
        count_below(n - 1, p) + if p(n - 1) {
            1nat
        } else {
            0nat
        }
    }
}

/// The character with code `i` stands in `text`.
pub open spec fn holds_code(text: Seq<char>, i: int) -> bool {
    exists|j: int| 0 <= j < text.len() && #[trigger] text[j] as int == i
}

/// The number of ASCII characters that stand in `wanted` and not in `text`.
pub open spec fn missing_chars(text: Seq<char>, wanted: Seq<char>) -> nat {
    count_below(128, |i: int| holds_code(wanted, i) && !holds_code(text, i))
}

/// `mask` has the bits of exactly the ASCII characters of `text`: those below 64 in
/// the first word, the others in the second.
pub open spec fn is_char_mask(mask: [u64; 2], text: Seq<char>) -> bool {
    &&& forall|i: int| 0 <= i < 64 ==> (#[trigger] bit64(mask@[0], i) <==> holds_code(text, i))
    &&& forall|i: int|
        0 <= i < 64 ==> (#[trigger] bit64(mask@[1], i) <==> holds_code(text, i + 64))
}

/// Letter `i` of the alphabet stands in `text`, in lower or upper case.
pub open spec fn holds_letter(text: Seq<char>, i: int) -> bool {
    holds_code(text, 97 + i) || holds_code(text, 65 + i)
}

/// `mask` has the bits of exactly the ASCII letters of `text`.
pub open spec fn is_letter_mask(mask: u32, text: Seq<char>) -> bool {
    &&& forall|i: int| 0 <= i < 26 ==> (#[trigger] bit32(mask, i) <==> holds_letter(text, i))
    &&& forall|i: int| 26 <= i < 32 ==> !#[trigger] bit32(mask, i)
}

/// The number of letters of `wanted` whose bit is not set in `mask`.
pub open spec fn missing_letters(mask: u32, wanted: Seq<char>) -> nat {
    count_below(26, |i: int| holds_letter(wanted, i) && !bit32(mask, i))
}

/// The number of letters that stand in `wanted` and not in `text`, in whatever case.
pub open spec fn lacking_letters(text: Seq<char>, wanted: Seq<char>) -> nat {
    count_below(26, |i: int| holds_letter(wanted, i) && !holds_letter(text, i))
}

/// The mask of a text tells which letters the text lacks.
pub proof fn lemma_mask_tells_letters(mask: u32, text: Seq<char>, wanted: Seq<char>)
    requires
        is_letter_mask(mask, text),
    ensures
        missing_letters(mask, wanted) == lacking_letters(text, wanted),
{
    lemma_count_same(
        26,
        |i: int| holds_letter(wanted, i) && !bit32(mask, i),
        |i: int| holds_letter(wanted, i) && !holds_letter(text, i),
    );
}

/// Properties that agree below `n` have equally many numbers there.
pub proof fn lemma_count_same(n: int, p: spec_fn(int) -> bool, q: spec_fn(int) -> bool)
    requires
        forall|i: int| 0 <= i < n ==> p(i) == #[trigger] q(i),
    ensures
        count_below(n, p) == count_below(n, q),
    decreases n,
{
    if n > 0 {
        assert(p(n - 1) == q(n - 1));
        lemma_count_same(n - 1, p, q);
    }
}

/// Counting below `n + m` is counting below `n` and in the `m` numbers from there.
proof fn lemma_count_split(n: int, m: int, p: spec_fn(int) -> bool, q: spec_fn(int) -> bool)
    requires
        0 <= n,
        0 <= m,
        forall|i: int| 0 <= i < m ==> #[trigger] q(i) == p(n + i),
    ensures
        count_below(n + m, p) == count_below(n, p) + count_below(m, q),
    decreases m,
{
    if m > 0 {
        assert(q(m - 1) == p(n + (m - 1)));
        lemma_count_split(n, m - 1, p, q);
    }
}

proof fn lemma_set_bit64(m: u64, b: u64, i: u64)
    by (bit_vector)
    requires
        b < 64,
        i < 64,
    ensures
        ((m | (1u64 << b)) >> i) & 1 == 1 <==> ((m >> i) & 1 == 1 || i == b),
{
}

proof fn lemma_set_bit32(m: u32, b: u32, i: u32)
    by (bit_vector)
    requires
        b < 32,
        i < 32,
    ensures
        ((m | (1u32 << b)) >> i) & 1 == 1 <==> ((m >> i) & 1 == 1 || i == b),
{
}

proof fn lemma_no_bit64(i: u64)
    by (bit_vector)
    requires
        i < 64,
    ensures
        (0u64 >> i) & 1 != 1,
{
}

proof fn lemma_no_bit32(i: u32)
    by (bit_vector)
    requires
        i < 32,
    ensures
        (0u32 >> i) & 1 != 1,
{
}

proof fn lemma_minus_bit64(q: u64, c: u64, i: u64)
    by (bit_vector)
    requires
        i < 64,
    ensures
        ((q & !c) >> i) & 1 == 1 <==> ((q >> i) & 1 == 1 && (c >> i) & 1 != 1),
{
}

proof fn lemma_minus_bit32(q: u32, c: u32, i: u32)
    by (bit_vector)
    requires
        i < 32,
    ensures
        ((q & !c) >> i) & 1 == 1 <==> ((q >> i) & 1 == 1 && (c >> i) & 1 != 1),
{
}

/// The number of bits of `m` that are set.
fn count_ones64(m: u64) -> (n: u32)
    ensures
        n == count_below(64, |i: int| bit64(m, i)),
        n <= 64,
{
    let mut n: u32 = 0;
    let mut i: u64 = 0;
    while i < 64
        invariant
            i <= 64,
            n <= i,
            n == count_below(i as int, |k: int| bit64(m, k)),
        decreases 64 - i,
    {
        if (m >> i) & 1 == 1 {
            n += 1;
        }
        i += 1;
    }
    n
}

/// The number of bits of `m` that are set.
fn count_ones32(m: u32) -> (n: u32)
    ensures
        n == count_below(32, |i: int| bit32(m, i)),
        n <= 32,
{
    let mut n: u32 = 0;
    let mut i: u32 = 0;
    while i < 32
        invariant
            i <= 32,
            n <= i,
            n == count_below(i as int, |k: int| bit32(m, k)),
        decreases 32 - i,
    {
        if (m >> i) & 1 == 1 {
            n += 1;
        }
        i += 1;
    }
    n
}

proof fn lemma_holds_code_next(text: Seq<char>, k: int, i: int)
    requires
        0 <= k < text.len(),
    ensures
        holds_code(text.take(k + 1), i) <==> (holds_code(text.take(k), i) || text[k] as int == i),
{
    let a = text.take(k);
    let b = text.take(k + 1);
    assert(b =~= a.push(text[k]));
    if holds_code(a, i) {
        let j = choose|j: int| 0 <= j < a.len() && #[trigger] a[j] as int == i;
        assert(b[j] == a[j]);
    }
    if text[k] as int == i {
        assert(b[k] == text[k]);
    }
    if holds_code(b, i) {
        let j = choose|j: int| 0 <= j < b.len() && #[trigger] b[j] as int == i;
        if j < k {
            assert(a[j] == b[j]);
        }
    }
}

/// The ASCII characters of `text` as bits.
pub fn ascii_char_mask(text: &str) -> (mask: [u64; 2])
    ensures
        is_char_mask(mask, text@),
{
    let mut low: u64 = 0;
    let mut high: u64 = 0;
    proof {
        assert forall|i: int| 0 <= i < 64 implies !#[trigger] bit64(0, i) by {
            lemma_no_bit64(i as u64);
        }
    }
    for c in it: text.chars()
        invariant
            it.seq() == text@,
            forall|i: int|
                0 <= i < 64 ==> (#[trigger] bit64(low, i) <==> holds_code(
                    text@.take(it.index()),
                    i,
                )),
            forall|i: int|
                0 <= i < 64 ==> (#[trigger] bit64(high, i) <==> holds_code(
                    text@.take(it.index()),
                    i + 64,
                )),
    {
        let ghost k = it.index();
        let ghost low0 = low;
        let ghost high0 = high;
        let code: u32 = c as u32;
        if code < 64 {
            low = low | (1u64 << (code as u64));
        } else if code < 128 {
            high = high | (1u64 << ((code - 64) as u64));
        }
        proof {
            assert(c == text@[k]);
            assert(code as int == c as int) by {
                vstd::utf8::char_u32_cast(c, code);
            }
            assert forall|i: int| 0 <= i < 64 implies (#[trigger] bit64(low, i) <==> holds_code(
                text@.take(k + 1),
                i,
            )) by {
                lemma_holds_code_next(text@, k, i);
                assert(bit64(low0, i) <==> holds_code(text@.take(k), i));
                if code < 64 {
                    lemma_set_bit64(low0, code as u64, i as u64);
                }
            }
            assert forall|i: int| 0 <= i < 64 implies (#[trigger] bit64(high, i) <==> holds_code(
                text@.take(k + 1),
                i + 64,
            )) by {
                lemma_holds_code_next(text@, k, i + 64);
                assert(bit64(high0, i) <==> holds_code(text@.take(k), i + 64));
                if 64 <= code < 128 {
                    lemma_set_bit64(high0, (code - 64) as u64, i as u64);
                }
            }
        }
    }
    assert(text@.take(text@.len() as int) =~= text@);
    [low, high]
}

/// How many bits of `query_mask` are not set in `candidate_mask`. Of the masks of
/// two texts, these are the ASCII characters of the second that the first lacks.
pub fn missing_ascii_chars(candidate_mask: [u64; 2], query_mask: [u64; 2]) -> (n: u32)
    ensures
        n == count_below(
            64,
            |i: int| bit64(query_mask@[0], i) && !bit64(candidate_mask@[0], i),
        ) + count_below(64, |i: int| bit64(query_mask@[1], i) && !bit64(candidate_mask@[1], i)),
        forall|text: Seq<char>, wanted: Seq<char>|
            is_char_mask(candidate_mask, text) && is_char_mask(query_mask, wanted) ==> n
                == #[trigger] missing_chars(text, wanted),
{
    let low = query_mask[0] & !candidate_mask[0];
    let high = query_mask[1] & !candidate_mask[1];
    let ghost p = |i: int| bit64(query_mask@[0], i) && !bit64(candidate_mask@[0], i);
    let ghost q = |i: int| bit64(query_mask@[1], i) && !bit64(candidate_mask@[1], i);
    proof {
        assert forall|i: int| 0 <= i < 64 implies bit64(low, i) == #[trigger] p(i) by {
            lemma_minus_bit64(query_mask@[0], candidate_mask@[0], i as u64);
        }
        assert forall|i: int| 0 <= i < 64 implies bit64(high, i) == #[trigger] q(i) by {
            lemma_minus_bit64(query_mask@[1], candidate_mask@[1], i as u64);
        }
        lemma_count_same(64, |i: int| bit64(low, i), p);
        lemma_count_same(64, |i: int| bit64(high, i), q);
        assert forall|text: Seq<char>, wanted: Seq<char>|
            is_char_mask(candidate_mask, text) && is_char_mask(
                query_mask,
                wanted,
            ) implies count_below(64, p) + count_below(64, q) == #[trigger] missing_chars(
            text,
            wanted,
        ) by {
            let all = |i: int| holds_code(wanted, i) && !holds_code(text, i);
            lemma_count_split(64, 64, all, q);
            lemma_count_same(64, p, all);
        }
    }
    count_ones64(low) + count_ones64(high)
}

/// The ASCII letters of `text` as bits, without regard to case.
pub fn ascii_letter_mask(text: &str) -> (mask: u32)
    ensures
        is_letter_mask(mask, text@),
{
    let mut mask: u32 = 0;
    proof {
        assert forall|i: int| 0 <= i < 32 implies !#[trigger] bit32(0, i) by {
            lemma_no_bit32(i as u32);
        }
    }
    for c in it: text.chars()
        invariant
            it.seq() == text@,
            forall|i: int|
                0 <= i < 26 ==> (#[trigger] bit32(mask, i) <==> holds_letter(
                    text@.take(it.index()),
                    i,
                )),
            forall|i: int| 26 <= i < 32 ==> !#[trigger] bit32(mask, i),
    {
        let ghost k = it.index();
        let ghost mask0 = mask;
        let code: u32 = c as u32;
        if 97 <= code && code <= 122 {
            mask = mask | (1u32 << (code - 97));
        } else if 65 <= code && code <= 90 {
            mask = mask | (1u32 << (code - 65));
        }
        proof {
            assert(c == text@[k]);
            assert(code as int == c as int) by {
                vstd::utf8::char_u32_cast(c, code);
            }
            assert forall|i: int| 0 <= i < 26 implies (#[trigger] bit32(mask, i) <==> holds_letter(
                text@.take(k + 1),
                i,
            )) by {
                lemma_holds_code_next(text@, k, 97 + i);
                lemma_holds_code_next(text@, k, 65 + i);
                assert(bit32(mask0, i) <==> holds_letter(text@.take(k), i));
                if 97 <= code <= 122 {
                    lemma_set_bit32(mask0, (code - 97) as u32, i as u32);
                } else if 65 <= code <= 90 {
                    lemma_set_bit32(mask0, (code - 65) as u32, i as u32);
                }
            }
            assert forall|i: int| 26 <= i < 32 implies !#[trigger] bit32(mask, i) by {
                assert(!bit32(mask0, i));
                if 97 <= code <= 122 {
                    lemma_set_bit32(mask0, (code - 97) as u32, i as u32);
                } else if 65 <= code <= 90 {
                    lemma_set_bit32(mask0, (code - 65) as u32, i as u32);
                }
            }
        }
    }
    assert(text@.take(text@.len() as int) =~= text@);
    mask
}

/// How many bits of `query_mask` are not set in `candidate_mask`. Where the first
/// is the mask of a text, these are the letters of that text.
pub fn missing_ascii_letters(candidate_mask: u32, query_mask: u32) -> (n: u32)
    ensures
        n == count_below(32, |i: int| bit32(query_mask, i) && !bit32(candidate_mask, i)),
        forall|wanted: Seq<char>|
            is_letter_mask(query_mask, wanted) ==> n == #[trigger] missing_letters(
                candidate_mask,
                wanted,
            ),
{
    let bits = query_mask & !candidate_mask;
    let ghost p = |i: int| bit32(query_mask, i) && !bit32(candidate_mask, i);
    proof {
        assert forall|i: int| 0 <= i < 32 implies bit32(bits, i) == #[trigger] p(i) by {
            lemma_minus_bit32(query_mask, candidate_mask, i as u32);
        }
        lemma_count_same(32, |i: int| bit32(bits, i), p);
        assert forall|wanted: Seq<char>|
            is_letter_mask(query_mask, wanted) implies count_below(32, p)
            == #[trigger] missing_letters(candidate_mask, wanted) by {
            let all = |i: int| holds_letter(wanted, i) && !bit32(candidate_mask, i);
            let rest = |i: int| p(26 + i);
            lemma_count_split(26, 6, p, rest);
            lemma_count_same(26, p, all);
            let none = |i: int| false;
            lemma_count_same(6, rest, none);
            assert(count_below(6, none) == 0) by {
                reveal_with_fuel(count_below, 7);
            }
        }
    }
    count_ones32(bits)
}

/// How many characters of a query of `n` bytes may be missing: one from four bytes on.
pub open spec fn typos_for(n: nat) -> u16 {
    if n >= 4 {
        1
    } else {
        0
    }
}

/// How many characters of the query may be missing.
pub open spec fn allowed_typos(query_lower: Seq<char>) -> u16 {
    typos_for(utf8::utf8_len(query_lower))
}

/// How many typos a fuzzy match may have.
pub fn completion_max_typos(query_lower: &str) -> (n: u16)
    ensures
        n == allowed_typos(query_lower@),
{
    if byte_len(query_lower) >= 4 {
        1
    } else {
        0
    }
}

/// How many typos a fuzzy match in the dictionary may have.
pub fn dictionary_max_typos(query_lower: &str) -> (n: u16)
    ensures
        n == allowed_typos(query_lower@),
{
    completion_max_typos(query_lower)
}

} // verus!
