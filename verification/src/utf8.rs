//! How the UTF-8 bytes of a text relate to its characters: prefixes, occurrences
//! and offsets can be decided on the bytes and stated on the characters.
use vstd::prelude::*;
use vstd::utf8::*;

use crate::order;

verus! {

/// The number of bytes that `s` takes in UTF-8.
pub open spec fn utf8_len(s: Seq<char>) -> nat {
    encode_utf8(s).len()
}

/// The byte offset at which character `j` of `s` starts.
pub open spec fn byte_offset(s: Seq<char>, j: int) -> nat {
    utf8_len(s.take(j))
}

/// `needle` stands in `hay` from character `j` on.
pub open spec fn occurs_at(hay: Seq<char>, needle: Seq<char>, j: int) -> bool {
    &&& 0 <= j
    &&& j + needle.len() <= hay.len()
    &&& hay.subrange(j, j + needle.len()) == needle
}

/// `needle` stands somewhere in `hay`.
pub open spec fn contains_text(hay: Seq<char>, needle: Seq<char>) -> bool {
    exists|j: int| occurs_at(hay, needle, j)
}

/// `j` is the first character of `hay` at which `needle` stands.
pub open spec fn is_first_occurrence(hay: Seq<char>, needle: Seq<char>, j: int) -> bool {
    &&& occurs_at(hay, needle, j)
    &&& forall|k: int| 0 <= k < j ==> !occurs_at(hay, needle, k)
}

/// The first character of `hay` at which `needle` stands, where there is one.
pub open spec fn first_occurrence(hay: Seq<char>, needle: Seq<char>) -> int {
    choose|j: int| is_first_occurrence(hay, needle, j)
}

/// Texts are ordered by their bytes: this is the sequence that is compared.
pub open spec fn text_key(s: Seq<char>) -> Seq<int> {
    encode_utf8(s).map_values(|b: u8| b as int)
}

/// `a` comes strictly before `b` in the order of texts.
pub open spec fn text_less(a: Seq<char>, b: Seq<char>) -> bool {
    order::lex_less(text_key(a), text_key(b))
}

/// There is at most one first occurrence.
pub proof fn lemma_first_occurrence_is(hay: Seq<char>, needle: Seq<char>, j: int)
    requires
        is_first_occurrence(hay, needle, j),
    ensures
        first_occurrence(hay, needle) == j,
{
    let k = first_occurrence(hay, needle);
    assert(is_first_occurrence(hay, needle, k));
    if k < j {
        assert(!occurs_at(hay, needle, k));
    } else if j < k {
        assert(!occurs_at(hay, needle, j));
    }
}

/// Encoding distributes over concatenation.
pub proof fn lemma_encode_concat(a: Seq<char>, b: Seq<char>)
    ensures
        encode_utf8(a + b) == encode_utf8(a) + encode_utf8(b),
    decreases a.len(),
{
    if a.len() == 0 {
        assert(a + b =~= b);
        assert(encode_utf8(a) + encode_utf8(b) =~= encode_utf8(b));
    } else {
        lemma_encode_concat(a.drop_first(), b);
        assert((a + b).drop_first() =~= a.drop_first() + b);
        assert(encode_utf8(a + b) =~= encode_utf8(a) + encode_utf8(b));
    }
}

/// Texts with equal bytes are equal.
pub proof fn lemma_encode_injective(a: Seq<char>, b: Seq<char>)
    requires
        encode_utf8(a) == encode_utf8(b),
    ensures
        a == b,
{
    encode_utf8_decode_utf8(a);
    encode_utf8_decode_utf8(b);
}

/// Texts that no order separates are equal.
pub proof fn lemma_text_key_injective(a: Seq<char>, b: Seq<char>)
    requires
        text_key(a) == text_key(b),
    ensures
        a == b,
{
    assert(encode_utf8(a) =~= encode_utf8(b)) by {
        assert(text_key(a).len() == encode_utf8(a).len());
        assert(text_key(b).len() == encode_utf8(b).len());
        assert forall|i: int| 0 <= i < encode_utf8(a).len() implies encode_utf8(a)[i]
            == encode_utf8(b)[i] by {
            assert(text_key(a)[i] == encode_utf8(a)[i] as int);
            assert(text_key(b)[i] == encode_utf8(b)[i] as int);
        }
    }
    lemma_encode_injective(a, b);
}

/// Only the empty text takes no bytes.
pub proof fn lemma_encode_nonempty(s: Seq<char>)
    ensures
        s.len() == 0 <==> utf8_len(s) == 0,
{
}

/// A text has no more characters than bytes.
pub proof fn lemma_len_le_bytes(s: Seq<char>)
    ensures
        s.len() <= utf8_len(s),
    decreases s.len(),
{
    if s.len() > 0 {
        let t = s.drop_last();
        lemma_len_le_bytes(t);
        assert(s =~= t.push(s.last()));
        lemma_encode_push(t, s.last());
        assert(encode_scalar(s.last() as u32).len() > 0);
    }
}

/// The bytes of `p` head those of `s` exactly if the characters of `p` head those
/// of `s`.
pub proof fn lemma_encode_prefix(p: Seq<char>, s: Seq<char>)
    ensures
        encode_utf8(p).is_prefix_of(encode_utf8(s)) <==> p.is_prefix_of(s),
    decreases p.len(),
{
    let ep = encode_utf8(p);
    let es = encode_utf8(s);
    if p.is_prefix_of(s) {
        let rest = s.skip(p.len() as int);
        assert(s =~= p + rest);
        lemma_encode_concat(p, rest);
        assert(ep =~= es.subrange(0, ep.len() as int));
    }
    if ep.is_prefix_of(es) && p.len() > 0 {
        encode_utf8_first_scalar(p);
        assert(s.len() > 0);
        encode_utf8_first_scalar(s);
        assert(ep[0] == es[0]);
        let n = length_of_first_scalar(ep);
        assert(n <= ep.len());
        assert(forall|i: int| 0 <= i < ep.len() ==> ep[i] == es[i]);
        assert(decode_first_scalar(ep) == decode_first_scalar(es));
        assert(p[0] == s[0]) by {
            char_u32_cast(p[0], decode_first_scalar(ep));
            char_u32_cast(s[0], decode_first_scalar(es));
        }
        let p1 = p.drop_first();
        let s1 = s.drop_first();
        assert(encode_utf8(p1) =~= ep.skip(n));
        assert(encode_utf8(s1) =~= es.skip(n));
        assert(encode_utf8(p1) =~= encode_utf8(s1).subrange(0, encode_utf8(p1).len() as int));
        lemma_encode_prefix(p1, s1);
        assert(p =~= seq![p[0]] + p1);
        assert(s =~= seq![s[0]] + s1);
        assert(p =~= s.subrange(0, p.len() as int)) by {
            assert(p1 =~= s1.subrange(0, p1.len() as int));
            assert forall|i: int| 0 <= i < p.len() implies p[i] == s[i] by {
                if i > 0 {
                    assert(p[i] == p1[i - 1]);
                    assert(s[i] == s1[i - 1]);
                    assert(p1[i - 1] == s1.subrange(0, p1.len() as int)[i - 1]);
                }
            }
        }
    }
}

/// Cutting a text at a character boundary of its bytes cuts it between two
/// characters.
pub proof fn lemma_boundary_is_offset(s: Seq<char>, i: int) -> (j: int)
    requires
        is_char_boundary(encode_utf8(s), i),
        0 <= i <= utf8_len(s),
    ensures
        0 <= j <= s.len(),
        byte_offset(s, j) == i,
        encode_utf8(s.take(j)) == encode_utf8(s).subrange(0, i),
        encode_utf8(s.skip(j)) == encode_utf8(s).subrange(i, utf8_len(s) as int),
{
    let bytes = encode_utf8(s);
    encode_utf8_valid_utf8(s);
    valid_utf8_split(bytes, i);
    decode_utf8_split(bytes, i);
    encode_utf8_decode_utf8(s);
    let a = decode_utf8(bytes.subrange(0, i));
    let b = decode_utf8(bytes.subrange(i, bytes.len() as int));
    decode_utf8_encode_utf8(bytes.subrange(0, i));
    decode_utf8_encode_utf8(bytes.subrange(i, bytes.len() as int));
    let j = a.len() as int;
    assert(s.take(j) =~= a);
    assert(s.skip(j) =~= b);
    j
}

/// Every character starts at a character boundary of the bytes.
pub proof fn lemma_offset_is_boundary(s: Seq<char>, j: int)
    requires
        0 <= j <= s.len(),
    ensures
        is_char_boundary(encode_utf8(s), byte_offset(s, j) as int),
        byte_offset(s, j) <= utf8_len(s),
        encode_utf8(s.take(j)) == encode_utf8(s).subrange(0, byte_offset(s, j) as int),
        encode_utf8(s.skip(j)) == encode_utf8(s).subrange(
            byte_offset(s, j) as int,
            utf8_len(s) as int,
        ),
{
    let i = byte_offset(s, j) as int;
    let bytes = encode_utf8(s);
    assert(s =~= s.take(j) + s.skip(j));
    lemma_encode_concat(s.take(j), s.skip(j));
    assert(bytes.subrange(0, i) =~= encode_utf8(s.take(j)));
    assert(bytes.subrange(i, bytes.len() as int) =~= encode_utf8(s.skip(j)));
    encode_utf8_valid_utf8(s);
    if i == bytes.len() {
        is_char_boundary_start_end_of_seq(bytes);
    } else {
        let rest = s.skip(j);
        assert(rest.len() > 0);
        encode_utf8_first_scalar(rest);
        assert(bytes[i] == encode_utf8(rest)[0]);
        is_char_boundary_iff_is_leading_byte(bytes, i);
    }
}

/// Later characters start at later bytes.
pub proof fn lemma_offsets_increase(s: Seq<char>, j: int, k: int)
    requires
        0 <= j < k <= s.len(),
    ensures
        byte_offset(s, j) < byte_offset(s, k),
{
    assert(s.take(k) =~= s.take(j) + s.subrange(j, k));
    lemma_encode_concat(s.take(j), s.subrange(j, k));
    lemma_encode_nonempty(s.subrange(j, k));
}

/// The bytes of `needle` stand at byte `i` of the bytes of `hay` exactly if
/// `needle` stands at a character of `hay` that starts there. (The empty text
/// stands everywhere.)
pub proof fn lemma_byte_occurrence(hay: Seq<char>, needle: Seq<char>, i: int) -> (j: int)
    requires
        needle.len() > 0,
        0 <= i,
        i + utf8_len(needle) <= utf8_len(hay),
        encode_utf8(hay).subrange(i, i + utf8_len(needle)) == encode_utf8(needle),
    ensures
        occurs_at(hay, needle, j),
        byte_offset(hay, j) == i,
{
    let bytes = encode_utf8(hay);
    lemma_encode_nonempty(needle);
    encode_utf8_first_scalar(needle);
    assert(bytes[i] == encode_utf8(needle)[0]);
    encode_utf8_valid_utf8(hay);
    is_char_boundary_iff_is_leading_byte(bytes, i);
    let j = lemma_boundary_is_offset(hay, i);
    let rest = hay.skip(j);
    assert(encode_utf8(needle) =~= encode_utf8(rest).subrange(0, utf8_len(needle) as int));
    lemma_encode_prefix(needle, rest);
    assert(hay.subrange(j, j + needle.len()) =~= rest.subrange(0, needle.len() as int));
    j
}

/// Where `needle` stands in `hay`, its bytes stand at that character's offset.
pub proof fn lemma_char_occurrence(hay: Seq<char>, needle: Seq<char>, j: int)
    requires
        occurs_at(hay, needle, j),
    ensures
        byte_offset(hay, j) + utf8_len(needle) <= utf8_len(hay),
        encode_utf8(hay).subrange(
            byte_offset(hay, j) as int,
            (byte_offset(hay, j) + utf8_len(needle)) as int,
        ) == encode_utf8(needle),
{
    let rest = hay.skip(j);
    lemma_offset_is_boundary(hay, j);
    assert(rest.subrange(0, needle.len() as int) =~= needle);
    assert(needle.is_prefix_of(rest));
    lemma_encode_prefix(needle, rest);
    let i = byte_offset(hay, j) as int;
    assert(encode_utf8(rest).subrange(0, utf8_len(needle) as int) =~= encode_utf8(hay).subrange(
        i,
        i + utf8_len(needle),
    ));
}

/// Encoding one more character appends its encoding.
pub proof fn lemma_encode_push(s: Seq<char>, c: char)
    ensures
        encode_utf8(s.push(c)) == encode_utf8(s) + encode_scalar(c as u32),
{
    lemma_encode_concat(s, seq![c]);
    assert(s.push(c) =~= s + seq![c]);
    assert(seq![c].drop_first() =~= Seq::<char>::empty());
    assert(encode_utf8(seq![c]) =~= encode_scalar(c as u32)) by {
        assert(encode_utf8(seq![c].drop_first()) =~= Seq::<u8>::empty());
    }
}

/// If `q` heads `b` and `a` lies between `q` and `b` in the order, then `q` heads
/// `a`: the sequences that `q` heads stand together, right after where `q` would
/// stand.
pub proof fn lemma_prefixed_stand_together(q: Seq<int>, a: Seq<int>, b: Seq<int>)
    requires
        !order::lex_less(a, q),
        !order::lex_less(b, a),
        q.is_prefix_of(b),
    ensures
        q.is_prefix_of(a),
    decreases q.len(),
{
    if q.len() > 0 {
        assert(b[0] == q[0]);
        assert(a.len() > 0);
        assert(a[0] == q[0]);
        let q1 = q.drop_first();
        let a1 = a.drop_first();
        let b1 = b.drop_first();
        assert(q1 =~= b1.subrange(0, q1.len() as int)) by {
            assert forall|i: int| 0 <= i < q1.len() implies q1[i] == b1[i] by {
                assert(q[i + 1] == b.subrange(0, q.len() as int)[i + 1]);
            }
        }
        lemma_prefixed_stand_together(q1, a1, b1);
        assert(q =~= a.subrange(0, q.len() as int)) by {
            assert forall|i: int| 0 <= i < q.len() implies q[i] == a[i] by {
                if i > 0 {
                    assert(q1[i - 1] == a1.subrange(0, q1.len() as int)[i - 1]);
                }
            }
        }
    } else {
        assert(q =~= a.subrange(0, 0));
    }
}

/// A text that `q` heads is not before `q`.
pub proof fn lemma_prefixed_not_less(q: Seq<int>, a: Seq<int>)
    requires
        q.is_prefix_of(a),
    ensures
        !order::lex_less(a, q),
{
    let rest = a.skip(q.len() as int);
    assert(a =~= q + rest);
    order::lex_extension(q, rest);
}

/// `q` heads `a` as a text exactly if it does as a key.
pub proof fn lemma_text_key_prefix(q: Seq<char>, a: Seq<char>)
    ensures
        text_key(q).is_prefix_of(text_key(a)) <==> q.is_prefix_of(a),
{
    lemma_encode_prefix(q, a);
    let eq = encode_utf8(q);
    let ea = encode_utf8(a);
    if eq.is_prefix_of(ea) {
        assert(text_key(q) =~= text_key(a).subrange(0, eq.len() as int));
    }
    if text_key(q).is_prefix_of(text_key(a)) {
        assert(eq =~= ea.subrange(0, eq.len() as int)) by {
            assert forall|i: int| 0 <= i < eq.len() implies eq[i] == ea[i] by {
                assert(text_key(q)[i] == text_key(a).subrange(0, eq.len() as int)[i]);
            }
        }
    }
}

} // verus!
