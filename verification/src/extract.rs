//! Finding candidates in a text: URLs, filenames and words.
use vstd::prelude::*;
use vstd::string::*;
use vstd::utf8::*;

use crate::ranking::{CompletionKind, MIN_COMPLETION_QUERY_CHARS};
use crate::select;
use crate::text;
use crate::text::{
    byte_len, char_slice, char_width, contains_char, is_all_digits, str_find, str_starts_with,
    to_chars, trim_end_where, trim_where,
};
use crate::utf8;

verus! {

/// A text found, and what it is.
pub type FoundModel = (Seq<char>, CompletionKind);

/// What was found, as plain values.
pub open spec fn found_views(s: Seq<(String, CompletionKind)>) -> Seq<FoundModel> {
    s.map_values(|e: (String, CompletionKind)| (e.0@, e.1))
}

/// The longest stretches of characters of `s` that have the property `p`.
pub open spec fn runs(s: Seq<char>, p: spec_fn(char) -> bool) -> Seq<Seq<char>>
    decreases s.len(),
{
    if s.len() == 0 {
        Seq::empty()
    } else if !p(s[0]) {
        runs(s.drop_first(), p)
    } else {
        let n = text::head_len(s, p) as int;
        if 0 < n <= s.len() {
            seq![s.take(n)] + runs(s.skip(n), p)
        } else {
            Seq::empty()
        }
    }
}

/// The texts as plain values.
pub open spec fn str_views(s: Seq<&str>) -> Seq<Seq<char>> {
    s.map_values(|t: &str| t@)
}

/// A run that ends before character `k` is the first of what starts at `w`.
proof fn lemma_run_ends(s: Seq<char>, p: spec_fn(char) -> bool, w: int, k: int)
    requires
        0 <= w < k <= s.len(),
        forall|i: int| w <= i < k ==> p(#[trigger] s[i]),
        k < s.len() ==> !p(s[k]),
    ensures
        runs(s.skip(w), p) == seq![s.subrange(w, k)] + runs(s.skip(k), p),
{
    let t = s.skip(w);
    assert(p(s[w]));
    assert forall|i: int| 0 <= i < k - w implies p(#[trigger] t[i]) by {
        assert(t[i] == s[w + i]);
    }
    text::lemma_head_is(t, p, k - w);
    assert(t.take(k - w) =~= s.subrange(w, k));
    assert(t.skip(k - w) =~= s.skip(k));
}

/// A character without the property belongs to no run.
proof fn lemma_run_skips(s: Seq<char>, p: spec_fn(char) -> bool, k: int)
    requires
        0 <= k < s.len(),
        !p(s[k]),
    ensures
        runs(s.skip(k), p) == runs(s.skip(k + 1), p),
{
    assert(s.skip(k)[0] == s[k]);
    assert(s.skip(k).drop_first() =~= s.skip(k + 1));
}

/// The longest stretches of characters of `text` of which `f` holds.
fn runs_where<'a, F: Fn(char) -> bool>(
    text: &'a str,
    f: &F,
    Ghost(p): Ghost<spec_fn(char) -> bool>,
) -> (r: Vec<&'a str>)
    requires
        text::decides(*f, p),
    ensures
        str_views(r@) == runs(text@, p),
{
    let ghost s = text@;
    let total = byte_len(text);
    let mut r: Vec<&'a str> = Vec::new();
    let mut start: Option<usize> = None;
    let mut offset: usize = 0;
    // the character at which the run that is being read starts
    let ghost mut w: int = 0;
    proof {
        assert(s.take(0) =~= Seq::<char>::empty());
        assert(s.skip(0) =~= s);
        assert(str_views(r@) + runs(s.skip(0), p) =~= runs(s, p));
    }
    for c in it: text.chars()
        invariant
            it.seq() == s,
            s == text@,
            total == utf8::utf8_len(s),
            text::decides(*f, p),
            offset == utf8::byte_offset(s, it.index()),
            0 <= w <= it.index() <= s.len(),
            match start {
                Some(at) => w < it.index() && at == utf8::byte_offset(s, w),
                None => w == it.index(),
            },
            forall|i: int| w <= i < it.index() ==> p(#[trigger] s[i]),
            str_views(r@) + runs(s.skip(w), p) == runs(s, p),
    {
        let ghost k = it.index();
        proof {
            assert(c == s[k]);
            text::lemma_next_offset(s, k);
        }
        if f(c) {
            if start.is_none() {
                start = Some(offset);
            }
        } else {
            if let Some(word_start) = start {
                let word = char_slice(text, word_start, offset, Ghost(w), Ghost(k));
                let ghost before = r@;
                proof {
                    lemma_run_ends(s, p, w, k);
                }
                r.push(word);
                proof {
                    assert(str_views(r@) =~= str_views(before) + seq![word@]);
                    assert(str_views(before) + (seq![word@] + runs(s.skip(k), p)) =~= str_views(
                        r@,
                    ) + runs(s.skip(k), p));
                }
            }
            proof {
                lemma_run_skips(s, p, k);
                w = k + 1;
            }
            start = None;
        }
        offset += char_width(c);
    }
    proof {
        assert(s.skip(s.len() as int) =~= Seq::<char>::empty());
        assert(s.take(s.len() as int) =~= s);
    }
    if let Some(word_start) = start {
        let ghost n = s.len() as int;
        let word = char_slice(text, word_start, total, Ghost(w), Ghost(n));
        let ghost before = r@;
        proof {
            lemma_run_ends(s, p, w, n);
        }
        r.push(word);
        proof {
            assert(str_views(r@) =~= str_views(before) + seq![word@]);
            assert(str_views(before) + (seq![word@] + runs(s.skip(n), p)) =~= str_views(r@)
                + runs(s.skip(n), p));
        }
    }
    assert(str_views(r@) =~= runs(s, p));
    r
}

/// `c` belongs to a word.
pub open spec fn word_char(c: char) -> bool {
    text::char_is_alphanumeric(c) || c == '_' || c == '-'
}

/// The property of belonging to a word.
pub open spec fn word_chars() -> spec_fn(char) -> bool {
    |c: char| word_char(c)
}

/// The property of not being whitespace.
pub open spec fn token_chars() -> spec_fn(char) -> bool {
    |c: char| !text::char_is_whitespace(c)
}

/// Whether `ch` belongs to a word.
pub fn is_word_char(ch: char) -> (r: bool)
    ensures
        r == word_char(ch),
        ch as u32 <= 127 ==> r == (text::is_ascii_alphanumeric(ch) || ch == '_' || ch == '-'),
{
    ch.is_alphanumeric() || ch == '_' || ch == '-'
}

/// Whether `ch` belongs to a token.
fn is_token_char(ch: char) -> (r: bool)
    ensures
        r == !text::char_is_whitespace(ch),
{
    !ch.is_whitespace()
}

/// `c` may surround a token: a quote, a bracket, a comma or a semicolon.
pub open spec fn outer_punctuation(c: char) -> bool {
    ||| c == '"' || c == '\'' || c == '`'
    ||| c == '(' || c == ')' || c == '[' || c == ']' || c == '{' || c == '}' || c == '<' || c == '>'
    ||| c == ',' || c == ';'
}

/// `c` may end a token without belonging to it.
pub open spec fn trailing_punctuation(c: char) -> bool {
    ||| c == '.' || c == ',' || c == ';' || c == ':'
    ||| c == ')' || c == ']' || c == '}' || c == '>'
    ||| c == '"' || c == '\''
}

/// Whether `ch` may surround a token.
pub fn is_outer_token_punctuation(ch: char) -> (r: bool)
    ensures
        r == outer_punctuation(ch),
{
    matches!(
        ch,
        '"' | '\'' | '`' | '(' | ')' | '[' | ']' | '{' | '}' | '<' | '>' | ',' | ';'
    )
}

/// Whether `ch` may end a token without belonging to it.
pub fn is_trailing_token_punctuation(ch: char) -> (r: bool)
    ensures
        r == trailing_punctuation(ch),
{
    matches!(ch, '.' | ',' | ';' | ':' | ')' | ']' | '}' | '>' | '"' | '\'')
}

/// `s` without the punctuation at its end.
pub open spec fn without_trailing(s: Seq<char>) -> Seq<char> {
    text::trim_end_by(s, |c: char| trailing_punctuation(c))
}

/// `s` without the punctuation around it.
pub open spec fn bare_token(s: Seq<char>) -> Seq<char> {
    without_trailing(text::trim_by(s, |c: char| outer_punctuation(c)))
}

/// The token without the punctuation at its end.
pub fn trim_trailing_token_punctuation(token: &str) -> (r: &str)
    ensures
        r@ == without_trailing(token@),
{
    trim_end_where(
        token,
        &is_trailing_token_punctuation,
        Ghost(|c: char| trailing_punctuation(c)),
    )
}

/// The token without the punctuation around it.
pub fn trim_token(token: &str) -> (r: &str)
    ensures
        r@ == bare_token(token@),
{
    trim_trailing_token_punctuation(
        trim_where(token, &is_outer_token_punctuation, Ghost(|c: char| outer_punctuation(c))),
    )
}

/// `s` starts with the scheme of a web address.
pub open spec fn has_web_scheme(s: Seq<char>) -> bool {
    "http://"@.is_prefix_of(s) || "https://"@.is_prefix_of(s)
}

/// `s` holds a path separator.
pub open spec fn has_separator(s: Seq<char>) -> bool {
    s.contains('/') || s.contains('\\')
}

/// A character of `s` is alphanumeric.
pub open spec fn has_alphanumeric(s: Seq<char>) -> bool {
    exists|i: int| 0 <= i < s.len() && text::char_is_alphanumeric(#[trigger] s[i])
}

/// `s` looks like a path: no web address, with a separator and something to name.
pub open spec fn is_path_like(s: Seq<char>) -> bool {
    !has_web_scheme(s) && has_separator(s) && has_alphanumeric(s)
}

/// Whether a character of `value` is alphanumeric.
fn contains_alphanumeric(value: &str) -> (r: bool)
    ensures
        r == has_alphanumeric(value@),
{
    for c in it: value.chars()
        invariant
            it.seq() == value@,
            forall|i: int| 0 <= i < it.index() ==> !text::char_is_alphanumeric(#[trigger] value@[i]),
    {
        if c.is_alphanumeric() {
            assert(text::char_is_alphanumeric(value@[it.index()]));
            return true;
        }
    }
    false
}

/// Whether `value` looks like a path.
pub fn looks_like_path(value: &str) -> (r: bool)
    ensures
        r == is_path_like(value@),
{
    if str_starts_with(value, "http://") || str_starts_with(value, "https://") {
        return false;
    }
    let has_separator = contains_char(value, '/') || contains_char(value, '\\');
    has_separator && contains_alphanumeric(value)
}

/// `c` separates the parts of a path.
pub open spec fn separator(c: char) -> bool {
    c == '/' || c == '\\'
}

/// The last part of a path: what follows its last separator.
pub open spec fn last_part(path: Seq<char>) -> Seq<char> {
    path.skip(path.len() - text::tail_len(path, |c: char| !separator(c)))
}

/// The number of characters at the end of `chars` before which `f` stops holding.
fn tail_where<F: Fn(char) -> bool>(
    chars: &Vec<char>,
    f: &F,
    Ghost(p): Ghost<spec_fn(char) -> bool>,
) -> (n: usize)
    requires
        text::decides(*f, p),
    ensures
        n == text::tail_len(chars@, p),
        n <= chars@.len(),
{
    let len = chars.len();
    let mut k: usize = len;
    assert(chars@.take(len as int) =~= chars@);
    while k > 0 && f(chars[k - 1])
        invariant
            len == chars@.len(),
            k <= len,
            text::decides(*f, p),
            text::tail_len(chars@, p) == text::tail_len(chars@.take(k as int), p) + (len - k),
        decreases k,
    {
        proof {
            let t = chars@.take(k as int);
            assert(t.last() == chars@[k - 1]);
            assert(t.drop_last() =~= chars@.take(k - 1));
        }
        k -= 1;
    }
    proof {
        let t = chars@.take(k as int);
        if k > 0 {
            assert(t.last() == chars@[k - 1]);
        }
        text::lemma_tail_len(chars@, p);
    }
    len - k
}

/// Whether `ch` does not separate the parts of a path.
fn is_name_char(ch: char) -> (r: bool)
    ensures
        r == !separator(ch),
{
    ch != '/' && ch != '\\'
}

/// The last `n` characters of `text`.
fn last_chars(text: &str, n: usize) -> (r: &str)
    requires
        n <= text@.len(),
    ensures
        r@ == text@.skip(text@.len() - n),
{
    let len = text.unicode_len();
    proof {
        assert(text@.subrange(len - n, len as int) =~= text@.skip(len - n));
    }
    text.substring_char(len - n, len)
}

/// The last part of a path, unless it is empty.
pub fn basename(path: &str) -> (r: Option<&str>)
    ensures
        match r {
            Some(name) => name@ == last_part(path@) && name@.len() > 0,
            None => last_part(path@).len() == 0,
        },
{
    let chars = to_chars(path);
    let n = tail_where(&chars, &is_name_char, Ghost(|c: char| !separator(c)));
    if n == 0 {
        None
    } else {
        Some(last_chars(path, n))
    }
}

/// `a` and `b` differ at most in the case of ASCII letters.
pub open spec fn eq_ignoring_case(a: Seq<char>, b: Seq<char>) -> bool {
    &&& a.len() == b.len()
    &&& forall|i: int| 0 <= i < a.len() ==> text::ascii_lower(#[trigger] a[i]) == text::ascii_lower(b[i])
}

/// The file extensions by which a filename is told.
pub open spec fn known_extensions() -> Seq<Seq<char>> {
    seq![
        "bash"@,
        "bazel"@,
        "c"@,
        "cc"@,
        "cfg"@,
        "conf"@,
        "cpp"@,
        "css"@,
        "csv"@,
        "cts"@,
        "go"@,
        "h"@,
        "hpp"@,
        "html"@,
        "java"@,
        "js"@,
        "json"@,
        "jsx"@,
        "lock"@,
        "log"@,
        "lua"@,
        "md"@,
        "mdx"@,
        "mjs"@,
        "mts"@,
        "proto"@,
        "py"@,
        "rb"@,
        "rs"@,
        "scss"@,
        "sh"@,
        "sql"@,
        "swift"@,
        "toml"@,
        "ts"@,
        "tsx"@,
        "txt"@,
        "xml"@,
        "yaml"@,
        "yml"@,
        "zsh"@,
    ]
}

/// `s` is a known extension, in any case.
pub open spec fn is_extension(s: Seq<char>) -> bool {
    exists|k: int|
        0 <= k < known_extensions().len() && eq_ignoring_case(s, #[trigger] known_extensions()[k])
}

/// The lowercase of an ASCII letter; any other character as it is.
fn to_ascii_lower(c: char) -> (r: u32)
    ensures
        r == text::ascii_lower(c) as u32,
{
    let code: u32 = c as u32;
    if code >= 65 && code <= 90 {
        code + 32
    } else {
        code
    }
}

/// Whether the texts differ at most in the case of ASCII letters.
fn str_eq_ignoring_case(a: &str, b: &str) -> (r: bool)
    ensures
        r == eq_ignoring_case(a@, b@),
{
    let x = to_chars(a);
    let y = to_chars(b);
    if x.len() != y.len() {
        return false;
    }
    let mut i: usize = 0;
    while i < x.len()
        invariant
            i <= x@.len(),
            x@ == a@,
            y@ == b@,
            x@.len() == y@.len(),
            forall|j: int| 0 <= j < i ==> text::ascii_lower(#[trigger] a@[j]) == text::ascii_lower(b@[j]),
        decreases x@.len() - i,
    {
        let p = to_ascii_lower(x[i]);
        let q = to_ascii_lower(y[i]);
        proof {
            if p == q {
                char_u32_cast(text::ascii_lower(a@[i as int]), p);
                char_u32_cast(text::ascii_lower(b@[i as int]), q);
            }
        }
        if p != q {
            assert(text::ascii_lower(a@[i as int]) != text::ascii_lower(b@[i as int]));
            return false;
        }
        i += 1;
    }
    true
}

/// Whether `extension` is a known extension, in any case.
fn is_known_extension(extension: &str) -> (r: bool)
    ensures
        r == is_extension(extension@),
{
    let known: [&'static str; 41] = [
        "bash",
        "bazel",
        "c",
        "cc",
        "cfg",
        "conf",
        "cpp",
        "css",
        "csv",
        "cts",
        "go",
        "h",
        "hpp",
        "html",
        "java",
        "js",
        "json",
        "jsx",
        "lock",
        "log",
        "lua",
        "md",
        "mdx",
        "mjs",
        "mts",
        "proto",
        "py",
        "rb",
        "rs",
        "scss",
        "sh",
        "sql",
        "swift",
        "toml",
        "ts",
        "tsx",
        "txt",
        "xml",
        "yaml",
        "yml",
        "zsh",
    ];
    assert(forall|j: int| 0 <= j < 41 ==> (#[trigger] known@[j])@ == known_extensions()[j]);
    let mut i: usize = 0;
    while i < 41
        invariant
            i <= 41,
            known_extensions().len() == 41,
            forall|j: int| 0 <= j < 41 ==> (#[trigger] known@[j])@ == known_extensions()[j],
            forall|j: int|
                0 <= j < i ==> !eq_ignoring_case(extension@, #[trigger] known_extensions()[j]),
        decreases 41 - i,
    {
        if str_eq_ignoring_case(extension, known[i]) {
            assert(eq_ignoring_case(extension@, known_extensions()[i as int]));
            return true;
        }
        i += 1;
    }
    false
}

/// What follows the last dot of `s`.
pub open spec fn after_dot(s: Seq<char>) -> Seq<char> {
    s.skip(s.len() - text::tail_len(s, |c: char| c != '.'))
}

/// What precedes the last dot of `s`.
pub open spec fn before_dot(s: Seq<char>) -> Seq<char> {
    s.take(s.len() - text::tail_len(s, |c: char| c != '.') - 1)
}

/// `s` looks like a filename: no separators, no dot in front, a name with something
/// alphanumeric in it, and a known extension.
pub open spec fn is_filename_like(s: Seq<char>) -> bool {
    &&& !has_separator(s)
    &&& s.contains('.')
    &&& s[0] != '.'
    &&& has_alphanumeric(before_dot(s))
    &&& is_extension(after_dot(s))
}

/// Whether `ch` is no dot.
fn is_no_dot(ch: char) -> (r: bool)
    ensures
        r == (ch != '.'),
{
    ch != '.'
}

/// Whether `value` looks like a filename.
pub fn looks_like_filename(value: &str) -> (r: bool)
    ensures
        r == is_filename_like(value@),
{
    if contains_char(value, '/') || contains_char(value, '\\') {
        return false;
    }
    let ghost p = |c: char| c != '.';
    let chars = to_chars(value);
    let len = chars.len();
    if len == 0 || chars[0] == '.' {
        return false;
    }
    let n = tail_where(&chars, &is_no_dot, Ghost(p));
    proof {
        text::lemma_tail_len(value@, p);
    }
    if n == len {
        proof {
            if value@.contains('.') {
                let i = choose|i: int| 0 <= i < value@.len() && value@[i] == '.';
                assert(p(value@[i]));
            }
        }
        return false;
    }
    proof {
        assert(value@[len - n - 1] == '.');
    }
    let stem = value.substring_char(0, len - n - 1);
    let extension = last_chars(value, n);
    assert(stem@ =~= before_dot(value@));
    contains_alphanumeric(stem) && is_known_extension(extension)
}

/// What a token stands for. A token that holds a web address is that address; one that
/// looks like a path is the filename at its end, if that is one; otherwise it may be a
/// filename itself.
pub open spec fn token_candidate(raw: Seq<char>) -> Option<FoundModel> {
    let t = bare_token(raw);
    if t.len() == 0 {
        None
    } else if utf8::contains_text(t, "https://"@) || utf8::contains_text(t, "http://"@) {
        let start = if utf8::contains_text(t, "https://"@) {
            utf8::first_occurrence(t, "https://"@)
        } else {
            utf8::first_occurrence(t, "http://"@)
        };
        let url = without_trailing(t.skip(start));
        if url.len() > 0 {
            Some((url, CompletionKind::Url))
        } else {
            None
        }
    } else if is_path_like(t) {
        if last_part(t).len() > 0 && is_filename_like(last_part(t)) {
            Some((last_part(t), CompletionKind::Filename))
        } else {
            None
        }
    } else if is_filename_like(t) {
        Some((t, CompletionKind::Filename))
    } else {
        None
    }
}

/// `s` with what was found, if anything.
pub open spec fn with_found(s: Seq<FoundModel>, found: Option<FoundModel>) -> Seq<FoundModel> {
    match found {
        Some(f) => s.push(f),
        None => s,
    }
}

/// Adds what was found.
fn push_found(candidates: &mut Vec<(String, CompletionKind)>, found: &str, kind: CompletionKind)
    ensures
        found_views(final(candidates)@) == found_views(old(candidates)@).push((found@, kind)),
{
    let ghost before = candidates@;
    candidates.push((found.to_owned(), kind));
    assert(found_views(candidates@) =~= found_views(before).push((found@, kind)));
}

/// The rest of `text` from an occurrence of `needle` on, if there is one.
fn rest_from<'a>(text: &'a str, needle: &str) -> (r: Option<&'a str>)
    ensures
        match r {
            Some(rest) => utf8::contains_text(text@, needle@) && rest@ == text@.skip(
                utf8::first_occurrence(text@, needle@),
            ),
            None => !utf8::contains_text(text@, needle@),
        },
{
    match str_find(text, needle) {
        Some(at) => {
            let ghost j = utf8::first_occurrence(text@, needle@);
            let ghost n = text@.len() as int;
            proof {
                assert(text@.take(n) =~= text@);
                assert(text@.subrange(j, n) =~= text@.skip(j));
            }
            Some(char_slice(text, at, byte_len(text), Ghost(j), Ghost(n)))
        },
        None => None,
    }
}

/// Adds what the token stands for, if anything.
pub fn extract_from_token(raw: &str, candidates: &mut Vec<(String, CompletionKind)>)
    ensures
        found_views(final(candidates)@) == with_found(
            found_views(old(candidates)@),
            token_candidate(raw@),
        ),
{
    let token = trim_token(raw);
    if byte_len(token) == 0 {
        proof {
            utf8::lemma_encode_nonempty(token@);
        }
        return;
    }
    proof {
        utf8::lemma_encode_nonempty(token@);
    }
    let address = match rest_from(token, "https://") {
        Some(rest) => Some(rest),
        None => rest_from(token, "http://"),
    };
    if let Some(rest) = address {
        let url = trim_trailing_token_punctuation(rest);
        proof {
            utf8::lemma_encode_nonempty(url@);
        }
        if byte_len(url) > 0 {
            push_found(candidates, url, CompletionKind::Url);
        }
        return;
    }
    if looks_like_path(token) {
        if let Some(name) = basename(token) {
            if looks_like_filename(name) {
                push_found(candidates, name, CompletionKind::Filename);
            }
        }
        return;
    }
    if looks_like_filename(token) {
        push_found(candidates, token, CompletionKind::Filename);
    }
}

/// A word as a candidate: it is long enough, and not a number.
pub open spec fn word_candidate(word: Seq<char>) -> Option<FoundModel> {
    if word.len() >= MIN_COMPLETION_QUERY_CHARS && !text::all_digits(word) {
        Some((word, CompletionKind::Word))
    } else {
        None
    }
}

/// Adds the word, if it is a candidate.
pub fn push_word_candidate(word: &str, candidates: &mut Vec<(String, CompletionKind)>)
    ensures
        found_views(final(candidates)@) == with_found(
            found_views(old(candidates)@),
            word_candidate(word@),
        ),
{
    if word.unicode_len() >= MIN_COMPLETION_QUERY_CHARS && !is_all_digits(word) {
        push_found(candidates, word, CompletionKind::Word);
    }
}

/// What the words of `s` stand for, in their order.
pub open spec fn word_candidates(s: Seq<char>) -> Seq<FoundModel> {
    select::select(
        runs(s, word_chars()).len() as int,
        |j: int| word_candidate(runs(s, word_chars())[j]),
    )
}

/// What the tokens of `s` stand for, in their order.
pub open spec fn token_candidates(s: Seq<char>) -> Seq<FoundModel> {
    select::select(
        runs(s, token_chars()).len() as int,
        |j: int| token_candidate(runs(s, token_chars())[j]),
    )
}

/// The candidates of a text: those of its tokens and then its words.
pub open spec fn text_candidates(s: Seq<char>) -> Seq<FoundModel> {
    token_candidates(s) + word_candidates(s)
}

/// Adds the words of the text.
pub fn extract_words(text: &str, candidates: &mut Vec<(String, CompletionKind)>)
    ensures
        found_views(final(candidates)@) == found_views(old(candidates)@) + word_candidates(text@),
{
    let words = runs_where(text, &is_word_char, Ghost(word_chars()));
    let ghost before = found_views(candidates@);
    let ghost all = runs(text@, word_chars());
    let ghost f = |j: int| word_candidate(runs(text@, word_chars())[j]);
    assert(before + select::select(0, f) =~= before);
    let mut i: usize = 0;
    while i < words.len()
        invariant
            i <= words@.len(),
            str_views(words@) == all,
            all == runs(text@, word_chars()),
            f == (|j: int| word_candidate(runs(text@, word_chars())[j])),
            found_views(candidates@) == before + select::select(i as int, f),
        decreases words@.len() - i,
    {
        let ghost done = found_views(candidates@);
        proof {
            assert(all[i as int] == words@[i as int]@);
        }
        push_word_candidate(words[i], candidates);
        proof {
            if let Some(found) = f(i as int) {
                assert(done.push(found) =~= before + select::select(i as int, f).push(found));
            }
        }
        i += 1;
    }
}

/// The candidates of a text.
pub fn extract_candidates(text: &str) -> (r: Vec<(String, CompletionKind)>)
    ensures
        found_views(r@) == text_candidates(text@),
{
    let mut candidates: Vec<(String, CompletionKind)> = Vec::new();
    let tokens = runs_where(text, &is_token_char, Ghost(token_chars()));
    let ghost all = runs(text@, token_chars());
    let ghost f = |j: int| token_candidate(runs(text@, token_chars())[j]);
    assert(found_views(candidates@) =~= select::select(0, f));
    let mut i: usize = 0;
    while i < tokens.len()
        invariant
            i <= tokens@.len(),
            str_views(tokens@) == all,
            all == runs(text@, token_chars()),
            f == (|j: int| token_candidate(runs(text@, token_chars())[j])),
            found_views(candidates@) == select::select(i as int, f),
        decreases tokens@.len() - i,
    {
        proof {
            assert(all[i as int] == tokens@[i as int]@);
        }
        extract_from_token(tokens[i], &mut candidates);
        i += 1;
    }
    extract_words(text, &mut candidates);
    candidates
}

} // verus!
