//! How many columns text takes on the screen, by `unicode_width`.
use unicode_width::{UnicodeWidthChar, UnicodeWidthStr};
use vstd::prelude::*;

verus! {

/// The columns that `unicode_width::UnicodeWidthStr::width` counts for `text`.
pub uninterp spec fn text_columns(text: Seq<char>) -> usize;

/// The columns that `unicode_width::UnicodeWidthChar::width` counts for `c`; nothing for a
/// control character.
pub uninterp spec fn char_columns(c: char) -> Option<usize>;

/// Every character of `text` is a printable ASCII character.
pub open spec fn is_printable_ascii(text: Seq<char>) -> bool {
    forall|i: int| 0 <= i < text.len() ==> 32 <= #[trigger] text[i] as u32 <= 126
}

/// `unicode_width::UnicodeWidthStr::width`: the columns that a text takes. They are fixed
/// by the text; a text of printable ASCII characters takes one for each.
#[verifier::external_body]
pub(crate) fn str_width(text: &str) -> (n: usize)
    ensures
        n == text_columns(text@),
        is_printable_ascii(text@) ==> n == text@.len(),
{
    UnicodeWidthStr::width(text)
}

/// `unicode_width::UnicodeWidthChar::width`: the columns that a character takes, and
/// nothing for a control character alone. They are fixed by the character; a printable
/// ASCII character takes one.
#[verifier::external_body]
pub(crate) fn char_width(c: char) -> (n: Option<usize>)
    ensures
        n == char_columns(c),
        n is None <==> (c as u32) < 32 || 127 <= c as u32 <= 159,
        32 <= c as u32 <= 126 ==> n == Some(1usize),
{
    UnicodeWidthChar::width(c)
}

} // verus!
