//! Static policy tables of the tokenizer.

use vstd::prelude::*;

verus! {

/// Punctuation allowed between two lexical characters.
pub open spec fn joiner(c: char) -> bool {
    c == '\'' || c == '\u{2019}' || c == '.' || c == ',' || c == '_'
}

/// Whether `c` is punctuation allowed between two lexical characters.
pub fn is_word_joiner(c: char) -> (r: bool)
    ensures
        r == joiner(c),
{
    c == '\'' || c == '\u{2019}' || c == '.' || c == ',' || c == '_'
}

/// The search-policy fold applied after Unicode lowercase: Russian `ё` as `е`.
pub open spec fn russian_fold(c: char) -> Option<char> {
    if c == '\u{451}' {
        Some('\u{435}')
    } else {
        None
    }
}

/// The mapped character of the Russian search fold, if there is one.
pub fn mapped_char(c: char) -> (r: Option<char>)
    ensures
        r == russian_fold(c),
{
    if c == '\u{451}' {
        Some('\u{435}')
    } else {
        None
    }
}

} // verus!
