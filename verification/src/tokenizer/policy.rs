//! Search policies for tokenizer folding.

use vstd::prelude::*;

verus! {

/// Controls search-specific folding without changing the scanner.
///
/// The default folds Latin diacritics for recall and treats Russian `ё` as
/// `е`. Use [`TokenizerPolicy::unicode`] for Unicode lowercase and
/// normalization without either equivalence.
#[derive(Debug, Clone, Copy, PartialEq, Eq, Structural)]
pub struct TokenizerPolicy {
    /// Fold Latin precomposed diacritics to their ASCII base.
    pub fold_latin_diacritics: bool,
    /// Treat Russian small letter `ё` as `е` after lowercase.
    pub fold_russian_yo: bool,
}

impl TokenizerPolicy {
    /// A language-neutral policy: Unicode lowercase and normalization only.
    pub fn unicode() -> (r: TokenizerPolicy)
        ensures
            r == (TokenizerPolicy { fold_latin_diacritics: false, fold_russian_yo: false }),
    {
        TokenizerPolicy { fold_latin_diacritics: false, fold_russian_yo: false }
    }

    /// The search policy.
    pub fn search() -> (r: TokenizerPolicy)
        ensures
            r == (TokenizerPolicy { fold_latin_diacritics: true, fold_russian_yo: true }),
    {
        TokenizerPolicy { fold_latin_diacritics: true, fold_russian_yo: true }
    }
}

impl Default for TokenizerPolicy {
    fn default() -> (r: TokenizerPolicy)
        ensures
            r == (TokenizerPolicy { fold_latin_diacritics: true, fold_russian_yo: true }),
    {
        TokenizerPolicy::search()
    }
}

} // verus!
