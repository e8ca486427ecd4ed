//! The core tokenizer.
//!
//! Four stages:
//!
//! 1. NFKC normalization of the input;
//! 2. word segmentation and CJK adjacency tracking;
//! 3. policy-driven Unicode folding;
//! 4. canonical, byte-budgeted token emission.
//!
//! [`tokenize`] is the first version of the rules, which needs no Unicode
//! data beyond the standard library's.

pub mod emit;
pub mod fold;
pub mod policy;
pub mod segment;
pub mod tables;
pub mod unicode;

pub use self::emit::MAX_TOKEN_BYTES;
pub use self::policy::TokenizerPolicy;

use crate::text;
use crate::text::{chars_of, str_from_utf8, string_of};
use crate::tokenizer::segment::SegmentProcessor;
use crate::tokenizer::unicode::{is_alphanumeric, to_lowercase};
use vstd::prelude::*;
use vstd::string::*;
use vstd::utf8::*;

verus! {

/// The version of the tokenizer that new indexes are written with.
pub const TOKENIZER_VERSION: u32 = 2;

/// The text that is segmented: NFKC, which leaves ASCII as it is.
pub open spec fn normalized(t: Seq<char>) -> Seq<char> {
    if is_ascii_chars(t) {
        t
    } else {
        unicode::nfkc(t)
    }
}

/// Some character is a letter or a number.
pub open spec fn wordlike(t: Seq<char>) -> bool {
    exists|i: int| 0 <= i < t.len() && unicode::alphanumeric(#[trigger] t[i])
}

/// The characters between two byte offsets; none where the offsets do not
/// cut the text at characters.
pub open spec fn between(bytes: Seq<u8>, start: int, end: int) -> Seq<char> {
    if 0 <= start <= end <= bytes.len() && valid_utf8(bytes.subrange(start, end)) {
        decode_utf8(bytes.subrange(start, end))
    } else {
        Seq::empty()
    }
}

/// One word segment: its stretches where it holds a word, and the end of an
/// open CJK run where it does not.
pub open spec fn segment_step(
    p: segment::Progress,
    t: Seq<char>,
    policy: TokenizerPolicy,
) -> segment::Progress {
    if wordlike(t) {
        segment::segment_pushed(p, t, policy)
    } else {
        segment::closed_run(p)
    }
}

/// The progress after the first `n` boundaries.
pub open spec fn walked(
    bytes: Seq<u8>,
    breaks: Seq<usize>,
    n: int,
    policy: TokenizerPolicy,
) -> segment::Progress
    decreases n,
{
    if n <= 0 {
        segment::Progress { out: Seq::empty(), run: Seq::empty() }
    } else {
        let p = walked(bytes, breaks, n - 1, policy);
        let start = start_before(breaks, n - 1);
        let end = breaks[n - 1] as int;
        if end == start {
            p
        } else {
            segment_step(p, between(bytes, start, end), policy)
        }
    }
}

/// Where the segment that ends at boundary `n` starts.
pub open spec fn start_before(breaks: Seq<usize>, n: int) -> int {
    if n <= 0 {
        0
    } else {
        breaks[n - 1] as int
    }
}

/// The tokens of normalized text with the given word boundaries.
pub open spec fn tokens_at(
    norm: Seq<char>,
    breaks: Seq<usize>,
    policy: TokenizerPolicy,
) -> Seq<Seq<char>> {
    segment::closed_run(walked(encode_utf8(norm), breaks, breaks.len() as int, policy)).out
}

/// The tokens of a text.
pub open spec fn tokens_of(text: Seq<char>, policy: TokenizerPolicy) -> Seq<Seq<char>> {
    tokens_at(normalized(text), unicode::word_breaks(normalized(text)), policy)
}

/// Whether some character of `t` is a letter or a number.
fn is_wordlike(t: &[char]) -> (r: bool)
    ensures
        r == wordlike(t@),
{
    let mut i: usize = 0;
    while i < t.len()
        invariant
            i <= t@.len(),
            forall|k: int| 0 <= k < i ==> !unicode::alphanumeric(#[trigger] t@[k]),
        decreases t@.len() - i,
    {
        if is_alphanumeric(t[i]) {
            return true;
        }
        i = i + 1;
    }
    false
}

/// The characters between two byte offsets.
fn chars_between(bytes: &[u8], start: usize, end: usize) -> (r: Vec<char>)
    ensures
        r@ == between(bytes@, start as int, end as int),
{
    if start <= end && end <= bytes.len() {
        let part: &[u8] = &bytes[start..end];
        assert(part@ =~= bytes@.subrange(start as int, end as int));
        if let Some(s) = str_from_utf8(part) {
            return chars_of(s);
        }
    }
    let none: Vec<char> = Vec::new();
    assert(none@ =~= Seq::empty());
    none
}

/// The tokens of normalized text with the given word boundaries.
pub fn tokenize_segments(norm: &str, breaks: &Vec<usize>, policy: TokenizerPolicy) -> (r: Vec<
    String,
>)
    ensures
        emit::string_views(r@) == tokens_at(norm@, breaks@, policy),
{
    let bytes: &[u8] = norm.as_bytes();
    let mut processor: SegmentProcessor = SegmentProcessor::new(policy);
    let mut start: usize = 0;
    let mut i: usize = 0;
    while i < breaks.len()
        invariant
            i <= breaks@.len(),
            bytes@ == encode_utf8(norm@),
            processor.wf(),
            processor.folding() == policy,
            processor.progress() == walked(bytes@, breaks@, i as int, policy),
            start == start_before(breaks@, i as int),
        decreases breaks@.len() - i,
    {
        let end: usize = breaks[i];
        if end != start {
            let segment: Vec<char> = chars_between(bytes, start, end);
            if is_wordlike(segment.as_slice()) {
                processor.process(segment.as_slice());
            } else {
                processor.flush();
            }
            start = end;
        }
        i = i + 1;
    }
    processor.flush();
    processor.into_tokens()
}

/// The tokenizer with its folding policy.
#[derive(Debug, Clone, Copy)]
pub struct Tokenizer {
    policy: TokenizerPolicy,
}

impl View for Tokenizer {
    type V = TokenizerPolicy;

    closed spec fn view(&self) -> TokenizerPolicy {
        self.policy
    }
}

impl Default for Tokenizer {
    fn default() -> (r: Tokenizer)
        ensures
            r@ == (TokenizerPolicy { fold_latin_diacritics: true, fold_russian_yo: true }),
    {
        Tokenizer { policy: TokenizerPolicy::search() }
    }
}

impl Tokenizer {
    /// A tokenizer with the search policy.
    pub fn new() -> (r: Tokenizer)
        ensures
            r@ == (TokenizerPolicy { fold_latin_diacritics: true, fold_russian_yo: true }),
    {
        Tokenizer::with_policy(TokenizerPolicy::search())
    }

    /// A tokenizer with an explicit folding policy.
    pub fn with_policy(policy: TokenizerPolicy) -> (r: Tokenizer)
        ensures
            r@ == policy,
    {
        Tokenizer { policy }
    }

    /// The policy used by this tokenizer.
    pub fn policy(&self) -> (r: TokenizerPolicy)
        ensures
            r == self@,
    {
        self.policy
    }

    /// Splits `text` into normalized tokens, in the order of the text.
    pub fn tokenize(&self, text: &str) -> (r: Vec<String>)
        ensures
            emit::string_views(r@) == tokens_of(text@, self@),
    {
        if text.is_ascii() {
            let breaks: Vec<usize> = unicode::word_boundaries(text);
            tokenize_segments(text, &breaks, self.policy)
        } else {
            let norm: String = unicode::normalize(text);
            let breaks: Vec<usize> = unicode::word_boundaries(norm.as_str());
            tokenize_segments(norm.as_str(), &breaks, self.policy)
        }
    }
}

/// A CJK unified ideograph, the compatibility block and the supplementary
/// extensions included.
pub open spec fn ideograph(c: char) -> bool {
    let v = c as u32;
    (0x3400 <= v <= 0x4DBF) || (0x4E00 <= v <= 0x9FFF) || (0xF900 <= v <= 0xFAFF) || (0x20000 <= v
        <= 0x2FFFF)
}

/// Whether `c` is a CJK unified ideograph.
fn is_cjk_ideograph(c: char) -> (r: bool)
    ensures
        r == ideograph(c),
{
    let v: u32 = c as u32;
    (0x3400 <= v && v <= 0x4DBF) || (0x4E00 <= v && v <= 0x9FFF) || (0xF900 <= v && v <= 0xFAFF)
        || (0x20000 <= v && v <= 0x2FFFF)
}

/// The letters and numbers of `t`.
pub open spec fn kept(t: Seq<char>) -> Seq<char>
    decreases t.len(),
{
    if t.len() == 0 {
        Seq::empty()
    } else if unicode::alphanumeric(t.last()) {
        kept(t.drop_last()).push(t.last())
    } else {
        kept(t.drop_last())
    }
}

/// An open run as a token: cut to the byte budget, nothing where it is empty.
pub open spec fn flushed(run: Seq<char>) -> Seq<Seq<char>> {
    if run.len() == 0 {
        Seq::empty()
    } else {
        seq![run.take(emit::fitting(run, 0, 0))]
    }
}

/// The tokens that end inside `text` and the run left open after it.
pub open spec fn scanned(text: Seq<char>) -> segment::Progress
    decreases text.len(),
{
    if text.len() == 0 {
        segment::Progress { out: Seq::empty(), run: Seq::empty() }
    } else {
        let p = scanned(text.drop_last());
        let c = text.last();
        if ideograph(c) {
            segment::Progress { out: p.out + flushed(p.run) + flushed(seq![c]), run: Seq::empty() }
        } else if unicode::alphanumeric(c) {
            segment::Progress { out: p.out, run: p.run + kept(unicode::lowercase_char(c)) }
        } else {
            segment::Progress { out: p.out + flushed(p.run), run: Seq::empty() }
        }
    }
}

/// The tokens of a text under the first version of the rules.
pub open spec fn plain_tokens(text: Seq<char>) -> Seq<Seq<char>> {
    scanned(text).out + flushed(scanned(text).run)
}

/// Emits the open run, cut to the byte budget, and clears it.
fn flush(run: &mut Vec<char>, out: &mut Vec<String>)
    ensures
        final(run)@ == Seq::<char>::empty(),
        emit::string_views(final(out)@) == emit::string_views(old(out)@) + flushed(old(run)@),
{
    let ghost before = emit::string_views(out@);
    if run.len() > 0 {
        let end: usize = emit::budget_end(run.as_slice());
        let kept: &[char] = &run.as_slice()[0..end];
        assert(kept@ =~= run@.take(end as int));
        let token: String = string_of(kept);
        out.push(token);
        assert(emit::string_views(out@) =~= before + flushed(run@));
        run.clear();
    } else {
        assert(before + flushed(run@) =~= before);
    }
    assert(run@ =~= Seq::empty());
}

/// Appends the letters and numbers of `part`.
fn push_kept(part: &Vec<char>, run: &mut Vec<char>)
    ensures
        final(run)@ == old(run)@ + kept(part@),
{
    let ghost before = run@;
    let mut i: usize = 0;
    assert(part@.take(0) =~= Seq::empty());
    assert(before + Seq::<char>::empty() =~= before);
    while i < part.len()
        invariant
            i <= part@.len(),
            run@ == before + kept(part@.take(i as int)),
        decreases part@.len() - i,
    {
        assert(part@.take(i + 1).drop_last() =~= part@.take(i as int));
        if is_alphanumeric(part[i]) {
            run.push(part[i]);
        }
        i = i + 1;
        assert(run@ =~= before + kept(part@.take(i as int)));
    }
    assert(part@.take(i as int) =~= part@);
}

/// Splits `text` into tokens under the first version of the rules: runs of
/// letters and numbers in lowercase, each CJK ideograph on its own, at most
/// [`MAX_TOKEN_BYTES`] bytes.
pub fn tokenize(text: &str) -> (r: Vec<String>)
    ensures
        emit::string_views(r@) == plain_tokens(text@),
{
    let chars: Vec<char> = chars_of(text);
    let mut out: Vec<String> = Vec::new();
    let mut run: Vec<char> = Vec::new();
    let mut i: usize = 0;
    assert(chars@.take(0) =~= Seq::empty());
    assert(emit::string_views(out@) =~= Seq::empty());
    assert(run@ =~= Seq::empty());
    while i < chars.len()
        invariant
            i <= chars@.len(),
            emit::string_views(out@) == scanned(chars@.take(i as int)).out,
            run@ == scanned(chars@.take(i as int)).run,
        decreases chars@.len() - i,
    {
        let c: char = chars[i];
        assert(chars@.take(i + 1).drop_last() =~= chars@.take(i as int));
        if is_cjk_ideograph(c) {
            flush(&mut run, &mut out);
            run.push(c);
            assert(run@ =~= seq![c]);
            flush(&mut run, &mut out);
        } else if is_alphanumeric(c) {
            let lower: Vec<char> = to_lowercase(c);
            push_kept(&lower, &mut run);
        } else {
            flush(&mut run, &mut out);
        }
        i = i + 1;
    }
    assert(chars@.take(i as int) =~= chars@);
    flush(&mut run, &mut out);
    out
}

/// No token of the first version exceeds the byte budget.
pub proof fn plain_tokens_are_bounded(t: Seq<char>, k: int)
    requires
        0 <= k < plain_tokens(t).len(),
    ensures
        text::width_of(plain_tokens(t)[k]) <= MAX_TOKEN_BYTES,
{
    lemma_scanned_bounded(t);
    lemma_flushed_bounded(scanned(t).run);
}

spec fn bounded(tokens: Seq<Seq<char>>) -> bool {
    forall|k: int| 0 <= k < tokens.len() ==> text::width_of(#[trigger] tokens[k]) <= MAX_TOKEN_BYTES
}

proof fn lemma_flushed_bounded(run: Seq<char>)
    ensures
        bounded(flushed(run)),
{
    emit::lemma_fits(run);
}

proof fn lemma_scanned_bounded(t: Seq<char>)
    ensures
        bounded(scanned(t).out),
    decreases t.len(),
{
    if t.len() > 0 {
        let p = scanned(t.drop_last());
        lemma_scanned_bounded(t.drop_last());
        lemma_flushed_bounded(p.run);
        lemma_flushed_bounded(seq![t.last()]);
    }
}

/// A token of letters and numbers.
pub open spec fn all_kept(t: Seq<char>) -> bool {
    forall|i: int| 0 <= i < t.len() ==> unicode::alphanumeric(#[trigger] t[i])
}

/// Tokens that hold letters and numbers, or one ideograph.
spec fn words(tokens: Seq<Seq<char>>) -> bool {
    forall|k: int|
        0 <= k < tokens.len() ==> (#[trigger] tokens[k]).len() > 0 && (all_kept(tokens[k])
            || tokens[k].len() == 1 && ideograph(tokens[k][0]))
}

proof fn lemma_kept_kept(t: Seq<char>)
    ensures
        all_kept(kept(t)),
    decreases t.len(),
{
    if t.len() > 0 {
        lemma_kept_kept(t.drop_last());
    }
}

proof fn lemma_flushed_words(run: Seq<char>)
    requires
        all_kept(run) || run.len() == 1 && ideograph(run[0]),
    ensures
        words(flushed(run)),
{
    if run.len() > 0 {
        let n = emit::fitting(run, 0, 0);
        emit::lemma_fits(run);
        emit::lemma_one_fits(run);
        assert forall|i: int| 0 <= i < n implies run.take(n)[i] == #[trigger] run[i] by {}
        assert(flushed(run)[0] == run.take(n));
        assert(all_kept(run) ==> all_kept(run.take(n)));
    }
}

proof fn lemma_scanned_words(t: Seq<char>)
    ensures
        words(scanned(t).out),
        all_kept(scanned(t).run),
    decreases t.len(),
{
    if t.len() > 0 {
        let p = scanned(t.drop_last());
        let c = t.last();
        lemma_scanned_words(t.drop_last());
        lemma_flushed_words(p.run);
        lemma_kept_kept(unicode::lowercase_char(c));
        if ideograph(c) {
            lemma_flushed_words(seq![c]);
        }
    }
}

/// No token of the first version is empty: it holds letters and numbers, or
/// one ideograph.
pub proof fn plain_tokens_are_words(t: Seq<char>, k: int)
    requires
        0 <= k < plain_tokens(t).len(),
    ensures
        plain_tokens(t)[k].len() > 0,
        all_kept(plain_tokens(t)[k]) || plain_tokens(t)[k].len() == 1 && ideograph(
            plain_tokens(t)[k][0],
        ),
{
    lemma_scanned_words(t);
    lemma_flushed_words(scanned(t).run);
    assert(words(plain_tokens(t)));
}

proof fn lemma_joined(a: Seq<char>, c: char, b: Seq<char>)
    requires
        !ideograph(c),
    ensures
        !unicode::alphanumeric(c) ==> scanned(a.push(c) + b) == (segment::Progress {
            out: plain_tokens(a) + scanned(b).out,
            run: scanned(b).run,
        }),
    decreases b.len(),
{
    let whole = a.push(c) + b;
    if b.len() == 0 {
        assert(whole =~= a.push(c));
        assert(whole.drop_last() =~= a);
        assert(plain_tokens(a) + scanned(b).out =~= plain_tokens(a));
    } else {
        lemma_joined(a, c, b.drop_last());
        assert(whole.drop_last() =~= a.push(c) + b.drop_last());
        assert(whole.last() == b.last());
        let p = scanned(b.drop_last());
        assert(plain_tokens(a) + p.out + flushed(p.run) + flushed(seq![b.last()]) =~= plain_tokens(
            a,
        ) + (p.out + flushed(p.run) + flushed(seq![b.last()])));
        assert(plain_tokens(a) + p.out + flushed(p.run) =~= plain_tokens(a) + (p.out + flushed(
            p.run,
        )));
    }
}

/// Texts joined by a character that is no letter, number or ideograph tokenize
/// in turn.
pub proof fn joined_texts_tokenize_in_turn(a: Seq<char>, c: char, b: Seq<char>)
    requires
        !ideograph(c),
    ensures
        !unicode::alphanumeric(c) ==> plain_tokens(a.push(c) + b) == plain_tokens(a)
            + plain_tokens(b),
{
    lemma_joined(a, c, b);
    assert(plain_tokens(a) + scanned(b).out + flushed(scanned(b).run) =~= plain_tokens(a)
        + plain_tokens(b));
}

/// A character that a token may hold as it is: its own lowercase form.
pub open spec fn settled(c: char) -> bool {
    unicode::alphanumeric(c) && !ideograph(c) && unicode::lowercase_char(c) == seq![c]
}

proof fn lemma_settled(w: Seq<char>)
    ensures
        (forall|i: int| 0 <= i < w.len() ==> settled(#[trigger] w[i])) ==> scanned(w) == (
        segment::Progress { out: Seq::empty(), run: w }),
    decreases w.len(),
{
    if w.len() > 0 {
        let init = w.drop_last();
        let c = w.last();
        lemma_settled(init);
        if forall|i: int| 0 <= i < w.len() ==> settled(#[trigger] w[i]) {
            assert forall|i: int| 0 <= i < init.len() implies settled(#[trigger] init[i]) by {
                assert(init[i] == w[i]);
            }
            assert(settled(w[w.len() - 1]));
            assert(seq![c].drop_last() =~= Seq::<char>::empty());
            reveal_with_fuel(kept, 2);
            assert(kept(seq![c]) =~= seq![c]);
            assert(init + seq![c] =~= w);
        }
    } else {
        assert(w =~= Seq::empty());
    }
}

/// A word within the byte budget whose characters are their own lowercase
/// forms is its own one token, and so is one ideograph.
pub proof fn a_word_is_its_own_token(w: Seq<char>)
    requires
        w.len() > 0,
        text::width_of(w) <= MAX_TOKEN_BYTES,
    ensures
        (forall|i: int| 0 <= i < w.len() ==> settled(#[trigger] w[i])) ==> plain_tokens(w)
            == seq![w],
        w.len() == 1 && ideograph(w[0]) ==> plain_tokens(w) == seq![w],
{
    lemma_settled(w);
    emit::lemma_all_fits(w);
    assert(w.take(w.len() as int) =~= w);
    if w.len() == 1 {
        assert(w.drop_last() =~= Seq::<char>::empty());
        assert(seq![w[0]] =~= w);
        reveal_with_fuel(scanned, 2);
        if ideograph(w[0]) {
            let empty = Seq::<Seq<char>>::empty();
            assert(scanned(w).out =~= empty + flushed(Seq::empty()) + flushed(w));
            assert(plain_tokens(w) =~= flushed(w));
        }
    }
    assert(Seq::<Seq<char>>::empty() + flushed(w) =~= seq![w]);
}

} // verus!
