//! Canonical token emission and byte-budget handling.
//!
//! Marks and word joiners are meaningful only after a lexical base, so leading
//! ones are removed: keeping either would make re-tokenization
//! context-sensitive. A mark-only token is retained only when it is a single
//! alphabetic mark.

use crate::text;
use crate::text::{char_width, string_of};
use crate::tokenizer::tables;
use crate::tokenizer::tables::is_word_joiner;
use crate::tokenizer::unicode;
use crate::tokenizer::unicode::{
    canonical_combining_class, has_alphabetic_property, is_alphabetic, is_alphanumeric, is_mark,
};
use vstd::prelude::*;
use vstd::string::*;

verus! {

/// Upper bound on an emitted token, in bytes.
pub const MAX_TOKEN_BYTES: usize = 64;

pub open spec fn string_views(xs: Seq<String>) -> Seq<Seq<char>> {
    xs.map_values(|s: String| s@)
}

/// The number of marks in front of `t`.
pub open spec fn mark_run(t: Seq<char>) -> int
    decreases t.len(),
{
    if t.len() == 0 || !unicode::mark(t[0]) {
        0
    } else {
        1 + mark_run(t.skip(1))
    }
}

/// The number of joiners in front of `t`.
pub open spec fn joiner_run(t: Seq<char>) -> int
    decreases t.len(),
{
    if t.len() == 0 || !tables::joiner(t[0]) {
        0
    } else {
        1 + joiner_run(t.skip(1))
    }
}

/// `t` without the marks that precede a lexical base; a mark-only token is
/// left untouched.
pub open spec fn without_marks(t: Seq<char>) -> Seq<char> {
    if mark_run(t) == t.len() {
        t
    } else {
        t.skip(mark_run(t))
    }
}

/// One pass over the front of a token: marks, then joiners.
pub open spec fn front_pass(t: Seq<char>) -> Seq<char> {
    without_marks(t).skip(joiner_run(without_marks(t)))
}

/// `t` without any sequence of leading marks and joiners.
pub open spec fn trimmed(t: Seq<char>) -> Seq<char>
    decreases t.len(),
{
    if front_pass(t).len() >= t.len() {
        t
    } else {
        trimmed(front_pass(t))
    }
}

/// A character that can carry a token: alphanumeric or alphabetic, and not a
/// mark.
pub open spec fn lexical_base(c: char) -> bool {
    (unicode::alphanumeric(c) || unicode::alphabetic_property(c)) && !unicode::mark(c)
}

/// A token worth emitting: some character is a lexical base, or the token is
/// one alphanumeric mark that combines.
pub open spec fn lexical(t: Seq<char>) -> bool {
    ||| exists|i: int| 0 <= i < t.len() && lexical_base(#[trigger] t[i])
    ||| t.len() == 1 && unicode::mark(t[0]) && unicode::alphanumeric(t[0])
        && unicode::combining_class(t[0]) != 0
}

/// A letter, by either source.
pub open spec fn letter(c: char) -> bool {
    unicode::alphabetic(c) || unicode::alphabetic_property(c)
}

/// The last character of `t` that is not a mark.
pub open spec fn last_base(t: Seq<char>) -> Option<char>
    decreases t.len(),
{
    if t.len() == 0 {
        None
    } else if !unicode::mark(t.last()) {
        Some(t.last())
    } else {
        last_base(t.drop_last())
    }
}

/// The first character of `t` that is not a mark.
pub open spec fn first_base(t: Seq<char>) -> Option<char>
    decreases t.len(),
{
    if t.len() == 0 {
        None
    } else if !unicode::mark(t[0]) {
        Some(t[0])
    } else {
        first_base(t.skip(1))
    }
}

pub open spec fn is_some_letter(c: Option<char>) -> bool {
    match c {
        Some(x) => letter(x),
        None => false,
    }
}

/// The character at `i` is an apostrophe that does not stand between letters.
pub open spec fn stray_apostrophe(t: Seq<char>, i: int) -> bool {
    (t[i] == '\'' || t[i] == '\u{2019}') && !(is_some_letter(last_base(t.take(i)))
        && is_some_letter(first_base(t.skip(i + 1))))
}

/// The first stray apostrophe from `i` on, or the length of `t`.
pub open spec fn stray_from(t: Seq<char>, i: int) -> int
    decreases t.len() - i,
{
    if i >= t.len() || stray_apostrophe(t, i) {
        i
    } else {
        stray_from(t, i + 1)
    }
}

/// How many characters from `i` on still fit a budget of which `used` bytes
/// are spent.
pub open spec fn fitting(t: Seq<char>, i: int, used: int) -> int
    decreases t.len() - i,
{
    if i >= t.len() || used + text::utf8_width(t[i]) > MAX_TOKEN_BYTES {
        i
    } else {
        fitting(t, i + 1, used + text::utf8_width(t[i]))
    }
}

/// Strips the suffix of marks and joiners of `t[..end]`; `saw` tells whether a
/// joiner was among them.
pub open spec fn stripped(t: Seq<char>, end: int, saw: bool) -> (int, bool)
    decreases end,
{
    if end <= 0 {
        (0, saw)
    } else if tables::joiner(t[end - 1]) {
        stripped(t, end - 1, true)
    } else if unicode::mark(t[end - 1]) {
        stripped(t, end - 1, saw)
    } else {
        (end, saw)
    }
}

/// Where a token ends: at its byte budget, without a contextual suffix that
/// holds a joiner.
pub open spec fn token_end(t: Seq<char>) -> int {
    let end = fitting(t, 0, 0);
    let (cut, saw) = stripped(t, end, false);
    if saw {
        cut
    } else {
        end
    }
}

/// The tokens that one assembled token gives.
pub open spec fn emitted(raw: Seq<char>) -> Seq<Seq<char>>
    decreases raw.len(),
{
    let t = trimmed(raw);
    let at = stray_from(t, 0);
    if t.len() == 0 || !lexical(t) {
        Seq::empty()
    } else if at < t.len() && t.len() <= raw.len() && at >= 0 {
        emitted(t.take(at)) + emitted(t.skip(at + 1))
    } else if token_end(t) == 0 || !lexical(t.take(token_end(t))) {
        Seq::empty()
    } else {
        seq![t.take(token_end(t))]
    }
}

proof fn lemma_trimmed(t: Seq<char>)
    ensures
        trimmed(t).len() <= t.len(),
    decreases t.len(),
{
    if front_pass(t).len() < t.len() {
        lemma_trimmed(front_pass(t));
    }
}

proof fn lemma_stray(t: Seq<char>, i: int)
    requires
        0 <= i <= t.len(),
    ensures
        i <= stray_from(t, i) <= t.len(),
    decreases t.len() - i,
{
    if i < t.len() && !stray_apostrophe(t, i) {
        lemma_stray(t, i + 1);
    }
}

proof fn lemma_fitting(t: Seq<char>, i: int, used: int)
    requires
        0 <= i <= t.len(),
    ensures
        i <= fitting(t, i, used) <= t.len(),
    decreases t.len() - i,
{
    if i < t.len() && used + text::utf8_width(t[i]) <= MAX_TOKEN_BYTES {
        lemma_fitting(t, i + 1, used + text::utf8_width(t[i]));
    }
}

proof fn lemma_stripped(t: Seq<char>, end: int, saw: bool)
    requires
        0 <= end,
    ensures
        0 <= stripped(t, end, saw).0 <= end,
    decreases end,
{
    if end > 0 {
        if tables::joiner(t[end - 1]) {
            lemma_stripped(t, end - 1, true);
        } else if unicode::mark(t[end - 1]) {
            lemma_stripped(t, end - 1, saw);
        }
    }
}

/// An emitted token never exceeds the byte budget.
proof fn lemma_budget(t: Seq<char>, i: int, used: int, n: int)
    requires
        0 <= i <= t.len(),
        used <= MAX_TOKEN_BYTES,
        used == text::width_of(t.take(i)),
        i <= n <= fitting(t, i, used),
    ensures
        text::width_of(t.take(n)) <= MAX_TOKEN_BYTES,
    decreases t.len() - i,
{
    if n > i {
        lemma_fitting(t, i, used);
        assert(i < t.len());
        lemma_width_push(t.take(i), t[i]);
        assert(t.take(i + 1) =~= t.take(i).push(t[i]));
        lemma_budget(t, i + 1, used + text::utf8_width(t[i]), n);
    }
}

/// What fits the byte budget stays inside it.
pub proof fn lemma_fits(t: Seq<char>)
    ensures
        0 <= fitting(t, 0, 0) <= t.len(),
        text::width_of(t.take(fitting(t, 0, 0))) <= MAX_TOKEN_BYTES,
{
    lemma_fitting(t, 0, 0);
    assert(t.take(0) =~= Seq::empty());
    lemma_budget(t, 0, 0, fitting(t, 0, 0));
}

/// The first character always fits.
pub proof fn lemma_one_fits(t: Seq<char>)
    requires
        t.len() > 0,
    ensures
        fitting(t, 0, 0) >= 1,
{
    lemma_fitting(t, 1, text::utf8_width(t[0]) as int);
}

proof fn lemma_rest_fits(t: Seq<char>, i: int, used: int)
    requires
        0 <= i <= t.len(),
        used + text::width_of(t.skip(i)) <= MAX_TOKEN_BYTES,
    ensures
        fitting(t, i, used) == t.len(),
    decreases t.len() - i,
{
    if i < t.len() {
        assert(t.skip(i)[0] == t[i]);
        assert(t.skip(i).drop_first() =~= t.skip(i + 1));
        lemma_width_nonneg(t.skip(i + 1));
        lemma_rest_fits(t, i + 1, used + text::utf8_width(t[i]));
    }
}

/// What is within the byte budget fits as a whole.
pub proof fn lemma_all_fits(t: Seq<char>)
    requires
        text::width_of(t) <= MAX_TOKEN_BYTES,
    ensures
        fitting(t, 0, 0) == t.len(),
{
    assert(t.skip(0) =~= t);
    lemma_rest_fits(t, 0, 0);
}

proof fn lemma_width_push(t: Seq<char>, c: char)
    ensures
        text::width_of(t.push(c)) == text::width_of(t) + text::utf8_width(c),
    decreases t.len(),
{
    if t.len() == 0 {
        assert(t.push(c).drop_first() =~= Seq::empty());
        assert(text::width_of(Seq::<char>::empty()) == 0);
    } else {
        lemma_width_push(t.drop_first(), c);
        assert(t.push(c).drop_first() =~= t.drop_first().push(c));
    }
}

/// Every token that is emitted holds lexical content and at most
/// [`MAX_TOKEN_BYTES`] bytes.
pub proof fn emitted_tokens_are_bounded(raw: Seq<char>, k: int)
    requires
        0 <= k < emitted(raw).len(),
    ensures
        lexical(emitted(raw)[k]),
        0 < text::width_of(emitted(raw)[k]) <= MAX_TOKEN_BYTES,
    decreases raw.len(),
{
    let t = trimmed(raw);
    let at = stray_from(t, 0);
    lemma_trimmed(raw);
    lemma_stray(t, 0);
    if at < t.len() {
        let left = emitted(t.take(at));
        if k < left.len() {
            emitted_tokens_are_bounded(t.take(at), k);
        } else {
            emitted_tokens_are_bounded(t.skip(at + 1), k - left.len());
        }
    } else {
        let end = fitting(t, 0, 0);
        lemma_fitting(t, 0, 0);
        lemma_stripped(t, end, false);
        assert(t.take(0) =~= Seq::empty());
        lemma_budget(t, 0, 0, token_end(t));
        lemma_width_nonneg(t.take(token_end(t)).drop_first());
    }
}

proof fn lemma_width_nonneg(t: Seq<char>)
    ensures
        0 <= text::width_of(t),
    decreases t.len(),
{
    if t.len() > 0 {
        lemma_width_nonneg(t.drop_first());
    }
}

fn marks_in_front(t: &[char]) -> (r: usize)
    ensures
        r == mark_run(t@),
        r <= t@.len(),
{
    let mut i: usize = 0;
    assert(t@.skip(0) =~= t@);
    while i < t.len() && is_mark(t[i])
        invariant
            i <= t@.len(),
            mark_run(t@) == i + mark_run(t@.skip(i as int)),
        decreases t@.len() - i,
    {
        assert(t@.skip(i as int).skip(1) =~= t@.skip(i + 1));
        i = i + 1;
    }
    i
}

fn joiners_in_front(t: &[char]) -> (r: usize)
    ensures
        r == joiner_run(t@),
        r <= t@.len(),
{
    let mut i: usize = 0;
    assert(t@.skip(0) =~= t@);
    while i < t.len() && is_word_joiner(t[i])
        invariant
            i <= t@.len(),
            joiner_run(t@) == i + joiner_run(t@.skip(i as int)),
        decreases t@.len() - i,
    {
        assert(t@.skip(i as int).skip(1) =~= t@.skip(i + 1));
        i = i + 1;
    }
    i
}

/// Removes any sequence of leading marks and word joiners.
fn trim_leading_contextual_chars<'a>(token: &'a [char]) -> (r: &'a [char])
    ensures
        r@ == trimmed(token@),
        r@.len() <= token@.len(),
    decreases token@.len(),
{
    let m: usize = marks_in_front(token);
    let bare: &'a [char] = if m == token.len() { token } else { &token[m..token.len()] };
    assert(bare@ =~= without_marks(token@));
    let j: usize = joiners_in_front(bare);
    let next: &'a [char] = &bare[j..bare.len()];
    assert(next@ =~= front_pass(token@));
    if next.len() >= token.len() {
        return token;
    }
    trim_leading_contextual_chars(next)
}

fn is_letter(c: char) -> (r: bool)
    ensures
        r == letter(c),
{
    is_alphabetic(c) || has_alphabetic_property(c)
}

fn is_lexical_base(c: char) -> (r: bool)
    ensures
        r == lexical_base(c),
{
    (is_alphanumeric(c) || has_alphabetic_property(c)) && !is_mark(c)
}

fn has_emit_lexical_content(t: &[char]) -> (r: bool)
    ensures
        r == lexical(t@),
{
    let mut i: usize = 0;
    while i < t.len()
        invariant
            i <= t@.len(),
            forall|k: int| 0 <= k < i ==> !lexical_base(#[trigger] t@[k]),
        decreases t@.len() - i,
    {
        if is_lexical_base(t[i]) {
            return true;
        }
        i = i + 1;
    }
    t.len() == 1 && is_mark(t[0]) && is_alphanumeric(t[0]) && canonical_combining_class(t[0]) != 0
}

fn previous_non_mark(t: &[char]) -> (r: Option<char>)
    ensures
        r == last_base(t@),
{
    let mut n: usize = t.len();
    assert(t@.take(n as int) =~= t@);
    while n > 0
        invariant
            n <= t@.len(),
            last_base(t@) == last_base(t@.take(n as int)),
        decreases n,
    {
        if !is_mark(t[n - 1]) {
            return Some(t[n - 1]);
        }
        assert(t@.take(n as int).drop_last() =~= t@.take(n - 1));
        n = n - 1;
    }
    None
}

fn next_non_mark(t: &[char]) -> (r: Option<char>)
    ensures
        r == first_base(t@),
{
    let mut n: usize = 0;
    assert(t@.skip(0) =~= t@);
    while n < t.len()
        invariant
            n <= t@.len(),
            first_base(t@) == first_base(t@.skip(n as int)),
        decreases t@.len() - n,
    {
        if !is_mark(t[n]) {
            return Some(t[n]);
        }
        assert(t@.skip(n as int).skip(1) =~= t@.skip(n + 1));
        n = n + 1;
    }
    None
}

/// The place of the first apostrophe that does not stand between letters.
fn invalid_apostrophe_joiner(t: &[char]) -> (r: usize)
    ensures
        r == stray_from(t@, 0),
        r <= t@.len(),
{
    let mut i: usize = 0;
    while i < t.len()
        invariant
            i <= t@.len(),
            stray_from(t@, 0) == stray_from(t@, i as int),
        decreases t@.len() - i,
    {
        let c: char = t[i];
        if c == '\'' || c == '\u{2019}' {
            let before: &[char] = &t[0..i];
            let behind: &[char] = &t[i + 1..t.len()];
            assert(before@ =~= t@.take(i as int));
            assert(behind@ =~= t@.skip(i + 1));
            let left: bool = match previous_non_mark(before) {
                Some(x) => is_letter(x),
                None => false,
            };
            let right: bool = match next_non_mark(behind) {
                Some(x) => is_letter(x),
                None => false,
            };
            if !left || !right {
                return i;
            }
        }
        i = i + 1;
    }
    i
}

/// Where the byte budget of a token ends.
pub fn budget_end(t: &[char]) -> (r: usize)
    ensures
        r == fitting(t@, 0, 0),
        r <= t@.len(),
{
    let mut i: usize = 0;
    let mut used: usize = 0;
    while i < t.len()
        invariant
            i <= t@.len(),
            used <= MAX_TOKEN_BYTES,
            fitting(t@, 0, 0) == fitting(t@, i as int, used as int),
        decreases t@.len() - i,
    {
        let w: usize = char_width(t[i]);
        if used + w > MAX_TOKEN_BYTES {
            return i;
        }
        used = used + w;
        i = i + 1;
    }
    i
}

fn cut_end(t: &[char]) -> (r: usize)
    ensures
        r == token_end(t@),
        r <= t@.len(),
{
    let full: usize = budget_end(t);
    let mut end: usize = full;
    let mut saw: bool = false;
    while end > 0
        invariant
            end <= full <= t@.len(),
            full == fitting(t@, 0, 0),
            stripped(t@, full as int, false) == stripped(t@, end as int, saw),
        decreases end,
    {
        let c: char = t[end - 1];
        if is_word_joiner(c) {
            saw = true;
            end = end - 1;
        } else if is_mark(c) {
            end = end - 1;
        } else {
            return if saw { end } else { full };
        }
    }
    if saw {
        0
    } else {
        full
    }
}

/// Emits the assembled token: trimmed, split at stray apostrophes and
/// truncated to [`MAX_TOKEN_BYTES`] at a character boundary.
pub fn emit_truncated(token: &[char], out: &mut Vec<String>)
    ensures
        string_views(final(out)@) == string_views(old(out)@) + emitted(token@),
    decreases token@.len(),
{
    let ghost before = string_views(out@);
    assert(before + Seq::<Seq<char>>::empty() =~= before);
    let t: &[char] = trim_leading_contextual_chars(token);
    if t.len() == 0 || !has_emit_lexical_content(t) {
        return;
    }
    let at: usize = invalid_apostrophe_joiner(t);
    if at < t.len() {
        let left: &[char] = &t[0..at];
        let right: &[char] = &t[at + 1..t.len()];
        assert(left@ =~= t@.take(at as int));
        assert(right@ =~= t@.skip(at + 1));
        emit_truncated(left, out);
        emit_truncated(right, out);
        assert(string_views(out@) =~= before + (emitted(left@) + emitted(right@)));
        return;
    }
    let end: usize = cut_end(t);
    if end == 0 {
        return;
    }
    let kept: &[char] = &t[0..end];
    assert(kept@ =~= t@.take(end as int));
    if !has_emit_lexical_content(kept) {
        return;
    }
    out.push(string_of(kept));
    assert(string_views(out@) =~= before + seq![kept@]);
}

} // verus!
