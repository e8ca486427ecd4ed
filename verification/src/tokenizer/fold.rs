//! Unicode folding of segmented lexical text.

use crate::text::{chars_of, string_of};
use crate::tokenizer::emit;
use crate::tokenizer::emit::emit_truncated;
use crate::tokenizer::policy::TokenizerPolicy;
use crate::tokenizer::tables;
use crate::tokenizer::tables::{is_word_joiner, mapped_char};
use crate::tokenizer::unicode;
use crate::tokenizer::unicode::{
    decompose_canonical, is_alphanumeric, is_ascii_alphanumeric, is_default_ignorable, is_mark,
};
use vstd::prelude::*;
use vstd::string::*;

verus! {

/// Canonical decompositions longer than this are kept composed.
pub const MAX_PARTS: usize = 8;

/// `t` without the marks in it.
pub open spec fn unmarked(t: Seq<char>) -> Seq<char>
    decreases t.len(),
{
    if t.len() == 0 {
        Seq::empty()
    } else if unicode::mark(t.last()) {
        unmarked(t.drop_last())
    } else {
        unmarked(t.drop_last()).push(t.last())
    }
}

/// What one lowercased character adds to the token being assembled.
pub open spec fn folded_letter(c: char, policy: TokenizerPolicy) -> Seq<char> {
    let parts = unicode::decomposed(c);
    if (c as u32) < 0x80 {
        seq![c]
    } else if policy.fold_latin_diacritics && 0 < parts.len() <= MAX_PARTS
        && unicode::ascii_alphanumeric(parts[0]) {
        unmarked(parts)
    } else {
        seq![c]
    }
}

/// The token being assembled, and whether a mark was seen in it.
pub struct Assembly {
    pub token: Seq<char>,
    pub again: bool,
}

pub open spec fn nothing() -> Assembly {
    Assembly { token: Seq::empty(), again: false }
}

/// The assembly after one character, and whether that character ends it.
pub open spec fn folded(a: Assembly, c: char, policy: TokenizerPolicy) -> (Assembly, bool) {
    let ends = a.token.len() > 0;
    if policy.fold_russian_yo && tables::russian_fold(c) is Some {
        (Assembly { token: a.token.push(tables::russian_fold(c)->0), again: a.again }, false)
    } else if unicode::ignorable(c) {
        (a, false)
    } else if unicode::mark(c) {
        if ends && unicode::ascii_alphanumeric(a.token.last()) {
            (Assembly { token: a.token, again: true }, false)
        } else {
            (Assembly { token: a.token.push(c), again: true }, false)
        }
    } else if !unicode::alphanumeric(c) {
        if ends && unicode::alphanumeric(a.token.last()) && tables::joiner(c) {
            (Assembly { token: a.token.push(c), again: a.again }, false)
        } else {
            (a, ends)
        }
    } else {
        (Assembly { token: a.token + folded_letter(c, policy), again: a.again }, false)
    }
}

/// The tokens that end inside `text`, and the assembly left open after it.
pub open spec fn folded_text(text: Seq<char>, policy: TokenizerPolicy) -> (
    Seq<Seq<char>>,
    Assembly,
)
    decreases text.len(),
{
    if text.len() == 0 {
        (Seq::empty(), nothing())
    } else {
        let (out, a) = folded_text(text.drop_last(), policy);
        let (b, ends) = folded(a, text.last(), policy);
        if ends {
            (out + emit::emitted(b.token), nothing())
        } else {
            (out, b)
        }
    }
}

/// The tokens of an assembly: folded again, over its normalized spelling,
/// until the fold no longer changes it or the passes are used up.
pub open spec fn settled(a: Assembly, policy: TokenizerPolicy, passes: nat) -> Seq<Seq<char>>
    decreases passes,
{
    if !a.again || passes == 0 {
        emit::emitted(a.token)
    } else {
        let canonical = unicode::nfkc(a.token);
        let (out, b) = folded_text(canonical, policy);
        out + settled(
            Assembly { token: b.token, again: b.again && b.token != canonical },
            policy,
            (passes - 1) as nat,
        )
    }
}

/// The number of passes granted to a token: each pass that changes it folds a
/// mark away.
pub open spec fn passes(token: Seq<char>) -> nat {
    4 * token.len() + 4
}

/// The tokens that end inside a lowercased segment, and what is left open.
pub open spec fn segment_walk(text: Seq<char>, policy: TokenizerPolicy) -> (
    Seq<Seq<char>>,
    Assembly,
)
    decreases text.len(),
{
    if text.len() == 0 {
        (Seq::empty(), nothing())
    } else {
        let (out, a) = segment_walk(text.drop_last(), policy);
        let (b, ends) = folded(a, text.last(), policy);
        if ends {
            (out + settled(b, policy, passes(b.token)), nothing())
        } else {
            (out, b)
        }
    }
}

/// The tokens of a lowercased segment.
pub open spec fn segment_tokens(text: Seq<char>, policy: TokenizerPolicy) -> Seq<Seq<char>> {
    let (out, a) = segment_walk(text, policy);
    out + settled(a, policy, passes(a.token))
}

/// Appends the characters of `parts` that are not marks.
fn push_unmarked(parts: &Vec<char>, out: &mut Vec<char>)
    ensures
        final(out)@ == old(out)@ + unmarked(parts@),
{
    let ghost before = out@;
    let mut i: usize = 0;
    assert(before + Seq::<char>::empty() =~= before);
    assert(parts@.take(0) =~= Seq::empty());
    while i < parts.len()
        invariant
            i <= parts@.len(),
            out@ == before + unmarked(parts@.take(i as int)),
        decreases parts@.len() - i,
    {
        let c: char = parts[i];
        assert(parts@.take(i + 1).drop_last() =~= parts@.take(i as int));
        if !is_mark(c) {
            out.push(c);
        }
        i = i + 1;
        assert(out@ =~= before + unmarked(parts@.take(i as int)));
    }
    assert(parts@.take(i as int) =~= parts@);
}

/// Pushes one lowercased character into the token, applying the folding
/// rules. Returns `true` when the character is a boundary after an assembled
/// token.
fn fold_into(c: char, out: &mut Vec<char>, policy: TokenizerPolicy, again: &mut bool) -> (r: bool)
    ensures
        folded((Assembly { token: old(out)@, again: *old(again) }), c, policy) == (
            (Assembly { token: final(out)@, again: *final(again) }),
            r,
        ),
{
    if policy.fold_russian_yo {
        if let Some(mapped) = mapped_char(c) {
            out.push(mapped);
            return false;
        }
    }
    if is_default_ignorable(c) {
        return false;
    }
    let n: usize = out.len();
    if is_mark(c) {
        *again = true;
        if !(n > 0 && is_ascii_alphanumeric(out[n - 1])) {
            out.push(c);
        }
        return false;
    }
    if !is_alphanumeric(c) {
        if n > 0 && is_alphanumeric(out[n - 1]) && is_word_joiner(c) {
            out.push(c);
            return false;
        }
        return n > 0;
    }
    let ghost before = out@;
    if (c as u32) < 0x80 {
        out.push(c);
        assert(out@ =~= before + seq![c]);
        return false;
    }
    let parts: Vec<char> = decompose_canonical(c);
    if policy.fold_latin_diacritics && 0 < parts.len() && parts.len() <= MAX_PARTS
        && is_ascii_alphanumeric(parts[0]) {
        push_unmarked(&parts, out);
    } else {
        out.push(c);
        assert(out@ =~= before + seq![c]);
    }
    false
}

/// One pass over the normalized spelling: emits the tokens that end inside it
/// and leaves the open one in `token`.
fn fold_pass(canonical: &Vec<char>, policy: TokenizerPolicy, out: &mut Vec<String>) -> (r: (
    Vec<char>,
    bool,
))
    ensures
        emit::string_views(final(out)@) == emit::string_views(old(out)@) + folded_text(
            canonical@,
            policy,
        ).0,
        folded_text(canonical@, policy).1 == (Assembly { token: r.0@, again: r.1 }),
{
    let mut token: Vec<char> = Vec::new();
    let mut again: bool = false;
    let ghost before = emit::string_views(out@);
    let mut i: usize = 0;
    assert(canonical@.take(0) =~= Seq::empty());
    assert(before + Seq::<Seq<char>>::empty() =~= before);
    assert(token@ =~= Seq::empty());
    while i < canonical.len()
        invariant
            i <= canonical@.len(),
            emit::string_views(out@) == before + folded_text(canonical@.take(i as int), policy).0,
            folded_text(canonical@.take(i as int), policy).1 == (Assembly { token: token@, again }),
        decreases canonical@.len() - i,
    {
        let ghost seen = emit::string_views(out@);
        let c: char = canonical[i];
        assert(canonical@.take(i + 1).drop_last() =~= canonical@.take(i as int));
        if fold_into(c, &mut token, policy, &mut again) {
            emit_truncated(token.as_slice(), out);
            assert(emit::string_views(out@) =~= before + folded_text(
                canonical@.take(i + 1),
                policy,
            ).0);
            token.clear();
            again = false;
            assert(token@ =~= Seq::empty());
        }
        i = i + 1;
    }
    assert(canonical@.take(i as int) =~= canonical@);
    (token, again)
}

fn same_chars(a: &Vec<char>, b: &Vec<char>) -> (r: bool)
    ensures
        r == (a@ == b@),
{
    if a.len() != b.len() {
        return false;
    }
    let mut i: usize = 0;
    while i < a.len()
        invariant
            i <= a@.len() == b@.len(),
            forall|k: int| 0 <= k < i ==> a@[k] == b@[k],
        decreases a@.len() - i,
    {
        if a[i] != b[i] {
            return false;
        }
        i = i + 1;
    }
    assert(a@ =~= b@);
    true
}

/// Re-normalizes a folded token when folding exposed marks.
///
/// One pass is not always enough: a fold can expose a new composition, and
/// that composition another foldable mark sequence. The pass is applied until
/// the fold no longer changes the normalized spelling.
fn emit_folded(token: Vec<char>, again: bool, policy: TokenizerPolicy, out: &mut Vec<String>)
    ensures
        emit::string_views(final(out)@) == emit::string_views(old(out)@) + settled(
            Assembly { token: token@, again },
            policy,
            passes(token@),
        ),
{
    let ghost before = emit::string_views(out@);
    let ghost whole = settled(Assembly { token: token@, again }, policy, passes(token@));
    let mut token: Vec<char> = token;
    let mut again: bool = again;
    let mut left: u128 = 4 * (token.len() as u128) + 4;
    let ghost mut done: Seq<Seq<char>> = Seq::empty();
    proof {
        assert(before + done =~= before);
        assert(done + whole =~= whole);
    }
    while again && left > 0
        invariant
            emit::string_views(out@) == before + done,
            whole == done + settled(Assembly { token: token@, again }, policy, left as nat),
        decreases left,
    {
        let text: String = string_of(token.as_slice());
        let canonical: Vec<char> = chars_of(unicode::normalize(text.as_str()).as_str());
        assert(canonical@ == unicode::nfkc(token@));
        let (next, marked) = fold_pass(&canonical, policy, out);
        let ghost ended = folded_text(canonical@, policy).0;
        let changed: bool = !same_chars(&next, &canonical);
        proof {
            let rest = settled(
                Assembly { token: next@, again: marked && changed },
                policy,
                (left - 1) as nat,
            );
            assert(whole == done + (ended + rest));
            assert(done + (ended + rest) =~= (done + ended) + rest);
            assert(before + (done + ended) =~= (before + done) + ended);
            done = done + ended;
        }
        token = next;
        again = marked && changed;
        left = left - 1;
    }
    emit_truncated(token.as_slice(), out);
    assert(before + (done + emit::emitted(token@)) =~= (before + done) + emit::emitted(token@));
}

/// Folds one lowercased word segment into tokens.
pub fn fold_segment(segment: &str, policy: TokenizerPolicy, out: &mut Vec<String>)
    ensures
        emit::string_views(final(out)@) == emit::string_views(old(out)@) + segment_tokens(
            segment@,
            policy,
        ),
{
    let chars: Vec<char> = chars_of(segment);
    let mut token: Vec<char> = Vec::new();
    let mut again: bool = false;
    let ghost before = emit::string_views(out@);
    let mut i: usize = 0;
    assert(chars@.take(0) =~= Seq::empty());
    assert(before + Seq::<Seq<char>>::empty() =~= before);
    assert(token@ =~= Seq::empty());
    while i < chars.len()
        invariant
            i <= chars@.len(),
            emit::string_views(out@) == before + segment_walk(chars@.take(i as int), policy).0,
            segment_walk(chars@.take(i as int), policy).1 == (Assembly { token: token@, again }),
        decreases chars@.len() - i,
    {
        let c: char = chars[i];
        assert(chars@.take(i + 1).drop_last() =~= chars@.take(i as int));
        if fold_into(c, &mut token, policy, &mut again) {
            emit_folded(token, again, policy, out);
            assert(emit::string_views(out@) =~= before + segment_walk(
                chars@.take(i + 1),
                policy,
            ).0);
            token = Vec::new();
            again = false;
            assert(token@ =~= Seq::empty());
        }
        i = i + 1;
    }
    assert(chars@.take(i as int) =~= chars@);
    emit_folded(token, again, policy, out);
    assert(emit::string_views(out@) =~= before + segment_tokens(segment@, policy));
}

} // verus!
