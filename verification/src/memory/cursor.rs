//! The opaque cursor of a tag page: five hexadecimal fields behind a version.

use crate::error::Error;
use crate::text::{chars_of, push_char, str_eq, string_of};
use vstd::prelude::*;
use vstd::string::*;

verus! {

/// Where a page scan goes on, and what it was a scan of.
#[derive(Clone, Copy, Debug, PartialEq, Eq, Structural)]
pub struct Cursor {
    /// Fingerprint of the catalog that was scanned.
    pub fingerprint: u64,
    /// Digest of the prefix that was asked for.
    pub prefix_hash: u64,
    /// The database.
    pub db_uuid: u128,
    /// The last tag that was returned.
    pub term: u32,
    /// Digest of that tag's name.
    pub term_hash: u64,
}

/// 16 to the power of `n`.
pub open spec fn pow16(n: nat) -> nat
    decreases n,
{
    if n == 0 {
        1
    } else {
        16 * pow16((n - 1) as nat)
    }
}

/// A hexadecimal digit, in lower case.
pub open spec fn hex_digit(v: nat) -> char {
    if v < 10 {
        ('0' as int + v as int) as char
    } else {
        ('a' as int + (v as int - 10)) as char
    }
}

/// The lowest `n` hexadecimal digits of a number.
pub open spec fn hex(v: nat, n: nat) -> Seq<char>
    decreases n,
{
    if n == 0 {
        Seq::empty()
    } else {
        hex(v / 16, (n - 1) as nat).push(hex_digit(v % 16))
    }
}

/// The value of a hexadecimal digit, in either case.
pub open spec fn digit_value(c: char) -> Option<nat> {
    if '0' <= c && c <= '9' {
        Some((c as int - '0' as int) as nat)
    } else if 'a' <= c && c <= 'f' {
        Some((c as int - 'a' as int + 10) as nat)
    } else if 'A' <= c && c <= 'F' {
        Some((c as int - 'A' as int + 10) as nat)
    } else {
        None
    }
}

/// The number that some digits stand for.
pub open spec fn digits_value(s: Seq<char>) -> Option<nat>
    decreases s.len(),
{
    if s.len() == 0 {
        Some(0)
    } else {
        match (digits_value(s.drop_last()), digit_value(s.last())) {
            (Some(v), Some(d)) => Some(16 * v + d),
            _ => None,
        }
    }
}

/// A field: an optional plus sign and at least one digit, at most `max`.
pub open spec fn field_value(s: Seq<char>, max: nat) -> Option<nat> {
    let body = if s.len() > 0 && s[0] == '+' {
        s.drop_first()
    } else {
        s
    };
    if body.len() == 0 {
        None
    } else {
        match digits_value(body) {
            Some(v) => if v <= max {
                Some(v)
            } else {
                None
            },
            None => None,
        }
    }
}

/// The pieces between the colons.
pub open spec fn pieces(s: Seq<char>) -> Seq<Seq<char>>
    decreases s.len(),
{
    if s.len() == 0 {
        seq![Seq::empty()]
    } else {
        let front = pieces(s.drop_last());
        if s.last() == ':' {
            front.push(Seq::empty())
        } else {
            front.update(front.len() - 1, front.last().push(s.last()))
        }
    }
}

/// The cursor that a string stands for.
pub open spec fn decoded(raw: Seq<char>) -> Result<Cursor, Error> {
    let p = pieces(raw);
    if p.len() != 6 || p[0] != "t1"@ {
        Err(Error::Invalid("malformed tag cursor"))
    } else {
        match (
            field_value(p[1], u64::MAX as nat),
            field_value(p[2], u64::MAX as nat),
            field_value(p[3], u128::MAX as nat),
            field_value(p[4], u32::MAX as nat),
            field_value(p[5], u64::MAX as nat),
        ) {
            (Some(a), Some(b), Some(c), Some(d), Some(e)) => Ok(
                Cursor {
                    fingerprint: a as u64,
                    prefix_hash: b as u64,
                    db_uuid: c as u128,
                    term: d as u32,
                    term_hash: e as u64,
                },
            ),
            _ => Err(Error::Invalid("malformed tag cursor")),
        }
    }
}

/// The string of a cursor.
pub open spec fn encoded(c: Cursor) -> Seq<char> {
    "t1"@.push(':') + hex(c.fingerprint as nat, 16).push(':') + hex(c.prefix_hash as nat, 16).push(
        ':',
    ) + hex(c.db_uuid as nat, 32).push(':') + hex(c.term as nat, 8).push(':') + hex(
        c.term_hash as nat,
        16,
    )
}

fn hex_char(v: u8) -> (r: char)
    requires
        v < 16,
    ensures
        r == hex_digit(v as nat),
{
    if v < 10 {
        (48 + v) as char
    } else {
        (97 + (v - 10)) as char
    }
}

/// Appends the lowest `n` hexadecimal digits of a number.
fn push_hex(out: &mut String, v: u128, n: usize)
    ensures
        final(out)@ == old(out)@ + hex(v as nat, n as nat),
    decreases n,
{
    let ghost start = out@;
    if n > 0 {
        push_hex(out, v / 16, n - 1);
        push_char(out, hex_char((v % 16) as u8));
    }
    assert(out@ =~= start + hex(v as nat, n as nat));
}

/// The string of a cursor.
pub(crate) fn encode_cursor(c: &Cursor) -> (r: String)
    ensures
        r@ == encoded(*c),
{
    let mut out: String = String::new();
    out.append("t1");
    push_char(&mut out, ':');
    push_hex(&mut out, c.fingerprint as u128, 16);
    push_char(&mut out, ':');
    push_hex(&mut out, c.prefix_hash as u128, 16);
    push_char(&mut out, ':');
    push_hex(&mut out, c.db_uuid, 32);
    push_char(&mut out, ':');
    push_hex(&mut out, c.term as u128, 8);
    push_char(&mut out, ':');
    push_hex(&mut out, c.term_hash as u128, 16);
    assert(out@ =~= encoded(*c));
    out
}

fn value_of(c: char) -> (r: Option<u8>)
    ensures
        match r {
            Some(v) => digit_value(c) == Some(v as nat) && v < 16,
            None => digit_value(c) is None,
        },
{
    let v: u32 = c as u32;
    if '0' <= c && c <= '9' {
        Some((v - 48) as u8)
    } else if 'a' <= c && c <= 'f' {
        Some((v - 97 + 10) as u8)
    } else if 'A' <= c && c <= 'F' {
        Some((v - 65 + 10) as u8)
    } else {
        None
    }
}

proof fn lemma_digits_prefix(s: Seq<char>, n: int)
    requires
        0 <= n <= s.len(),
    ensures
        digits_value(s.take(n)) is None ==> digits_value(s) is None,
        digits_value(s.take(n)) is Some && digits_value(s) is Some ==> digits_value(s.take(n))->0
            <= digits_value(s)->0,
    decreases s.len() - n,
{
    if n < s.len() {
        assert(s.take(n + 1).drop_last() =~= s.take(n));
        lemma_digits_prefix(s, n + 1);
    } else {
        assert(s.take(n) =~= s);
    }
}

/// Parses a field.
fn parse_field(s: &Vec<char>, max: u128) -> (r: Option<u128>)
    ensures
        match r {
            Some(v) => field_value(s@, max as nat) == Some(v as nat) && v <= max,
            None => field_value(s@, max as nat) is None,
        },
{
    let start: usize = if s.len() > 0 && s[0] == '+' {
        1
    } else {
        0
    };
    let ghost body = s@.skip(start as int);
    proof {
        if start == 1 {
            assert(body =~= s@.drop_first());
        } else {
            assert(body =~= s@);
        }
    }
    if start == s.len() {
        return None;
    }
    let mut v: u128 = 0;
    let mut i: usize = start;
    assert(body.take(0) =~= Seq::empty());
    while i < s.len()
        invariant
            start <= i <= s@.len(),
            start < s@.len(),
            body == s@.skip(start as int),
            body == (if s@.len() > 0 && s@[0] == '+' {
                s@.drop_first()
            } else {
                s@
            }),
            digits_value(body.take(i - start)) == Some(v as nat),
            v <= max,
        decreases s@.len() - i,
    {
        let ghost next = body.take(i - start + 1);
        proof {
            assert(next.drop_last() =~= body.take(i - start));
            assert(next.last() == s@[i as int]);
        }
        match value_of(s[i]) {
            None => {
                proof {
                    assert(digits_value(next) is None);
                    lemma_digits_prefix(body, i - start + 1);
                }
                return None;
            },
            Some(d) => {
                assert(digits_value(next) == Some((16 * v + d) as nat));
                if v > max / 16 || (v == max / 16 && d as u128 > max % 16) {
                    proof {
                        assert(16 * v + d > max);
                        lemma_digits_prefix(body, i - start + 1);
                    }
                    return None;
                }
                assert(16 * v + d <= max);
                v = 16 * v + d as u128;
            },
        }
        i = i + 1;
    }
    assert(body.take(i - start) =~= body);
    Some(v)
}

pub open spec fn char_views(xs: Seq<Vec<char>>) -> Seq<Seq<char>> {
    xs.map_values(|x: Vec<char>| x@)
}

/// Cuts a string at its colons.
fn split_colons(raw: &str) -> (r: Vec<Vec<char>>)
    ensures
        char_views(r@) == pieces(raw@),
        r@.len() > 0,
{
    let chars: Vec<char> = chars_of(raw);
    let mut done: Vec<Vec<char>> = Vec::new();
    let mut cur: Vec<char> = Vec::new();
    let mut i: usize = 0;
    proof {
        assert(chars@.take(0) =~= Seq::empty());
        assert(char_views(done@).push(cur@) =~= seq![Seq::empty()]);
    }
    while i < chars.len()
        invariant
            i <= chars@.len(),
            char_views(done@).push(cur@) == pieces(chars@.take(i as int)),
        decreases chars@.len() - i,
    {
        let ghost front = pieces(chars@.take(i as int));
        let ghost before = char_views(done@);
        proof {
            assert(chars@.take(i + 1).drop_last() =~= chars@.take(i as int));
            assert(chars@.take(i + 1).last() == chars@[i as int]);
        }
        if chars[i] == ':' {
            done.push(cur);
            cur = Vec::new();
            proof {
                assert(char_views(done@) =~= front);
                assert(char_views(done@).push(cur@) =~= front.push(Seq::empty()));
            }
        } else {
            let ghost was = cur@;
            cur.push(chars[i]);
            proof {
                assert(front.len() == before.len() + 1);
                assert(char_views(done@).push(cur@) =~= front.update(
                    front.len() - 1,
                    front.last().push(chars@[i as int]),
                ));
            }
        }
        i = i + 1;
    }
    assert(chars@.take(i as int) =~= chars@);
    let ghost last = cur@;
    let ghost before = char_views(done@);
    done.push(cur);
    assert(char_views(done@) =~= before.push(last));
    done
}

/// The cursor that a string stands for.
pub(crate) fn decode_cursor(raw: &str) -> (r: Result<Cursor, Error>)
    ensures
        r == decoded(raw@),
{
    let parts: Vec<Vec<char>> = split_colons(raw);
    let ghost p = pieces(raw@);
    if parts.len() != 6 {
        assert(p.len() != 6);
        return Err(Error::Invalid("malformed tag cursor"));
    }
    assert(forall|i: int| 0 <= i < 6 ==> #[trigger] p[i] == parts@[i]@);
    let version: String = string_of(parts[0].as_slice());
    if !str_eq(version.as_str(), "t1") {
        return Err(Error::Invalid("malformed tag cursor"));
    }
    let a: Option<u128> = parse_field(&parts[1], u64::MAX as u128);
    let b: Option<u128> = parse_field(&parts[2], u64::MAX as u128);
    let c: Option<u128> = parse_field(&parts[3], u128::MAX);
    let d: Option<u128> = parse_field(&parts[4], u32::MAX as u128);
    let e: Option<u128> = parse_field(&parts[5], u64::MAX as u128);
    match (a, b, c, d, e) {
        (
            Some(fingerprint),
            Some(prefix_hash),
            Some(db_uuid),
            Some(term),
            Some(term_hash),
        ) => Ok(
            Cursor {
                fingerprint: fingerprint as u64,
                prefix_hash: prefix_hash as u64,
                db_uuid,
                term: term as u32,
                term_hash: term_hash as u64,
            },
        ),
        _ => Err(Error::Invalid("malformed tag cursor")),
    }
}

/// A run of characters without a colon.
spec fn plain(s: Seq<char>) -> bool {
    forall|i: int| 0 <= i < s.len() ==> #[trigger] s[i] != ':'
}

proof fn lemma_pieces_plain(a: Seq<char>, b: Seq<char>)
    requires
        plain(b),
    ensures
        pieces(a).len() > 0,
        pieces(a + b) == pieces(a).update(pieces(a).len() - 1, pieces(a).last() + b),
    decreases b.len(),
{
    lemma_pieces_some(a);
    if b.len() == 0 {
        assert(a + b =~= a);
        assert(pieces(a).last() + b =~= pieces(a).last());
        assert(pieces(a) =~= pieces(a).update(pieces(a).len() - 1, pieces(a).last()));
    } else {
        let c = b.drop_last();
        assert(plain(c)) by {
            assert forall|i: int| 0 <= i < c.len() implies #[trigger] c[i] != ':' by {
                assert(c[i] == b[i]);
            }
        }
        lemma_pieces_plain(a, c);
        assert((a + b).drop_last() =~= a + c);
        assert((a + b).last() == b.last());
        assert(b[b.len() - 1] != ':');
        let front = pieces(a + c);
        assert(front.last().push(b.last()) =~= pieces(a).last() + b);
        assert(pieces(a + b) =~= pieces(a).update(pieces(a).len() - 1, pieces(a).last() + b));
    }
}

proof fn lemma_pieces_some(a: Seq<char>)
    ensures
        pieces(a).len() > 0,
    decreases a.len(),
{
    if a.len() > 0 {
        lemma_pieces_some(a.drop_last());
    }
}

/// Another piece behind a colon.
proof fn lemma_next_piece(a: Seq<char>, b: Seq<char>)
    requires
        plain(b),
    ensures
        pieces(a.push(':') + b) == pieces(a).push(b),
{
    lemma_pieces_plain(a.push(':'), b);
    assert(a.push(':').drop_last() =~= a);
    let front = pieces(a.push(':'));
    assert(front == pieces(a).push(Seq::empty()));
    assert(front.last() + b =~= b);
    assert(front.update(front.len() - 1, b) =~= pieces(a).push(b));
}

proof fn lemma_hex(v: nat, n: nat)
    requires
        v < pow16(n),
    ensures
        hex(v, n).len() == n,
        plain(hex(v, n)),
        digits_value(hex(v, n)) == Some(v),
        n > 0 ==> hex(v, n)[0] != '+',
    decreases n,
{
    if n > 0 {
        let m = (n - 1) as nat;
        assert(v / 16 < pow16(m)) by (nonlinear_arith)
            requires
                v < 16 * pow16(m),
        ;
        lemma_hex(v / 16, m);
        let front = hex(v / 16, m);
        let d = hex_digit(v % 16);
        assert(hex(v, n).drop_last() =~= front);
        assert(digit_value(d) == Some(v % 16));
        assert forall|i: int| 0 <= i < n implies #[trigger] hex(v, n)[i] != ':' by {
            if i < m {
                assert(hex(v, n)[i] == front[i]);
            }
        }
        if m > 0 {
            assert(hex(v, n)[0] == front[0]);
        }
    }
}

proof fn lemma_field(v: nat, n: nat, max: nat)
    requires
        n > 0,
        v < pow16(n),
        v <= max,
    ensures
        field_value(hex(v, n), max) == Some(v),
        plain(hex(v, n)),
{
    lemma_hex(v, n);
}

proof fn lemma_pow16()
    ensures
        pow16(8) == 0x1_0000_0000,
        pow16(16) == 0x1_0000_0000_0000_0000,
        pow16(32) == 0x1_0000_0000_0000_0000_0000_0000_0000_0000,
{
    reveal_with_fuel(pow16, 33);
}

/// A cursor survives its string: a page can always go on from where the last
/// one ended.
pub proof fn cursor_round_trip(c: Cursor)
    ensures
        decoded(encoded(c)) == Ok::<Cursor, Error>(c),
{
    lemma_pow16();
    let h1 = hex(c.fingerprint as nat, 16);
    let h2 = hex(c.prefix_hash as nat, 16);
    let h3 = hex(c.db_uuid as nat, 32);
    let h4 = hex(c.term as nat, 8);
    let h5 = hex(c.term_hash as nat, 16);
    lemma_field(c.fingerprint as nat, 16, u64::MAX as nat);
    lemma_field(c.prefix_hash as nat, 16, u64::MAX as nat);
    lemma_field(c.db_uuid as nat, 32, u128::MAX as nat);
    lemma_field(c.term as nat, 8, u32::MAX as nat);
    lemma_field(c.term_hash as nat, 16, u64::MAX as nat);
    let s0 = "t1"@;
    reveal_strlit("t1");
    assert(plain(s0));
    lemma_pieces_plain(Seq::empty(), s0);
    assert(Seq::<char>::empty() + s0 =~= s0);
    assert(pieces(s0) =~= seq![s0]) by {
        assert(pieces(Seq::<char>::empty()) =~= seq![Seq::<char>::empty()]);
        assert(pieces(Seq::<char>::empty()).last() + s0 =~= s0);
    }
    let s1 = s0.push(':') + h1;
    let s2 = s1.push(':') + h2;
    let s3 = s2.push(':') + h3;
    let s4 = s3.push(':') + h4;
    let s5 = s4.push(':') + h5;
    lemma_next_piece(s0, h1);
    lemma_next_piece(s1, h2);
    lemma_next_piece(s2, h3);
    lemma_next_piece(s3, h4);
    lemma_next_piece(s4, h5);
    assert(s5 =~= encoded(c));
    assert(pieces(s5) =~= seq![s0, h1, h2, h3, h4, h5]);
}

} // verus!
