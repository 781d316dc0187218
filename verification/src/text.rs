//! Text helpers: decimal rendering of integers, millimetre rendering of
//! femto-millimetre lengths, and lexicographic comparison of strings.
use vstd::prelude::*;

verus! {

/// Calls std's `String::push`, which vstd gives no specification: its
/// documentation says it appends the given `char` to the end of the
/// string, and that is all the contract claims.
#[verifier::external_body]
pub(crate) fn push_char(s: &mut String, c: char)
    ensures
        final(s)@ == old(s)@.push(c),
{
    s.push(c);
}

/// The character of a decimal digit `d` (0..=9).
pub open spec fn digit_char(d: int) -> char {
    if d == 0 {
        '0'
    } else if d == 1 {
        '1'
    } else if d == 2 {
        '2'
    } else if d == 3 {
        '3'
    } else if d == 4 {
        '4'
    } else if d == 5 {
        '5'
    } else if d == 6 {
        '6'
    } else if d == 7 {
        '7'
    } else if d == 8 {
        '8'
    } else {
        '9'
    }
}

/// Decimal spelling of a natural number, most significant digit first,
/// without leading zeros ("0" for zero).
pub open spec fn nat_text(n: nat) -> Seq<char>
    decreases n,
{
    if n < 10 {
        seq![digit_char(n as int)]
    } else {
        nat_text(n / 10).push(digit_char((n % 10) as int))
    }
}

/// Decimal spelling of an integer, with a leading `-` when negative.
pub open spec fn int_text(i: int) -> Seq<char> {
    if i < 0 {
        seq!['-'] + nat_text((-i) as nat)
    } else {
        nat_text(i as nat)
    }
}

/// `k` zero characters.
pub open spec fn zeros(k: nat) -> Seq<char> {
    Seq::new(k, |_i: int| '0')
}

/// `n` left-padded with zeros to `w` digits (no padding when it is longer).
pub open spec fn padded(n: nat, w: nat) -> Seq<char> {
    let t = nat_text(n);
    if t.len() < w {
        zeros((w - t.len()) as nat) + t
    } else {
        t
    }
}

/// The fractional part of a fixed-point number with `w` fractional digits
/// whose fraction digits are `r`: empty when `r` is zero, otherwise `.`
/// followed by the digits with trailing zeros removed.
pub open spec fn frac_text(r: nat, w: nat) -> Seq<char>
    decreases r,
{
    if r == 0 {
        Seq::empty()
    } else if r % 10 == 0 && w > 0 {
        frac_text(r / 10, (w - 1) as nat)
    } else {
        seq!['.'] + padded(r, w)
    }
}

/// One millimetre in femto-millimetres.
pub open spec fn femto_per_mm() -> nat {
    1_000_000_000_000_000
}

/// Exact millimetre spelling of a femto-millimetre quantity: sign, integer
/// millimetres, and the shortest exact fraction (`1`, `-0.5`, `0.125`).
pub open spec fn mm_text(femto: int) -> Seq<char> {
    let mag: nat = if femto < 0 { (-femto) as nat } else { femto as nat };
    let body = nat_text(mag / femto_per_mm()) + frac_text(mag % femto_per_mm(), 15);
    if femto < 0 {
        seq!['-'] + body
    } else {
        body
    }
}

fn digit(d: u128) -> (c: char)
    requires
        d < 10,
    ensures
        c == digit_char(d as int),
{
    if d == 0 {
        '0'
    } else if d == 1 {
        '1'
    } else if d == 2 {
        '2'
    } else if d == 3 {
        '3'
    } else if d == 4 {
        '4'
    } else if d == 5 {
        '5'
    } else if d == 6 {
        '6'
    } else if d == 7 {
        '7'
    } else if d == 8 {
        '8'
    } else {
        '9'
    }
}

/// Appends the decimal spelling of `n`.
pub fn push_nat(s: &mut String, n: u128)
    ensures
        final(s)@ == old(s)@ + nat_text(n as nat),
    decreases n,
{
    if n >= 10 {
        push_nat(s, n / 10);
        push_char(s, digit(n % 10));
        assert(nat_text(n as nat) == nat_text((n / 10) as nat).push(digit_char((n % 10) as int)));
        assert(final(s)@ =~= old(s)@ + nat_text(n as nat));
    } else {
        push_char(s, digit(n));
        assert(final(s)@ =~= old(s)@ + nat_text(n as nat));
    }
}

/// Number of decimal digits of `n`.
fn digit_count(n: u128) -> (k: u128)
    ensures
        k == nat_text(n as nat).len(),
    decreases n,
{
    if n >= 10 {
        let k = digit_count(n / 10);
        assert(nat_text(n as nat).len() == nat_text((n / 10) as nat).len() + 1);
        proof {
            lemma_nat_text_len_bound((n / 10) as nat);
        }
        k + 1
    } else {
        1
    }
}

/// The spelling of a natural number is never longer than the number itself
/// plus one (a coarse bound that keeps digit counts in range).
proof fn lemma_nat_text_len_bound(n: nat)
    ensures
        nat_text(n).len() <= n + 1,
    decreases n,
{
    if n >= 10 {
        lemma_nat_text_len_bound(n / 10);
    }
}

fn push_zeros(s: &mut String, k: u128)
    ensures
        final(s)@ == old(s)@ + zeros(k as nat),
{
    let mut i: u128 = 0;
    while i < k
        invariant
            i <= k,
            s@ == old(s)@ + zeros(i as nat),
        decreases k - i,
    {
        push_char(s, '0');
        i = i + 1;
        assert(s@ =~= old(s)@ + zeros(i as nat));
    }
}

fn push_padded(s: &mut String, n: u128, w: u128)
    ensures
        final(s)@ == old(s)@ + padded(n as nat, w as nat),
{
    let k = digit_count(n);
    if k < w {
        push_zeros(s, w - k);
    }
    push_nat(s, n);
    assert(final(s)@ =~= old(s)@ + padded(n as nat, w as nat));
}

fn push_frac(s: &mut String, r: u128, w: u128)
    ensures
        final(s)@ == old(s)@ + frac_text(r as nat, w as nat),
    decreases r,
{
    if r == 0 {
        assert(final(s)@ =~= old(s)@ + frac_text(r as nat, w as nat));
    } else if r % 10 == 0 && w > 0 {
        push_frac(s, r / 10, w - 1);
    } else {
        push_char(s, '.');
        push_padded(s, r, w);
        assert(final(s)@ =~= old(s)@ + frac_text(r as nat, w as nat));
    }
}

/// The magnitude of an `i128` as a `u128`.
fn magnitude(v: i128) -> (m: u128)
    ensures
        m as int == (if v < 0 { -v } else { v as int }),
{
    if v < 0 {
        let p: i128 = -(v + 1);
        (p as u128) + 1
    } else {
        v as u128
    }
}

/// The decimal spelling of an integer.
pub fn int_string(v: i128) -> (s: String)
    ensures
        s@ == int_text(v as int),
{
    let mut s = String::new();
    if v < 0 {
        push_char(&mut s, '-');
    }
    push_nat(&mut s, magnitude(v));
    assert(s@ =~= int_text(v as int));
    s
}

/// The exact millimetre spelling of a femto-millimetre quantity, without
/// the unit suffix.
pub fn mm_femto(femto: i128) -> (s: String)
    ensures
        s@ == mm_text(femto as int),
{
    let mut s = String::new();
    if femto < 0 {
        push_char(&mut s, '-');
    }
    let mag = magnitude(femto);
    let unit: u128 = 1_000_000_000_000_000;
    push_nat(&mut s, mag / unit);
    push_frac(&mut s, mag % unit, 15);
    assert(s@ =~= mm_text(femto as int));
    s
}

/// Appends a `&str` to a `String`.
pub fn push_str(s: &mut String, t: &str)
    ensures
        final(s)@ == old(s)@ + t@,
{
    s.append(t);
}

/// Strict lexicographic order on character sequences (the order of byte
/// strings for UTF-8 text, since UTF-8 preserves code point order).
pub open spec fn seq_lt(a: Seq<char>, b: Seq<char>) -> bool
    decreases a.len(),
{
    if a.len() == 0 {
        b.len() > 0
    } else if b.len() == 0 {
        false
    } else if a[0] != b[0] {
        (a[0] as int) < (b[0] as int)
    } else {
        seq_lt(a.drop_first(), b.drop_first())
    }
}

pub proof fn lemma_lt_irreflexive(a: Seq<char>)
    ensures
        !seq_lt(a, a),
    decreases a.len(),
{
    if a.len() > 0 {
        lemma_lt_irreflexive(a.drop_first());
    }
}

pub proof fn lemma_lt_asymmetric(a: Seq<char>, b: Seq<char>)
    ensures
        !(seq_lt(a, b) && seq_lt(b, a)),
    decreases a.len(),
{
    if a.len() > 0 && b.len() > 0 && a[0] == b[0] {
        lemma_lt_asymmetric(a.drop_first(), b.drop_first());
    }
}

pub proof fn lemma_lt_transitive(a: Seq<char>, b: Seq<char>, c: Seq<char>)
    requires
        seq_lt(a, b),
        seq_lt(b, c),
    ensures
        seq_lt(a, c),
    decreases a.len(),
{
    if a.len() > 0 && b.len() > 0 && c.len() > 0 && a[0] == b[0] && b[0] == c[0] {
        lemma_lt_transitive(a.drop_first(), b.drop_first(), c.drop_first());
    }
}

pub proof fn lemma_lt_total(a: Seq<char>, b: Seq<char>)
    ensures
        a == b || seq_lt(a, b) || seq_lt(b, a),
    decreases a.len(),
{
    if a.len() > 0 && b.len() > 0 && a[0] == b[0] {
        let ta = a.drop_first();
        let tb = b.drop_first();
        lemma_lt_total(ta, tb);
        if ta == tb {
            assert forall|i: int| 0 <= i < a.len() implies a[i] == b[i] by {
                if i > 0 {
                    assert(a[i] == ta[i - 1]);
                    assert(b[i] == tb[i - 1]);
                }
            }
            assert(a =~= b);
        }
    } else if a.len() == 0 && b.len() == 0 {
        assert(a =~= b);
    }
}

/// Whether `a` sorts strictly before `b`.
pub fn str_lt(a: &String, b: &String) -> (r: bool)
    ensures
        r == seq_lt(a@, b@),
{
    let la = a.as_str().unicode_len();
    let lb = b.as_str().unicode_len();
    let mut i: usize = 0;
    assert(a@.skip(0) =~= a@);
    assert(b@.skip(0) =~= b@);
    while i < la && i < lb
        invariant
            la == a@.len(),
            lb == b@.len(),
            i <= la,
            i <= lb,
            seq_lt(a@, b@) == seq_lt(a@.skip(i as int), b@.skip(i as int)),
        decreases la - i,
    {
        let ca = a.as_str().get_char(i);
        let cb = b.as_str().get_char(i);
        let ghost sa = a@.skip(i as int);
        let ghost sb = b@.skip(i as int);
        assert(sa[0] == ca);
        assert(sb[0] == cb);
        if ca != cb {
            return (ca as u32) < (cb as u32);
        }
        assert(sa.drop_first() =~= a@.skip(i + 1));
        assert(sb.drop_first() =~= b@.skip(i + 1));
        i = i + 1;
    }
    i == la && i < lb
}

/// The concatenation of a sequence of texts.
pub open spec fn concat(parts: Seq<Seq<char>>) -> Seq<char>
    decreases parts.len(),
{
    if parts.len() == 0 {
        Seq::empty()
    } else {
        concat(parts.drop_last()) + parts.last()
    }
}

/// The concatenation of `parts`.
pub fn cat(parts: &Vec<&str>) -> (s: String)
    ensures
        s@ == concat(parts@.map_values(|p: &str| p@)),
{
    let mut s = String::new();
    let mut i: usize = 0;
    while i < parts.len()
        invariant
            i <= parts@.len(),
            s@ == concat(parts@.take(i as int).map_values(|p: &str| p@)),
        decreases parts@.len() - i,
    {
        push_str(&mut s, parts[i]);
        assert(parts@.take(i + 1).map_values(|p: &str| p@).drop_last() =~= parts@.take(
            i as int,
        ).map_values(|p: &str| p@));
        i = i + 1;
    }
    assert(parts@.take(parts@.len() as int) =~= parts@);
    s
}

/// Texts joined by `, `.
pub open spec fn join_comma(parts: Seq<Seq<char>>) -> Seq<char>
    decreases parts.len(),
{
    if parts.len() == 0 {
        Seq::empty()
    } else if parts.len() == 1 {
        parts[0]
    } else {
        join_comma(parts.drop_last()) + seq![',', ' '] + parts.last()
    }
}

} // verus!
