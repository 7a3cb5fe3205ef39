//! Framing of session entries into the persisted data blob.
//!
//! A state is framed as a flat byte string: for each entry, the decimal
//! character count of the key, a colon, the key's bytes, then the same for
//! the value. Lengths are canonical decimals (no leading zeros), so every
//! byte string is the framing of at most one entry list: decoding is exact
//! and accepts precisely the framings.

use vstd::prelude::*;

use crate::session::{kv_map, kv_unique, SessionState};

verus! {

/// An ASCII decimal digit.
pub open spec fn is_digit_byte(b: u8) -> bool {
    48 <= b <= 57
}

/// The canonical decimal form of a number, as ASCII bytes.
pub open spec fn dec_digits(n: nat) -> Seq<u8>
    decreases n,
{
    if n < 10 {
        seq![(48 + n) as u8]
    } else {
        dec_digits(n / 10).push((48 + n % 10) as u8)
    }
}

/// The number a digit string denotes.
pub open spec fn digits_val(d: Seq<u8>) -> nat
    decreases d.len(),
{
    if d.len() == 0 {
        0
    } else {
        10 * digits_val(d.drop_last()) + (d.last() - 48) as nat
    }
}

/// Powers of ten.
pub open spec fn pow10(n: nat) -> nat
    decreases n,
{
    if n == 0 {
        1nat
    } else {
        10 * pow10((n - 1) as nat)
    }
}

/// One framed field: the canonical length, a colon, the bytes.
pub open spec fn frame_field(b: Seq<u8>) -> Seq<u8> {
    dec_digits(b.len()) + seq![58u8] + b
}

/// A framed entry list: key field then value field, entry by entry.
pub open spec fn frame_entries(s: Seq<(Vec<u8>, Vec<u8>)>) -> Seq<u8>
    decreases s.len(),
{
    if s.len() == 0 {
        Seq::empty()
    } else {
        frame_field(s[0].0@) + frame_field(s[0].1@) + frame_entries(s.drop_first())
    }
}

/// One sequence standing at the front of another.
pub open spec fn seq_prefix(p: Seq<u8>, b: Seq<u8>) -> bool {
    p.len() <= b.len() && b.subrange(0, p.len() as int) == p
}

proof fn lemma_dec_digits_are_digits(n: nat)
    ensures
        dec_digits(n).len() >= 1,
        forall|i: int| 0 <= i < dec_digits(n).len() ==> is_digit_byte(#[trigger] dec_digits(n)[i]),
    decreases n,
{
    if n >= 10 {
        lemma_dec_digits_are_digits(n / 10);
    }
}

proof fn lemma_dec_digits_first_nonzero(n: nat)
    requires
        n >= 1,
    ensures
        dec_digits(n)[0] != 48,
    decreases n,
{
    if n >= 10 {
        lemma_dec_digits_first_nonzero(n / 10);
    }
}

proof fn lemma_val_of_dec_digits(n: nat)
    ensures
        digits_val(dec_digits(n)) == n,
    decreases n,
{
    if n < 10 {
        assert(dec_digits(n) == seq![(48 + n) as u8]);
        assert(dec_digits(n).drop_last() =~= Seq::<u8>::empty());
        assert((48 + n) as u8 == 48 + n);
        assert(digits_val(dec_digits(n)) == 10 * digits_val(Seq::<u8>::empty()) + ((48 + n) as u8
            - 48) as nat);
    } else {
        lemma_val_of_dec_digits(n / 10);
        assert(dec_digits(n).drop_last() =~= dec_digits(n / 10));
        assert(dec_digits(n).last() == (48 + n % 10) as u8);
        assert(n % 10 < 10);
        assert((48 + n % 10) as u8 == 48 + n % 10);
        assert(digits_val(dec_digits(n)) == 10 * (n / 10) + n % 10);
        assert(10 * (n / 10) + n % 10 == n) by {
            vstd::arithmetic::div_mod::lemma_fundamental_div_mod(n as int, 10);
        }
    }
}

proof fn lemma_digits_val_lower_bound(d: Seq<u8>)
    requires
        d.len() >= 1,
        forall|i: int| 0 <= i < d.len() ==> is_digit_byte(#[trigger] d[i]),
        d[0] != 48,
    ensures
        digits_val(d) >= pow10((d.len() - 1) as nat),
    decreases d.len(),
{
    if d.len() == 1 {
    } else {
        assert(d.drop_last()[0] == d[0]);
        lemma_digits_val_lower_bound(d.drop_last());
    }
}

proof fn lemma_canonical_digits_round_trip(d: Seq<u8>)
    requires
        d.len() >= 1,
        forall|i: int| 0 <= i < d.len() ==> is_digit_byte(#[trigger] d[i]),
        d[0] != 48 || d.len() == 1,
    ensures
        dec_digits(digits_val(d)) == d,
    decreases d.len(),
{
    if d.len() == 1 {
        assert(d.drop_last() =~= Seq::<u8>::empty());
        assert(d.last() == d[0]);
        assert(digits_val(d) == (d[0] - 48) as nat) by {
            reveal_with_fuel(digits_val, 3);
        }
        assert(dec_digits(digits_val(d)) =~= d);
    } else {
        let front = d.drop_last();
        assert(front[0] == d[0]);
        lemma_canonical_digits_round_trip(front);
        lemma_digits_val_lower_bound(front);
        assert(pow10((front.len() - 1) as nat) >= 1) by {
            lemma_pow10_pos((front.len() - 1) as nat);
        }
        let n = digits_val(d);
        let q = digits_val(front);
        let rm = (d.last() - 48) as nat;
        assert(n == 10 * q + rm);
        assert(n >= 10);
        assert(n / 10 == q && n % 10 == rm) by (nonlinear_arith)
            requires
                n == 10 * q + rm,
                rm < 10;
        assert(dec_digits(n) == dec_digits(digits_val(front)).push((48 + n % 10) as u8));
        assert(dec_digits(n) =~= d);
    }
}

proof fn lemma_pow10_pos(n: nat)
    ensures
        pow10(n) >= 1,
    decreases n,
{
    if n > 0 {
        lemma_pow10_pos((n - 1) as nat);
    }
}

/// Two framed fields at the front of the same bytes are the same field: the
/// digit run ends at the first colon, fixing the length, which fixes the
/// rest.
proof fn lemma_frame_field_prefix_unique(b: Seq<u8>, f: Seq<u8>, k: Seq<u8>)
    requires
        seq_prefix(frame_field(f), b),
        seq_prefix(frame_field(k), b),
    ensures
        f == k,
{
    let df = dec_digits(f.len());
    let dk = dec_digits(k.len());
    lemma_dec_digits_are_digits(f.len());
    lemma_dec_digits_are_digits(k.len());
    assert forall|i: int| 0 <= i < df.len() implies b[i] == df[i] by {
        assert(frame_field(f)[i] == df[i]);
        assert(b.subrange(0, frame_field(f).len() as int)[i] == b[i]);
    }
    assert(b[df.len() as int] == 58) by {
        assert(frame_field(f)[df.len() as int] == 58);
        assert(b.subrange(0, frame_field(f).len() as int)[df.len() as int] == b[df.len() as int]);
    }
    assert forall|i: int| 0 <= i < dk.len() implies b[i] == dk[i] by {
        assert(frame_field(k)[i] == dk[i]);
        assert(b.subrange(0, frame_field(k).len() as int)[i] == b[i]);
    }
    assert(b[dk.len() as int] == 58) by {
        assert(frame_field(k)[dk.len() as int] == 58);
        assert(b.subrange(0, frame_field(k).len() as int)[dk.len() as int] == b[dk.len() as int]);
    }
    // the digit runs have the same length: a longer one would place a digit
    // where the other placed its colon
    if df.len() < dk.len() {
        assert(is_digit_byte(dk[df.len() as int]));
        assert(b[df.len() as int] == dk[df.len() as int]);
        assert(false);
    }
    if dk.len() < df.len() {
        assert(is_digit_byte(df[dk.len() as int]));
        assert(b[dk.len() as int] == df[dk.len() as int]);
        assert(false);
    }
    assert(df =~= dk);
    lemma_val_of_dec_digits(f.len());
    lemma_val_of_dec_digits(k.len());
    assert(f.len() == k.len());
    assert forall|i: int| 0 <= i < f.len() implies f[i] == k[i] by {
        let off = df.len() + 1;
        assert(frame_field(f)[off + i] == f[i]);
        assert(frame_field(k)[off + i] == k[i]);
        assert(b.subrange(0, frame_field(f).len() as int)[off + i] == b[off + i]);
        assert(b.subrange(0, frame_field(k).len() as int)[off + i] == b[off + i]);
    }
    assert(f =~= k);
}

fn push_digits(out: &mut Vec<u8>, n: usize)
    ensures
        final(out)@ == old(out)@ + dec_digits(n as nat),
    decreases n,
{
    if n < 10 {
        out.push(48 + n as u8);
        assert(final(out)@ =~= old(out)@ + dec_digits(n as nat));
    } else {
        push_digits(out, n / 10);
        out.push(48 + (n % 10) as u8);
        assert(final(out)@ =~= old(out)@ + dec_digits(n as nat));
    }
}

fn push_field(out: &mut Vec<u8>, b: &[u8])
    ensures
        final(out)@ == old(out)@ + frame_field(b@),
{
    push_digits(out, b.len());
    out.push(58);
    let mut i: usize = 0;
    while i < b.len()
        invariant
            i <= b@.len(),
            out@ == old(out)@ + dec_digits(b@.len()) + seq![58u8] + b@.subrange(0, i as int),
        decreases b@.len() - i,
    {
        let ghost pre = out@;
        out.push(b[i]);
        proof {
            assert(out@ =~= old(out)@ + dec_digits(b@.len()) + seq![58u8] + b@.subrange(
                0,
                i + 1,
            ));
        }
        i = i + 1;
    }
    proof {
        assert(b@.subrange(0, b@.len() as int) =~= b@);
        assert(out@ =~= old(out)@ + frame_field(b@));
    }
}

proof fn lemma_frame_entries_snoc(s: Seq<(Vec<u8>, Vec<u8>)>, i: int)
    requires
        0 <= i < s.len(),
    ensures
        frame_entries(s.subrange(0, i + 1)) == frame_entries(s.subrange(0, i)) + frame_field(
            s[i].0@,
        ) + frame_field(s[i].1@),
    decreases i,
{
    let a = s.subrange(0, i + 1);
    let b = s.subrange(0, i);
    if i == 0 {
        assert(a.drop_first() =~= Seq::<(Vec<u8>, Vec<u8>)>::empty());
        assert(b =~= Seq::<(Vec<u8>, Vec<u8>)>::empty());
        assert(frame_entries(a) =~= frame_field(s[0].0@) + frame_field(s[0].1@));
        assert(frame_entries(b) =~= Seq::<u8>::empty());
        assert(frame_entries(b) + frame_field(s[0].0@) + frame_field(s[0].1@) =~= frame_entries(
            a,
        ));
    } else {
        let t = s.drop_first();
        assert(a.drop_first() =~= t.subrange(0, i));
        assert(b.drop_first() =~= t.subrange(0, i - 1));
        lemma_frame_entries_snoc(t, i - 1);
        assert(a[0] == s[0] && b[0] == s[0]);
        assert(t[i - 1] == s[i]);
        assert(frame_entries(a) == frame_field(s[0].0@) + frame_field(s[0].1@) + frame_entries(
            t.subrange(0, i),
        ));
        assert(frame_entries(b) == frame_field(s[0].0@) + frame_field(s[0].1@) + frame_entries(
            t.subrange(0, i - 1),
        ));
        assert(frame_entries(a) =~= frame_entries(b) + frame_field(s[i].0@) + frame_field(
            s[i].1@,
        ));
    }
}

proof fn lemma_dec_digits_len_le(n: nat, k: nat)
    requires
        k >= 1,
        n < pow10(k),
    ensures
        dec_digits(n).len() <= k,
    decreases n,
{
    if n < 10 {
    } else {
        if k == 1 {
            assert(pow10(1nat) == 10) by {
                reveal_with_fuel(pow10, 3);
            }
            assert(false);
        }
        assert(pow10(k) == 10 * pow10((k - 1) as nat));
        assert(n / 10 < pow10((k - 1) as nat)) by (nonlinear_arith)
            requires
                n < 10 * pow10((k - 1) as nat);
        lemma_dec_digits_len_le(n / 10, (k - 1) as nat);
    }
}

/// Where the digit run of a framed field ends in the carrying bytes: at the
/// first non-digit, which is the field's colon; everything about the field
/// is then fixed.
proof fn lemma_run_matches(b: Seq<u8>, f: Seq<u8>, d: int)
    requires
        seq_prefix(frame_field(f), b),
        0 <= d <= b.len(),
        forall|j: int| 0 <= j < d ==> is_digit_byte(#[trigger] b[j]),
        d == b.len() || !is_digit_byte(b[d]),
    ensures
        d == dec_digits(f.len()).len(),
        b.subrange(0, d) =~= dec_digits(f.len()),
        d < b.len() && b[d] == 58,
        digits_val(b.subrange(0, d)) == f.len(),
        d + 1 + f.len() <= b.len(),
        f =~= b.subrange(d + 1, d + 1 + f.len() as int),
{
    let df = dec_digits(f.len());
    let ff = frame_field(f);
    lemma_dec_digits_are_digits(f.len());
    assert forall|i: int| 0 <= i < ff.len() implies b[i] == ff[i] by {
        assert(b.subrange(0, ff.len() as int)[i] == b[i]);
    }
    assert(ff.len() == df.len() + 1 + f.len());
    assert(ff[df.len() as int] == 58);
    assert(b[df.len() as int] == 58);
    if d < df.len() {
        assert(ff[d] == df[d]);
        assert(is_digit_byte(df[d]));
        assert(d < b.len());
        assert(b[d] == df[d]);
        assert(false);
    }
    if d > df.len() {
        assert(is_digit_byte(b[df.len() as int]));
        assert(false);
    }
    assert(b.subrange(0, d) =~= df);
    lemma_val_of_dec_digits(f.len());
    assert forall|i: int| 0 <= i < f.len() implies b[d + 1 + i] == f[i] by {
        assert(ff[df.len() + 1 + i] == f[i]);
    }
    assert(f =~= b.subrange(d + 1, d + 1 + f.len() as int));
}

/// Frame an entry list into the persisted blob.
pub fn encode_entries(entries: &Vec<(Vec<u8>, Vec<u8>)>) -> (r: Vec<u8>)
    ensures
        r@ == frame_entries(entries@),
{
    let mut out: Vec<u8> = Vec::new();
    let mut i: usize = 0;
    proof {
        assert(entries@.subrange(0, 0) =~= Seq::<(Vec<u8>, Vec<u8>)>::empty());
    }
    while i < entries.len()
        invariant
            i <= entries@.len(),
            out@ == frame_entries(entries@.subrange(0, i as int)),
        decreases entries@.len() - i,
    {
        push_field(&mut out, entries[i].0.as_slice());
        push_field(&mut out, entries[i].1.as_slice());
        proof {
            lemma_frame_entries_snoc(entries@, i as int);
        }
        i = i + 1;
    }
    proof {
        assert(entries@.subrange(0, entries@.len() as int) =~= entries@);
    }
    out
}

/// Parse one framed field off the front of `b`: the field's bytes and how
/// much was consumed. Accepts exactly the byte strings that start with a
/// framed field, and returns the one field that starts them.
fn parse_field(b: &[u8]) -> (r: Option<(Vec<u8>, usize)>)
    ensures
        r matches Some(p) ==> {
            &&& 2 <= p.1 <= b@.len()
            &&& b@.subrange(0, p.1 as int) == frame_field(p.0@)
        },
        forall|f: Seq<u8>| #[trigger] seq_prefix(frame_field(f), b@) ==> r is Some,
{
    let n = b.len();
    let mut d: usize = 0;
    while d < n && 48 <= b[d] && b[d] <= 57
        invariant
            n == b@.len(),
            d <= n,
            forall|j: int| 0 <= j < d ==> is_digit_byte(#[trigger] b@[j]),
        decreases n - d,
    {
        d = d + 1;
    }
    if d == 0 || d > 20 || (b[0] == 48 && d > 1) || d == n || b[d] != 58 {
        proof {
            assert forall|f: Seq<u8>| #[trigger] seq_prefix(frame_field(f), b@) implies false by {
                lemma_run_matches(b@, f, d as int);
                lemma_dec_digits_are_digits(f.len());
                if d > 20 {
                    assert(b@.len() <= usize::MAX);
                    assert(usize::MAX < pow10(20)) by {
                        reveal_with_fuel(pow10, 25);
                    }
                    lemma_dec_digits_len_le(f.len(), 20);
                }
                if b@[0] == 48 && d > 1 {
                    if f.len() >= 1 {
                        lemma_dec_digits_first_nonzero(f.len());
                        assert(dec_digits(f.len())[0] == b@.subrange(0, d as int)[0]);
                    } else {
                        assert(dec_digits(0nat).len() == 1);
                    }
                }
            }
        }
        return None;
    }
    let ghost run = b@.subrange(0, d as int);
    let mut acc: u128 = 0;
    let mut i: usize = 0;
    proof {
        assert(run.subrange(0, 0) =~= Seq::<u8>::empty());
        assert(pow10(0nat) == 1);
    }
    while i < d
        invariant
            n == b@.len(),
            0 < d <= 20,
            d < n,
            i <= d,
            run == b@.subrange(0, d as int),
            forall|j: int| 0 <= j < d ==> is_digit_byte(#[trigger] b@[j]),
            acc == digits_val(run.subrange(0, i as int)),
            acc < pow10(i as nat),
        decreases d - i,
    {
        let dig = b[i] - 48;
        proof {
            assert(pow10((i + 1) as nat) == 10 * pow10(i as nat));
            assert(pow10((i + 1) as nat) <= pow10(20nat)) by {
                lemma_pow10_le((i + 1) as nat, 20nat);
            }
            assert(pow10(20nat) < u128::MAX) by {
                reveal_with_fuel(pow10, 25);
            }
            let p = run.subrange(0, i + 1);
            assert(p.drop_last() =~= run.subrange(0, i as int));
            assert(p.last() == run[i as int] && run[i as int] == b@[i as int]);
        }
        acc = acc * 10 + (dig as u128);
        i = i + 1;
    }
    proof {
        assert(run.subrange(0, d as int) =~= run);
    }
    if acc > usize::MAX as u128 {
        proof {
            assert forall|f: Seq<u8>| #[trigger] seq_prefix(frame_field(f), b@) implies false by {
                lemma_run_matches(b@, f, d as int);
                assert(b@.len() <= usize::MAX);
            }
        }
        return None;
    }
    let flen = acc as usize;
    if flen > n - (d + 1) {
        proof {
            assert forall|f: Seq<u8>| #[trigger] seq_prefix(frame_field(f), b@) implies false by {
                lemma_run_matches(b@, f, d as int);
            }
        }
        return None;
    }
    let field = vstd::slice::slice_to_vec(vstd::slice::slice_subrange(b, d + 1, d + 1 + flen));
    proof {
        lemma_canonical_digits_round_trip(run);
        assert(b@.subrange(0, (d + 1 + flen) as int) =~= run + seq![58u8] + b@.subrange(
            (d + 1) as int,
            (d + 1 + flen) as int,
        ));
        assert(b@.subrange(0, (d + 1 + flen) as int) == frame_field(field@));
    }
    Some((field, d + 1 + flen))
}

proof fn lemma_pow10_le(a: nat, k: nat)
    requires
        a <= k,
    ensures
        pow10(a) <= pow10(k),
    decreases k,
{
    if a < k {
        lemma_pow10_le(a, (k - 1) as nat);
        lemma_pow10_pos((k - 1) as nat);
    }
}

/// Decode a persisted blob back into the entry list that framed it: exactly
/// the framings are accepted, and to the one entry list each frames.
pub fn decode_entries(b: &[u8]) -> (r: Option<Vec<(Vec<u8>, Vec<u8>)>>)
    ensures
        r matches Some(pairs) ==> b@ == frame_entries(pairs@),
        (exists|s: Seq<(Vec<u8>, Vec<u8>)>| b@ == #[trigger] frame_entries(s)) ==> r is Some,
    decreases b@.len(),
{
    if b.len() == 0 {
        let pairs: Vec<(Vec<u8>, Vec<u8>)> = Vec::new();
        proof {
            assert(b@ =~= frame_entries(pairs@));
        }
        return Some(pairs);
    }
    let (key, used1) = match parse_field(b) {
        Some(p) => p,
        None => {
            proof {
                if exists|s: Seq<(Vec<u8>, Vec<u8>)>| b@ == #[trigger] frame_entries(s) {
                    let s = choose|s: Seq<(Vec<u8>, Vec<u8>)>| b@ == #[trigger] frame_entries(s);
                    assert(s.len() > 0);
                    assert(seq_prefix(frame_field(s[0].0@), b@)) by {
                        assert(b@.subrange(0, frame_field(s[0].0@).len() as int) =~= frame_field(
                            s[0].0@,
                        ));
                    }
                    assert(false);
                }
            }
            return None;
        },
    };
    let rest1 = vstd::slice::slice_subrange(b, used1, b.len());
    let (value, used2) = match parse_field(rest1) {
        Some(p) => p,
        None => {
            proof {
                if exists|s: Seq<(Vec<u8>, Vec<u8>)>| b@ == #[trigger] frame_entries(s) {
                    let s = choose|s: Seq<(Vec<u8>, Vec<u8>)>| b@ == #[trigger] frame_entries(s);
                    assert(s.len() > 0);
                    assert(seq_prefix(frame_field(s[0].0@), b@)) by {
                        assert(b@.subrange(0, frame_field(s[0].0@).len() as int) =~= frame_field(
                            s[0].0@,
                        ));
                    }
                    assert(seq_prefix(frame_field(key@), b@));
                    lemma_frame_field_prefix_unique(b@, key@, s[0].0@);
                    assert(used1 == frame_field(s[0].0@).len());
                    assert(seq_prefix(frame_field(s[0].1@), rest1@)) by {
                        assert forall|i: int|
                            0 <= i < frame_field(s[0].1@).len() implies rest1@[i] == frame_field(
                            s[0].1@,
                        )[i] by {
                            assert(rest1@[i] == b@[used1 + i]);
                        }
                        assert(rest1@.subrange(0, frame_field(s[0].1@).len() as int)
                            =~= frame_field(s[0].1@));
                    }
                    assert(false);
                }
            }
            return None;
        },
    };
    let rest2 = vstd::slice::slice_subrange(rest1, used2, rest1.len());
    let tail = match decode_entries(rest2) {
        Some(t) => t,
        None => {
            proof {
                if exists|s: Seq<(Vec<u8>, Vec<u8>)>| b@ == #[trigger] frame_entries(s) {
                    let s = choose|s: Seq<(Vec<u8>, Vec<u8>)>| b@ == #[trigger] frame_entries(s);
                    assert(s.len() > 0);
                    lemma_decode_heads(b@, rest1@, rest2@, key@, value@, used1 as int, used2 as int, s);
                    assert(false);
                }
            }
            return None;
        },
    };
    let ghost keyv = key@;
    let ghost valuev = value@;
    let ghost tailv = tail@;
    let mut pairs = tail;
    pairs.insert(0, (key, value));
    proof {
        assert(pairs@.drop_first() =~= tailv);
        assert(pairs@[0].0@ == keyv && pairs@[0].1@ == valuev);
        assert(frame_entries(pairs@) == frame_field(keyv) + frame_field(valuev) + frame_entries(
            tailv,
        ));
        assert(rest1@ == b@.subrange(used1 as int, b@.len() as int));
        assert(rest2@ == rest1@.subrange(used2 as int, rest1@.len() as int));
        assert(b@ =~= frame_field(keyv) + frame_field(valuev) + rest2@);
        assert(b@ == frame_entries(pairs@));
    }
    Some(pairs)
}

/// Framing loses nothing: entry lists with the same framing hold the same
/// byte strings pair for pair — so they carry the same mapping, and one is
/// free of duplicate keys exactly when the other is.
pub proof fn lemma_frame_entries_injective(a: Seq<(Vec<u8>, Vec<u8>)>, b: Seq<(Vec<u8>, Vec<u8>)>)
    requires
        frame_entries(a) == frame_entries(b),
    ensures
        a.len() == b.len(),
        forall|i: int| 0 <= i < a.len() ==> (#[trigger] a[i]).0@ == b[i].0@ && a[i].1@ == b[i].1@,
        kv_map(a) == kv_map(b),
        kv_unique(a) == kv_unique(b),
    decreases a.len(),
{
    if a.len() == 0 && b.len() > 0 {
        lemma_dec_digits_are_digits(b[0].0@.len());
        assert(frame_entries(b).len() >= 2);
        assert(false);
    } else if b.len() == 0 && a.len() > 0 {
        lemma_dec_digits_are_digits(a[0].0@.len());
        assert(frame_entries(a).len() >= 2);
        assert(false);
    } else if a.len() > 0 && b.len() > 0 {
        let bytes = frame_entries(a);
        let fak = frame_field(a[0].0@);
        let fav = frame_field(a[0].1@);
        let fbk = frame_field(b[0].0@);
        let fbv = frame_field(b[0].1@);
        assert(bytes == fak + fav + frame_entries(a.drop_first()));
        assert(bytes == fbk + fbv + frame_entries(b.drop_first()));
        assert(seq_prefix(fak, bytes)) by {
            assert(bytes.subrange(0, fak.len() as int) =~= fak);
        }
        assert(seq_prefix(fbk, bytes)) by {
            assert(bytes.subrange(0, fbk.len() as int) =~= fbk);
        }
        lemma_frame_field_prefix_unique(bytes, a[0].0@, b[0].0@);
        assert(fak =~= fbk);
        let rest = bytes.subrange(fak.len() as int, bytes.len() as int);
        assert(rest =~= fav + frame_entries(a.drop_first()));
        assert(rest =~= fbv + frame_entries(b.drop_first()));
        assert(seq_prefix(fav, rest)) by {
            assert(rest.subrange(0, fav.len() as int) =~= fav);
        }
        assert(seq_prefix(fbv, rest)) by {
            assert(rest.subrange(0, fbv.len() as int) =~= fbv);
        }
        lemma_frame_field_prefix_unique(rest, a[0].1@, b[0].1@);
        assert(fav =~= fbv);
        assert(frame_entries(a.drop_first()) =~= rest.subrange(fav.len() as int, rest.len() as int));
        assert(frame_entries(b.drop_first()) =~= rest.subrange(fav.len() as int, rest.len() as int));
        lemma_frame_entries_injective(a.drop_first(), b.drop_first());
        assert forall|i: int| 0 <= i < a.len() implies (#[trigger] a[i]).0@ == b[i].0@ && a[i].1@
            == b[i].1@ by {
            if i > 0 {
                assert(a.drop_first()[i - 1] == a[i] && b.drop_first()[i - 1] == b[i]);
            }
        }
        crate::session::lemma_kv_map_congruence(a, b);
    }
}

/// When `b` frames the entries `s` and its first two fields parse as `key`
/// and `value`, those are `s`'s first entry and the remainder frames the
/// rest.
proof fn lemma_decode_heads(
    b: Seq<u8>,
    rest1: Seq<u8>,
    rest2: Seq<u8>,
    key: Seq<u8>,
    value: Seq<u8>,
    used1: int,
    used2: int,
    s: Seq<(Vec<u8>, Vec<u8>)>,
)
    requires
        s.len() > 0,
        b == frame_entries(s),
        0 < used1 <= b.len(),
        b.subrange(0, used1) == frame_field(key),
        rest1 == b.subrange(used1, b.len() as int),
        0 < used2 <= rest1.len(),
        rest1.subrange(0, used2) == frame_field(value),
        rest2 == rest1.subrange(used2, rest1.len() as int),
    ensures
        key == s[0].0@,
        value == s[0].1@,
        rest2 == frame_entries(s.drop_first()),
{
    let fk = frame_field(s[0].0@);
    let fv = frame_field(s[0].1@);
    let tail = frame_entries(s.drop_first());
    assert(b == fk + fv + tail);
    assert(seq_prefix(fk, b)) by {
        assert(b.subrange(0, fk.len() as int) =~= fk);
    }
    assert(seq_prefix(frame_field(key), b));
    lemma_frame_field_prefix_unique(b, key, s[0].0@);
    assert(used1 == fk.len());
    assert(rest1 =~= fv + tail);
    assert(seq_prefix(fv, rest1)) by {
        assert(rest1.subrange(0, fv.len() as int) =~= fv);
    }
    assert(seq_prefix(frame_field(value), rest1));
    lemma_frame_field_prefix_unique(rest1, value, s[0].1@);
    assert(used2 == fv.len());
    assert(rest2 =~= tail);
}

/// Frame a whole session state into its persisted blob: the framing of an
/// entry list carrying exactly the state's contents, with no duplicate key.
pub fn encode_state(state: &SessionState) -> (r: Vec<u8>)
    requires
        state.wf(),
    ensures
        exists|s: Seq<(Vec<u8>, Vec<u8>)>|
            r@ == #[trigger] frame_entries(s) && kv_unique(s) && kv_map(s) == state@,
{
    let entries = state.entries();
    let r = encode_entries(entries);
    proof {
        assert(r@ == frame_entries(entries@) && kv_unique(entries@) && kv_map(entries@)
            == state@);
    }
    r
}

/// Decode a persisted blob back into a session state: accepted exactly when
/// the bytes frame an entry list without duplicate keys, and then the state
/// carries exactly what was framed. A refusal is the corrupted-session case
/// callers treat as no session at all.
pub fn decode_state(b: &[u8]) -> (r: Option<SessionState>)
    ensures
        r matches Some(st) ==> st.wf() && (exists|s: Seq<(Vec<u8>, Vec<u8>)>|
            b@ == #[trigger] frame_entries(s) && kv_unique(s) && st@ == kv_map(s)),
        (exists|s: Seq<(Vec<u8>, Vec<u8>)>|
            b@ == #[trigger] frame_entries(s) && kv_unique(s)) ==> r is Some,
{
    let pairs = match decode_entries(b) {
        Some(p) => p,
        None => {
            proof {
                if exists|s: Seq<(Vec<u8>, Vec<u8>)>|
                    b@ == #[trigger] frame_entries(s) && kv_unique(s) {
                    let s = choose|s: Seq<(Vec<u8>, Vec<u8>)>|
                        b@ == #[trigger] frame_entries(s) && kv_unique(s);
                    assert(b@ == frame_entries(s));
                    assert(false);
                }
            }
            return None;
        },
    };
    let ghost pv = pairs@;
    match SessionState::from_entries(pairs) {
        Some(st) => {
            proof {
                assert(b@ == frame_entries(pv) && kv_unique(pv) && st@ == kv_map(pv));
            }
            Some(st)
        },
        None => {
            proof {
                if exists|s: Seq<(Vec<u8>, Vec<u8>)>|
                    b@ == #[trigger] frame_entries(s) && kv_unique(s) {
                    let s = choose|s: Seq<(Vec<u8>, Vec<u8>)>|
                        b@ == #[trigger] frame_entries(s) && kv_unique(s);
                    lemma_frame_entries_injective(pv, s);
                    assert(false);
                }
            }
            None
        },
    }
}

} // verus!
