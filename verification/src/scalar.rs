//! The scalar grammar and the scalar decoders.
//!
//! A scalar payload is decoded into one of: boolean, integer (smallest
//! fitting width, or arbitrary precision), number, date, time, date-time,
//! or text. Each grammar is stated as a spec function over `Seq<char>`;
//! every decoder's contract pins its result to those functions.

use vstd::prelude::*;
use vstd::arithmetic::div_mod::{
    lemma_div_decreases, lemma_div_pos_is_pos, lemma_fundamental_div_mod,
    lemma_fundamental_div_mod_converse, lemma_mod_division_less_than_divisor,
};
use crate::value::{Int, IntV, Value, ValueV, Error, Date, Time, DateTime};
use crate::chars::{str_to_chars, chars_to_string};

verus! {

/// Little-endian limb base of the arbitrary-precision representation.
pub const BASE32: u64 = 4294967296;

// ---------------------------------------------------------------------
// Digits
// ---------------------------------------------------------------------

/// `c` is a decimal digit.
pub open spec fn is_digit(c: char) -> bool {
    48 <= c as u32 <= 57
}

/// The numeric value of a decimal digit.
pub open spec fn digit_val(c: char) -> int {
    c as u32 - 48
}

/// Every character of `s` in `lo .. hi` is a decimal digit.
pub open spec fn all_digits_range(s: Seq<char>, lo: int, hi: int) -> bool {
    forall|k: int| lo <= k < hi ==> is_digit(#[trigger] s[k])
}

/// The value of a run of decimal digits, most significant first.
pub open spec fn digits_val(s: Seq<char>) -> int
    decreases s.len(),
{
    if s.len() == 0 {
        0
    } else {
        10 * digits_val(s.drop_last()) + digit_val(s.last())
    }
}

/// The value of the digits of `s` in `lo .. hi`.
pub open spec fn digits_val_range(s: Seq<char>, lo: int, hi: int) -> int {
    digits_val(s.subrange(lo, hi))
}

/// Digit runs are non-negative.
pub proof fn lemma_digits_val_nonneg(s: Seq<char>)
    requires
        all_digits_range(s, 0, s.len() as int),
    ensures
        digits_val(s) >= 0,
    decreases s.len(),
{
    if s.len() > 0 {
        assert(all_digits_range(s.drop_last(), 0, s.len() - 1));
        lemma_digits_val_nonneg(s.drop_last());
    }
}

/// One digit appended on the right multiplies the value by ten and adds
/// the digit.
pub proof fn lemma_digits_val_step(s: Seq<char>, lo: int, i: int)
    requires
        0 <= lo <= i < s.len(),
    ensures
        digits_val_range(s, lo, i + 1) == 10 * digits_val_range(s, lo, i) + digit_val(s[i]),
{
    assert(s.subrange(lo, i + 1).drop_last() =~= s.subrange(lo, i));
    assert(s.subrange(lo, i + 1).last() == s[i]);
}

/// The digits in a range are non-negative.
pub proof fn lemma_digits_range_nonneg(s: Seq<char>, lo: int, hi: int)
    requires
        0 <= lo <= hi <= s.len(),
        all_digits_range(s, lo, hi),
    ensures
        digits_val_range(s, lo, hi) >= 0,
{
    let sub = s.subrange(lo, hi);
    assert(forall|k: int| 0 <= k < sub.len() ==> is_digit(#[trigger] sub[k]));
    lemma_digits_val_nonneg(sub);
}

// ---------------------------------------------------------------------
// Boolean literals
// ---------------------------------------------------------------------

/// The characters of the true literal.
pub open spec fn true_chars() -> Seq<char> {
    seq!['t', 'r', 'u', 'e']
}

/// The characters of the false literal.
pub open spec fn false_chars() -> Seq<char> {
    seq!['f', 'a', 'l', 's', 'e']
}

/// The boolean a payload decodes to, if any: exactly the two lowercase
/// tokens are accepted.
pub open spec fn spec_bool(s: Seq<char>) -> Option<bool> {
    if s == true_chars() {
        Option::Some(true)
    } else if s == false_chars() {
        Option::Some(false)
    } else {
        Option::None
    }
}

/// Decodes a boolean literal.
pub(crate) fn decode_bool_chars(s: &Vec<char>) -> (r: Option<bool>)
    ensures
        r == spec_bool(s@),
{
    if s.len() == 4 && s[0] == 't' && s[1] == 'r' && s[2] == 'u' && s[3] == 'e' {
        proof {
            assert(s@ =~= true_chars());
        }
        Some(true)
    } else if s.len() == 5 && s[0] == 'f' && s[1] == 'a' && s[2] == 'l' && s[3] == 's'
        && s[4] == 'e' {
        proof {
            assert(s@ =~= false_chars());
        }
        Some(false)
    } else {
        proof {
            if s@ == true_chars() {
                assert(s@.len() == 4 && s@[0] == 't' && s@[1] == 'r' && s@[2] == 'u'
                    && s@[3] == 'e');
            }
            if s@ == false_chars() {
                assert(s@.len() == 5 && s@[0] == 'f' && s@[1] == 'a' && s@[2] == 'l'
                    && s@[3] == 's' && s@[4] == 'e');
            }
        }
        None
    }
}

// ---------------------------------------------------------------------
// Integer literals
// ---------------------------------------------------------------------

/// `c` is a sign character.
pub open spec fn is_sign(c: char) -> bool {
    c == '+' || c == '-'
}

/// Index of the first digit of an integer literal: past an optional sign.
pub open spec fn int_start(s: Seq<char>) -> int {
    if s.len() > 0 && is_sign(s[0]) {
        1
    } else {
        0
    }
}

/// `s` is an integer literal: an optional sign and a non-empty digit run.
pub open spec fn is_int_lit(s: Seq<char>) -> bool {
    s.len() > int_start(s) && all_digits_range(s, int_start(s), s.len() as int)
}

/// The magnitude of an integer literal.
pub open spec fn int_mag(s: Seq<char>) -> int {
    digits_val_range(s, int_start(s), s.len() as int)
}

/// The signed value of an integer literal.
pub open spec fn int_lit_val(s: Seq<char>) -> int {
    if s.len() > 0 && s[0] == '-' {
        -int_mag(s)
    } else {
        int_mag(s)
    }
}

/// The little-endian base-2^32 limbs of a magnitude: empty for zero,
/// otherwise the least significant limb first, most significant limb
/// non-zero.
pub open spec fn limbs_of(n: nat) -> Seq<int>
    decreases n,
    via limbs_of_dec
{
    if n == 0 {
        Seq::empty()
    } else {
        seq![n as int % BASE32 as int] + limbs_of((n as int / BASE32 as int) as nat)
    }
}

#[via_fn]
proof fn limbs_of_dec(n: nat) {
    if n > 0 {
        lemma_div_decreases(n as int, BASE32 as int);
        lemma_div_pos_is_pos(n as int, BASE32 as int);
    }
}

/// The value of a little-endian limb sequence.
pub open spec fn limbs_val(s: Seq<int>) -> int
    decreases s.len(),
{
    if s.len() == 0 {
        0
    } else {
        s[0] + BASE32 as int * limbs_val(s.drop_first())
    }
}

/// Every limb lies in `0 .. 2^32`.
pub open spec fn limbs_in_range(s: Seq<int>) -> bool {
    forall|i: int| 0 <= i < s.len() ==> 0 <= #[trigger] s[i] < BASE32 as int
}

/// A well-formed magnitude representation: limbs in range, most
/// significant limb non-zero.
pub open spec fn limbs_wf(s: Seq<int>) -> bool {
    limbs_in_range(s) && (s.len() > 0 ==> s.last() != 0)
}

/// `limbs_of` yields a well-formed representation of exactly `n`.
pub proof fn lemma_limbs_of_val(n: nat)
    ensures
        limbs_wf(limbs_of(n)),
        limbs_val(limbs_of(n)) == n,
        n > 0 ==> limbs_of(n).len() > 0,
    decreases n,
{
    let b = BASE32 as int;
    if n > 0 {
        lemma_div_decreases(n as int, b);
        lemma_mod_division_less_than_divisor(n as int, b);
        lemma_div_pos_is_pos(n as int, b);
        let q = (n as int / b) as nat;
        lemma_limbs_of_val(q);
        let s = limbs_of(n);
        assert(s.drop_first() =~= limbs_of(q));
        lemma_fundamental_div_mod(n as int, b);
        if q == 0 {
            assert(s.last() == n as int % b);
        } else {
            assert(s.last() == limbs_of(q).last());
        }
    }
}

/// The chosen representation of a decoded integer: the smallest fixed
/// width that losslessly holds the value, signed preferred at equal
/// width, `Big` beyond 64-bit range.
pub open spec fn int_of(n: int) -> IntV {
    if n >= 0 {
        if n <= 127 {
            IntV::ByteS(n)
        } else if n <= 255 {
            IntV::ByteU(n)
        } else if n <= 32767 {
            IntV::HalfS(n)
        } else if n <= 65535 {
            IntV::HalfU(n)
        } else if n <= 2147483647 {
            IntV::WordS(n)
        } else if n <= 4294967295 {
            IntV::WordU(n)
        } else if n <= 9223372036854775807 {
            IntV::LongS(n)
        } else if n <= 18446744073709551615 {
            IntV::LongU(n)
        } else {
            IntV::Big(limbs_of(n as nat))
        }
    } else {
        if n >= -128 {
            IntV::ByteS(n)
        } else if n >= -32768 {
            IntV::HalfS(n)
        } else if n >= -2147483648 {
            IntV::WordS(n)
        } else if n >= -9223372036854775808 {
            IntV::LongS(n)
        } else {
            IntV::Big(limbs_of((-n) as nat).map_values(|x: int| -x))
        }
    }
}

/// What an integer payload decodes to, if any.
pub open spec fn spec_int(s: Seq<char>) -> Option<IntV> {
    if is_int_lit(s) {
        Option::Some(int_of(int_lit_val(s)))
    } else {
        Option::None
    }
}

/// One multiply-by-ten-and-add-a-digit step over a limb sequence, with
/// carry propagation.
pub open spec fn mul10_spec(s: Seq<int>, c: int) -> Seq<int>
    decreases s.len(),
{
    if s.len() == 0 {
        if c == 0 {
            Seq::empty()
        } else {
            seq![c]
        }
    } else {
        let t = 10 * s[0] + c;
        seq![t % BASE32 as int] + mul10_spec(s.drop_first(), t / BASE32 as int)
    }
}

/// Limb values in range make the represented value non-negative.
proof fn proof_limbs_val_nonneg(s: Seq<int>)
    requires
        limbs_in_range(s),
    ensures
        limbs_val(s) >= 0,
    decreases s.len(),
{
    if s.len() > 0 {
        let rest = s.drop_first();
        assert(forall|i: int| 0 <= i < rest.len() ==> rest[i] == s[i + 1]);
        proof_limbs_val_nonneg(rest);
        assert(BASE32 as int * limbs_val(rest) >= 0) by (nonlinear_arith)
            requires
                limbs_val(rest) >= 0,
        ;
    }
}

/// A well-formed, non-empty limb sequence represents a positive value.
proof fn proof_limbs_val_lower(s: Seq<int>)
    requires
        limbs_wf(s),
        s.len() > 0,
    ensures
        limbs_val(s) > 0,
    decreases s.len(),
{
    let rest = s.drop_first();
    assert(forall|i: int| 0 <= i < rest.len() ==> rest[i] == s[i + 1]);
    if rest.len() > 0 {
        assert(rest.last() == s.last());
        proof_limbs_val_lower(rest);
        assert(BASE32 as int * limbs_val(rest) >= BASE32 as int) by (nonlinear_arith)
            requires
                limbs_val(rest) >= 1,
        ;
    } else {
        assert(s.last() == s[0]);
    }
}

/// `mul10_spec` computes the representation of ten times the value plus
/// the digit.
proof fn lemma_mul10_spec(s: Seq<int>, c: int)
    requires
        limbs_wf(s),
        0 <= c < BASE32 as int,
    ensures
        mul10_spec(s, c) == limbs_of((10 * limbs_val(s) + c) as nat),
    decreases s.len(),
{
    let b = BASE32 as int;
    if s.len() == 0 {
        if c != 0 {
            lemma_fundamental_div_mod_converse(c, b, 0, c);
            assert(limbs_of(c as nat) == seq![c as int % b] + limbs_of((c as int / b) as nat));
            assert(limbs_of(0nat) =~= Seq::<int>::empty());
            assert(limbs_of(c as nat) =~= seq![c]);
        }
    } else {
        let rest = s.drop_first();
        let t = 10 * s[0] + c;
        let lo = t % b;
        let cr = t / b;
        lemma_fundamental_div_mod(t, b);
        lemma_mod_division_less_than_divisor(t, b);
        lemma_div_pos_is_pos(t, b);
        assert(limbs_wf(rest)) by {
            assert(forall|i: int| 0 <= i < rest.len() ==> rest[i] == s[i + 1]);
            if rest.len() > 0 {
                assert(rest.last() == s.last());
            }
        }
        lemma_mul10_spec(rest, cr);
        let v = limbs_val(s);
        let rv = limbs_val(rest);
        proof_limbs_val_nonneg(rest);
        let whole = 10 * v + c;
        assert(whole == lo + b * (cr + 10 * rv)) by (nonlinear_arith)
            requires
                v == s[0] + b * rv,
                t == 10 * s[0] + c,
                t == b * cr + lo,
                whole == 10 * v + c,
        ;
        assert(cr + 10 * rv >= 0);
        if s.len() == 1 && whole == 0 {
            assert(s.last() == s[0]);
            assert(rv == 0);
            assert(s[0] != 0);
            assert(whole == 10 * s[0] + c);
            assert(false);
        }
        if s.len() > 1 {
            proof_limbs_val_lower(rest);
            assert(whole > 0) by (nonlinear_arith)
                requires
                    whole == 10 * v + c,
                    v == s[0] + b * rv,
                    s[0] >= 0,
                    rv >= 1,
                    b > 1,
                    c >= 0,
            ;
        }
        assert(whole > 0);
        lemma_fundamental_div_mod_converse(whole, b, cr + 10 * rv, lo);
        assert(limbs_of(whole as nat) == seq![lo] + limbs_of((cr + 10 * rv) as nat));
        assert(limbs_of((10 * rv + cr) as nat) == mul10_spec(rest, cr));
        assert(cr + 10 * rv == 10 * rv + cr);
        assert(mul10_spec(s, c) == seq![lo] + mul10_spec(rest, cr));
    }
}

/// The limbs of a `Vec<i64>`, as mathematical integers.
pub open spec fn limbs_int(s: Seq<i64>) -> Seq<int> {
    s.map_values(|x: i64| x as int)
}

/// One in-place multiply-by-ten-and-add step of the magnitude held in
/// `limbs`.
#[verifier::loop_isolation(false)]
fn mul10_add(limbs: &mut Vec<i64>, d: u8)
    requires
        limbs_in_range(limbs_int(old(limbs)@)),
        d < 10,
    ensures
        limbs_int(final(limbs)@) == mul10_spec(limbs_int(old(limbs)@), d as int),
{
    let ghost orig = limbs_int(old(limbs)@);
    let n = limbs.len();
    let mut carry: i64 = d as i64;
    let mut j: usize = 0;
    proof {
        assert(limbs_int(limbs@.subrange(0, 0)) =~= Seq::<int>::empty());
        assert(orig.subrange(0, n as int) =~= orig);
        assert(Seq::<int>::empty() + mul10_spec(orig, d as int)
            =~= mul10_spec(orig, d as int));
    }
    while j < n
        invariant
            j <= n,
            n == limbs.len(),
            0 <= carry < BASE32 as i64,
            limbs_in_range(orig),
            orig == limbs_int(old(limbs)@),
            n == orig.len(),
            forall|i: int| j <= i < n ==> limbs@[i] == old(limbs)@[i],
            mul10_spec(orig, d as int) == limbs_int(limbs@.subrange(0, j as int))
                + mul10_spec(orig.subrange(j as int, n as int), carry as int),
        decreases n - j,
    {
        let ghost pre = limbs@;
        let ghost carry0 = carry as int;
        let ghost tail = orig.subrange(j as int, n as int);
        let x = limbs[j];
        proof {
            assert(tail[0] == orig[j as int]);
            assert(orig[j as int] == limbs@[j as int] as int);
            assert(0 <= orig[j as int] < BASE32 as int);
        }
        let t: i64 = x * 10 + carry;
        let lo: i64 = t % (BASE32 as i64);
        let hi: i64 = t / (BASE32 as i64);
        limbs[j] = lo;
        carry = hi;
        j = j + 1;
        proof {
            let b = BASE32 as int;
            lemma_mod_division_less_than_divisor(t as int, b);
            lemma_div_pos_is_pos(t as int, b);
            let tail2 = orig.subrange(j as int, n as int);
            assert(tail.drop_first() =~= tail2);
            assert(10 * tail[0] + carry0 == t as int);
            assert(mul10_spec(tail, carry0) == seq![t as int % b]
                + mul10_spec(tail2, carry as int));
            assert(limbs_int(limbs@.subrange(0, j as int))
                =~= limbs_int(pre.subrange(0, j - 1)) + seq![lo as int]);
            assert(limbs_int(pre.subrange(0, j - 1)) + (seq![lo as int]
                + mul10_spec(tail2, carry as int))
                =~= (limbs_int(pre.subrange(0, j - 1)) + seq![lo as int])
                + mul10_spec(tail2, carry as int));
        }
    }
    proof {
        assert(orig.subrange(n as int, n as int) =~= Seq::<int>::empty());
    }
    if carry > 0 {
        let ghost pre = limbs@;
        limbs.push(carry);
        proof {
            assert(limbs_int(limbs@) =~= limbs_int(pre) + seq![carry as int]);
            assert(pre.subrange(0, n as int) =~= pre);
        }
    } else {
        proof {
            assert(limbs@.subrange(0, n as int) =~= limbs@);
            assert(limbs_int(limbs@) + mul10_spec(Seq::empty(), 0) =~= limbs_int(limbs@));
        }
    }
}

/// Builds the limb representation of the digit run `s[start ..]`.
#[verifier::loop_isolation(false)]
fn digits_to_limbs(s: &Vec<char>, start: usize) -> (limbs: Vec<i64>)
    requires
        start <= s@.len(),
        all_digits_range(s@, start as int, s@.len() as int),
    ensures
        limbs_int(limbs@) == limbs_of(digits_val_range(s@, start as int, s@.len() as int) as nat),
{
    let n = s.len();
    let mut limbs: Vec<i64> = Vec::new();
    let mut i: usize = start;
    proof {
        assert(s@.subrange(start as int, start as int) =~= Seq::<char>::empty());
        assert(limbs_int(limbs@) =~= Seq::<int>::empty());
    }
    while i < n
        invariant
            start <= i <= n,
            n == s@.len(),
            all_digits_range(s@, start as int, n as int),
            limbs_int(limbs@) == limbs_of(digits_val_range(s@, start as int, i as int) as nat),
        decreases n - i,
    {
        let ghost mag = digits_val_range(s@, start as int, i as int);
        proof {
            lemma_digits_range_nonneg(s@, start as int, i as int);
            lemma_limbs_of_val(mag as nat);
        }
        let u = s[i] as u32;
        assert(48 <= u <= 57);
        let d: u8 = (u - 48) as u8;
        mul10_add(&mut limbs, d);
        proof {
            lemma_mul10_spec(limbs_of(mag as nat), d as int);
            lemma_digits_val_step(s@, start as int, i as int);
        }
        i = i + 1;
    }
    limbs
}

/// Negates every limb, turning a magnitude representation into that of a
/// negative value.
#[verifier::loop_isolation(false)]
fn negate_limbs(limbs: &mut Vec<i64>)
    requires
        limbs_in_range(limbs_int(old(limbs)@)),
    ensures
        limbs_int(final(limbs)@) == limbs_int(old(limbs)@).map_values(|x: int| -x),
{
    let n = limbs.len();
    let mut j: usize = 0;
    while j < n
        invariant
            j <= n,
            n == limbs.len(),
            limbs_in_range(limbs_int(old(limbs)@)),
            n == old(limbs)@.len(),
            forall|i: int| j <= i < n ==> limbs@[i] == old(limbs)@[i],
            forall|i: int| 0 <= i < j ==> limbs@[i] as int == -(old(limbs)@[i] as int),
        decreases n - j,
    {
        proof {
            assert(limbs_int(old(limbs)@)[j as int] == old(limbs)@[j as int] as int);
        }
        let x = limbs[j];
        limbs[j] = -x;
        j = j + 1;
    }
    proof {
        assert(limbs_int(limbs@) =~= limbs_int(old(limbs)@).map_values(|x: int| -x));
    }
}

/// Decodes an integer literal into the smallest fitting representation.
#[verifier::loop_isolation(false)]
pub(crate) fn decode_int_chars(s: &Vec<char>) -> (r: Option<Int>)
    ensures
        r is Some <==> is_int_lit(s@),
        r matches Some(v) ==> v@ == int_of(int_lit_val(s@)),
{
    let n = s.len();
    if n == 0 {
        return None;
    }
    let c0 = s[0];
    let neg = c0 == '-';
    let start: usize = if c0 == '-' || c0 == '+' {
        1
    } else {
        0
    };
    if n == start {
        return None;
    }
    let mut i: usize = start;
    while i < n
        invariant
            start <= i <= n,
            n == s@.len(),
            all_digits_range(s@, start as int, i as int),
        decreases n - i,
    {
        let u = s[i] as u32;
        if u < 48 || u > 57 {
            proof {
                assert(!is_digit(s@[i as int]));
            }
            return None;
        }
        i = i + 1;
    }
    proof {
        assert(is_int_lit(s@));
        lemma_digits_range_nonneg(s@, start as int, n as int);
    }
    // Accumulate the magnitude; fall back to limbs past 64-bit range.
    let mut acc: u128 = 0;
    let mut i: usize = start;
    let mut overflow = false;
    proof {
        assert(s@.subrange(start as int, start as int) =~= Seq::<char>::empty());
    }
    while i < n
        invariant
            start <= i <= n,
            n == s@.len(),
            all_digits_range(s@, start as int, n as int),
            !overflow ==> acc == digits_val_range(s@, start as int, i as int)
                && acc <= u64::MAX as u128,
            overflow ==> digits_val_range(s@, start as int, i as int) > u64::MAX as int,
        decreases n - i,
    {
        proof {
            lemma_digits_val_step(s@, start as int, i as int);
            lemma_digits_range_nonneg(s@, start as int, i as int);
        }
        if !overflow {
            let u = s[i] as u32;
            assert(48 <= u <= 57);
            let d: u128 = (u - 48) as u128;
            let next: u128 = acc * 10 + d;
            if next > u64::MAX as u128 {
                overflow = true;
            } else {
                acc = next;
            }
        } else {
            proof {
                let prev = digits_val_range(s@, start as int, i as int);
                assert(10 * prev + digit_val(s@[i as int]) > u64::MAX as int)
                    by (nonlinear_arith)
                    requires
                        prev > u64::MAX as int,
                        digit_val(s@[i as int]) >= 0,
                ;
            }
        }
        i = i + 1;
    }
    proof {
        assert(s@.subrange(start as int, n as int) =~= s@.subrange(
            int_start(s@), s@.len() as int));
    }
    let ghost mag = int_mag(s@);
    let ghost val = int_lit_val(s@);
    if !overflow {
        let m = acc as u64;
        if neg {
            proof {
                assert(val == -mag);
            }
            if m <= 128 {
                Some(Int::ByteS((-(m as i64)) as i8))
            } else if m <= 32768 {
                Some(Int::HalfS((-(m as i64)) as i16))
            } else if m <= 2147483648 {
                Some(Int::WordS((-(m as i64)) as i32))
            } else if m <= 9223372036854775807 {
                Some(Int::LongS(-(m as i64)))
            } else if m == 9223372036854775808 {
                Some(Int::LongS(i64::MIN))
            } else {
                let mut limbs = digits_to_limbs(s, start);
                proof {
                    lemma_limbs_of_val(mag as nat);
                }
                negate_limbs(&mut limbs);
                proof {
                    assert(limbs_int(limbs@) == limbs_of(mag as nat).map_values(
                        |x: int| -x));
                    assert(limbs@.map_values(|l: i64| l as int) == limbs_int(limbs@));
                }
                Some(Int::Big(Box::new(limbs)))
            }
        } else {
            proof {
                assert(val == mag);
            }
            if m <= 127 {
                Some(Int::ByteS(m as i8))
            } else if m <= 255 {
                Some(Int::ByteU(m as u8))
            } else if m <= 32767 {
                Some(Int::HalfS(m as i16))
            } else if m <= 65535 {
                Some(Int::HalfU(m as u16))
            } else if m <= 2147483647 {
                Some(Int::WordS(m as i32))
            } else if m <= 4294967295 {
                Some(Int::WordU(m as u32))
            } else if m <= 9223372036854775807 {
                Some(Int::LongS(m as i64))
            } else {
                Some(Int::LongU(m))
            }
        }
    } else {
        let mut limbs = digits_to_limbs(s, start);
        proof {
            lemma_limbs_of_val(mag as nat);
        }
        if neg {
            negate_limbs(&mut limbs);
            proof {
                assert(limbs_int(limbs@) == limbs_of(mag as nat).map_values(|x: int| -x));
                assert(limbs@.map_values(|l: i64| l as int) == limbs_int(limbs@));
                assert(val == -mag);
                assert(int_of(val) == IntV::Big(limbs_of((-val) as nat).map_values(
                    |x: int| -x)));
            }
            Some(Int::Big(Box::new(limbs)))
        } else {
            proof {
                assert(limbs@.map_values(|l: i64| l as int) == limbs_int(limbs@));
                assert(val == mag);
            }
            Some(Int::Big(Box::new(limbs)))
        }
    }
}


// ---------------------------------------------------------------------
// Digit scanning and bounded digit values
// ---------------------------------------------------------------------

/// First index at or after `i` holding no digit (or the end).
pub open spec fn scan_digits(s: Seq<char>, i: int) -> int
    decreases s.len() - i,
{
    if i < 0 || i >= s.len() {
        i
    } else if is_digit(s[i]) {
        scan_digits(s, i + 1)
    } else {
        i
    }
}

/// `scan_digits` lands after a run of digits.
pub proof fn lemma_scan_digits(s: Seq<char>, i: int)
    requires
        0 <= i <= s.len(),
    ensures
        i <= scan_digits(s, i) <= s.len(),
        all_digits_range(s, i, scan_digits(s, i)),
        scan_digits(s, i) < s.len() ==> !is_digit(s[scan_digits(s, i)]),
    decreases s.len() - i,
{
    if i < s.len() && is_digit(s[i]) {
        lemma_scan_digits(s, i + 1);
    }
}

/// Powers of ten.
pub open spec fn pow10(k: nat) -> int
    decreases k,
{
    if k == 0 {
        1
    } else {
        10 * pow10((k - 1) as nat)
    }
}

/// Powers of ten are positive and monotone.
pub proof fn lemma_pow10_mono(a: nat, b: nat)
    requires
        a <= b,
    ensures
        1 <= pow10(a) <= pow10(b),
    decreases b,
{
    if b > 0 {
        if a == b {
            lemma_pow10_mono(0, (b - 1) as nat);
        } else {
            lemma_pow10_mono(a, (b - 1) as nat);
        }
    }
}

/// Finds the end of the digit run starting at `i`.
#[verifier::loop_isolation(false)]
fn scan_digits_exec(s: &Vec<char>, i: usize) -> (r: usize)
    requires
        i <= s@.len(),
    ensures
        r as int == scan_digits(s@, i as int),
        i <= r <= s@.len(),
{
    let n = s.len();
    let mut j: usize = i;
    while j < n
        invariant
            i <= j <= n,
            scan_digits(s@, i as int) == scan_digits(s@, j as int),
        decreases n - j,
    {
        let u = s[j] as u32;
        if u < 48 || u > 57 {
            proof {
                assert(!is_digit(s@[j as int]));
                lemma_scan_digits(s@, i as int);
            }
            return j;
        }
        j = j + 1;
    }
    proof {
        lemma_scan_digits(s@, i as int);
    }
    j
}

/// Checks that `s[lo .. hi]` holds digits only.
#[verifier::loop_isolation(false)]
fn check_digits(s: &Vec<char>, lo: usize, hi: usize) -> (r: bool)
    requires
        lo <= hi <= s@.len(),
    ensures
        r == all_digits_range(s@, lo as int, hi as int),
{
    let mut i: usize = lo;
    while i < hi
        invariant
            lo <= i <= hi,
            all_digits_range(s@, lo as int, i as int),
        decreases hi - i,
    {
        let u = s[i] as u32;
        if u < 48 || u > 57 {
            proof {
                assert(!is_digit(s@[i as int]));
            }
            return false;
        }
        i = i + 1;
    }
    true
}

/// The value of the digit run `s[lo .. hi]`, at most nine digits.
#[verifier::loop_isolation(false)]
fn digits_value_u32(s: &Vec<char>, lo: usize, hi: usize) -> (r: u32)
    requires
        lo <= hi <= s@.len(),
        hi - lo <= 9,
        all_digits_range(s@, lo as int, hi as int),
    ensures
        r as int == digits_val_range(s@, lo as int, hi as int),
{
    let mut acc: u32 = 0;
    let mut i: usize = lo;
    proof {
        assert(s@.subrange(lo as int, lo as int) =~= Seq::<char>::empty());
    }
    while i < hi
        invariant
            lo <= i <= hi,
            acc as int == digits_val_range(s@, lo as int, i as int),
            acc < pow10((i - lo) as nat),
        decreases hi - i,
    {
        proof {
            lemma_digits_val_step(s@, lo as int, i as int);
            lemma_pow10_mono((i - lo) as nat, 8);
            assert(pow10((i + 1 - lo) as nat) == 10 * pow10((i - lo) as nat));
            reveal_with_fuel(pow10, 9);
            assert(pow10(8) == 100000000);
        }
        let u = s[i] as u32;
        assert(48 <= u <= 57);
        acc = acc * 10 + (u - 48);
        i = i + 1;
    }
    acc
}

// ---------------------------------------------------------------------
// Number literals
// ---------------------------------------------------------------------

/// The reserved not-a-number token.
pub open spec fn nan_chars() -> Seq<char> {
    seq!['N', 'a', 'N']
}

/// The reserved positive-infinity token.
pub open spec fn inf_chars() -> Seq<char> {
    seq!['i', 'n', 'f']
}

/// The reserved negative-infinity token.
pub open spec fn neg_inf_chars() -> Seq<char> {
    seq!['-', 'i', 'n', 'f']
}

/// After the integer part: an optional fraction, then the exponent rule.
pub open spec fn number_frac_ok(s: Seq<char>, i: int) -> bool {
    if 0 <= i < s.len() && s[i] == '.' {
        let j = scan_digits(s, i + 1);
        j > i + 1 && number_exp_ok(s, j)
    } else {
        number_exp_ok(s, i)
    }
}

/// After the fraction: an optional exponent, then the end of the literal.
pub open spec fn number_exp_ok(s: Seq<char>, i: int) -> bool {
    if i == s.len() {
        true
    } else if 0 <= i < s.len() && (s[i] == 'e' || s[i] == 'E') {
        let j = if i + 1 < s.len() && is_sign(s[i + 1]) {
            i + 2
        } else {
            i + 1
        };
        let k = scan_digits(s, j);
        k > j && k == s.len()
    } else {
        false
    }
}

/// `s` is a number literal: a reserved non-finite token, or an optional
/// sign, a non-empty integer part, an optional non-empty fraction and an
/// optional signed exponent.
pub open spec fn is_number_lit(s: Seq<char>) -> bool {
    if s == nan_chars() || s == inf_chars() || s == neg_inf_chars() {
        true
    } else {
        let i0 = int_start(s);
        let i1 = scan_digits(s, i0);
        i1 > i0 && number_frac_ok(s, i1)
    }
}

/// Checks a payload against the number grammar.
pub(crate) fn is_number_chars(s: &Vec<char>) -> (r: bool)
    ensures
        r == (is_number_lit(s@)),
{
    let n = s.len();
    if n == 3 && s[0] == 'N' && s[1] == 'a' && s[2] == 'N' {
        proof {
            assert(s@ =~= nan_chars());
        }
        return true;
    }
    if n == 3 && s[0] == 'i' && s[1] == 'n' && s[2] == 'f' {
        proof {
            assert(s@ =~= inf_chars());
        }
        return true;
    }
    if n == 4 && s[0] == '-' && s[1] == 'i' && s[2] == 'n' && s[3] == 'f' {
        proof {
            assert(s@ =~= neg_inf_chars());
        }
        return true;
    }
    proof {
        if s@ == nan_chars() {
            assert(s@.len() == 3 && s@[0] == 'N' && s@[1] == 'a' && s@[2] == 'N');
        }
        if s@ == inf_chars() {
            assert(s@.len() == 3 && s@[0] == 'i' && s@[1] == 'n' && s@[2] == 'f');
        }
        if s@ == neg_inf_chars() {
            assert(s@.len() == 4 && s@[0] == '-' && s@[1] == 'i' && s@[2] == 'n'
                && s@[3] == 'f');
        }
    }
    let start: usize = if n > 0 && (s[0] == '-' || s[0] == '+') {
        1
    } else {
        0
    };
    let i1 = scan_digits_exec(s, start);
    if i1 == start {
        return false;
    }
    // Fraction.
    let mut i = i1;
    if i < n && s[i] == '.' {
        let j = scan_digits_exec(s, i + 1);
        if j == i + 1 {
            return false;
        }
        i = j;
    }
    // Exponent.
    if i == n {
        return true;
    }
    let c = s[i];
    if c != 'e' && c != 'E' {
        return false;
    }
    let j: usize = if i + 1 < n && (s[i + 1] == '+' || s[i + 1] == '-') {
        i + 2
    } else {
        i + 1
    };
    let k = scan_digits_exec(s, j);
    k > j && k == n
}


// ---------------------------------------------------------------------
// Text payloads
// ---------------------------------------------------------------------

/// `c` may follow a backslash: the structural characters, `n` for a
/// newline, and the backslash itself.
pub open spec fn is_escapable(c: char) -> bool {
    c == ':' || c == 'n' || c == '#' || c == '\\'
}

/// The character an escape pair stands for.
pub open spec fn unescaped(c: char) -> char {
    if c == 'n' {
        '\n'
    } else {
        c
    }
}

/// `s` is well-formed text: every backslash starts a known escape pair.
pub open spec fn text_wf(s: Seq<char>) -> bool
    decreases s.len(),
{
    if s.len() == 0 {
        true
    } else if s[0] == '\\' {
        s.len() >= 2 && is_escapable(s[1]) && text_wf(s.skip(2))
    } else {
        text_wf(s.skip(1))
    }
}

/// The text a well-formed payload stands for, escape pairs replaced.
pub open spec fn unescape(s: Seq<char>) -> Seq<char>
    decreases s.len(),
{
    if s.len() == 0 {
        Seq::empty()
    } else if s[0] == '\\' && s.len() >= 2 {
        seq![unescaped(s[1])] + unescape(s.skip(2))
    } else {
        seq![s[0]] + unescape(s.skip(1))
    }
}

/// Replaces escape pairs, refusing a stray backslash.
#[verifier::loop_isolation(false)]
pub(crate) fn unescape_chars(s: &Vec<char>) -> (r: Option<Vec<char>>)
    ensures
        r is Some <==> text_wf(s@),
        r matches Some(v) ==> v@ == unescape(s@),
{
    let n = s.len();
    let mut out: Vec<char> = Vec::new();
    let mut i: usize = 0;
    proof {
        assert(s@.skip(0) =~= s@);
    }
    while i < n
        invariant
            i <= n,
            text_wf(s@) <==> text_wf(s@.skip(i as int)),
            out@ + unescape(s@.skip(i as int)) == unescape(s@),
        decreases n - i,
    {
        let ghost out0 = out@;
        let c = s[i];
        if c == '\\' {
            if i + 1 == n {
                proof {
                    assert(s@.skip(i as int)[0] == '\\');
                    assert(!text_wf(s@.skip(i as int)));
                }
                return None;
            }
            let e = s[i + 1];
            if e == ':' || e == 'n' || e == '#' || e == '\\' {
                out.push(if e == 'n' {
                    '\n'
                } else {
                    e
                });
                proof {
                    let rest = s@.skip(i as int);
                    assert(rest[0] == '\\' && rest[1] == s@[i + 1]);
                    assert(rest.skip(2) =~= s@.skip(i + 2));
                    assert(out@ =~= out0 + seq![unescaped(s@[i + 1])]);
                    assert((out0 + seq![unescaped(s@[i + 1])]) + unescape(s@.skip(i + 2))
                        =~= out0 + (seq![unescaped(s@[i + 1])] + unescape(s@.skip(i + 2))));
                }
                i = i + 2;
            } else {
                proof {
                    let rest = s@.skip(i as int);
                    assert(rest[0] == '\\' && rest[1] == s@[i + 1]);
                    assert(!text_wf(rest));
                }
                return None;
            }
        } else {
            out.push(c);
            proof {
                let rest = s@.skip(i as int);
                assert(rest[0] == s@[i as int]);
                assert(rest.skip(1) =~= s@.skip(i + 1));
                assert(out@ =~= out0 + seq![s@[i as int]]);
                assert((out0 + seq![s@[i as int]]) + unescape(s@.skip(i + 1))
                    =~= out0 + (seq![s@[i as int]] + unescape(s@.skip(i + 1))));
            }
            i = i + 1;
        }
    }
    proof {
        assert(s@.skip(n as int) =~= Seq::<char>::empty());
        assert(out@ + Seq::<char>::empty() =~= out@);
    }
    Some(out)
}

// ---------------------------------------------------------------------
// Date literals
// ---------------------------------------------------------------------

/// The leap-year rule of the Gregorian calendar.
pub open spec fn is_leap_year(y: int) -> bool {
    y % 4 == 0 && (y % 100 != 0 || y % 400 == 0)
}

/// The number of days of month `m` of year `y`.
pub open spec fn days_in_month(y: int, m: int) -> int {
    if m == 2 {
        if is_leap_year(y) {
            29
        } else {
            28
        }
    } else if m == 4 || m == 6 || m == 9 || m == 11 {
        30
    } else {
        31
    }
}

/// The year field of a date literal.
pub open spec fn date_year(s: Seq<char>) -> int {
    digits_val_range(s, 0, 4)
}

/// The month field of a date literal.
pub open spec fn date_month(s: Seq<char>) -> int {
    digits_val_range(s, 5, 7)
}

/// The day field of a date literal.
pub open spec fn date_day(s: Seq<char>) -> int {
    digits_val_range(s, 8, 10)
}

/// `s` is a date literal `YYYY-MM-DD` with in-range month and day.
pub open spec fn is_date_lit(s: Seq<char>) -> bool {
    s.len() == 10 && all_digits_range(s, 0, 4) && s[4] == '-' && all_digits_range(s, 5, 7)
        && s[7] == '-' && all_digits_range(s, 8, 10) && 1 <= date_month(s) <= 12
        && 1 <= date_day(s) <= days_in_month(date_year(s), date_month(s))
}

/// The number of days of the given month.
fn days_in_month_exec(y: u32, m: u32) -> (r: u32)
    ensures
        r as int == days_in_month(y as int, m as int),
{
    if m == 2 {
        if y % 4 == 0 && (y % 100 != 0 || y % 400 == 0) {
            29
        } else {
            28
        }
    } else if m == 4 || m == 6 || m == 9 || m == 11 {
        30
    } else {
        31
    }
}

/// Decodes a date literal, keeping its text.
pub(crate) fn decode_date_chars(s: &Vec<char>) -> (r: Option<Date>)
    ensures
        r is Some <==> is_date_lit(s@),
        r matches Some(d) ==> d@ == s@,
{
    if s.len() != 10 {
        return None;
    }
    if !check_digits(s, 0, 4) {
        return None;
    }
    if s[4] != '-' {
        return None;
    }
    if !check_digits(s, 5, 7) {
        return None;
    }
    if s[7] != '-' {
        return None;
    }
    if !check_digits(s, 8, 10) {
        return None;
    }
    let y = digits_value_u32(s, 0, 4);
    let m = digits_value_u32(s, 5, 7);
    let d = digits_value_u32(s, 8, 10);
    if m < 1 || m > 12 {
        return None;
    }
    let dim = days_in_month_exec(y, m);
    if d < 1 || d > dim {
        return None;
    }
    Some(Date(chars_to_string(s)))
}

// ---------------------------------------------------------------------
// Time literals
// ---------------------------------------------------------------------

/// The hour field of a time literal.
pub open spec fn time_hour(s: Seq<char>) -> int {
    digits_val_range(s, 0, 2)
}

/// The minute field of a time literal.
pub open spec fn time_minute(s: Seq<char>) -> int {
    digits_val_range(s, 3, 5)
}

/// The second field of a time literal.
pub open spec fn time_second(s: Seq<char>) -> int {
    digits_val_range(s, 6, 8)
}

/// After the seconds: an optional non-empty fraction, then the offset
/// rule.
pub open spec fn time_suffix_ok(s: Seq<char>, i: int) -> bool {
    if 0 <= i < s.len() && s[i] == '.' {
        let j = scan_digits(s, i + 1);
        j > i + 1 && time_offset_ok(s, j)
    } else {
        time_offset_ok(s, i)
    }
}

/// The end of a time literal: nothing, `Z`, or a signed `HH:MM` offset
/// with in-range fields.
pub open spec fn time_offset_ok(s: Seq<char>, i: int) -> bool {
    if i == s.len() {
        true
    } else if 0 <= i < s.len() && s[i] == 'Z' {
        i + 1 == s.len()
    } else if 0 <= i < s.len() && (s[i] == '+' || s[i] == '-') {
        s.len() == i + 6 && all_digits_range(s, i + 1, i + 3) && s[i + 3] == ':'
            && all_digits_range(s, i + 4, i + 6) && digits_val_range(s, i + 1, i + 3) <= 23
            && digits_val_range(s, i + 4, i + 6) <= 59
    } else {
        false
    }
}

/// `s` is a time literal `HH:MM:SS` with in-range fields, optionally
/// followed by fractional seconds and an offset.
pub open spec fn is_time_lit(s: Seq<char>) -> bool {
    s.len() >= 8 && all_digits_range(s, 0, 2) && s[2] == ':' && all_digits_range(s, 3, 5)
        && s[5] == ':' && all_digits_range(s, 6, 8) && time_hour(s) <= 23
        && time_minute(s) <= 59 && time_second(s) <= 59 && time_suffix_ok(s, 8)
}

/// Decodes a time literal, keeping its text.
pub(crate) fn decode_time_chars(s: &Vec<char>) -> (r: Option<Time>)
    ensures
        r is Some <==> is_time_lit(s@),
        r matches Some(t) ==> t@ == s@,
{
    let n = s.len();
    if n < 8 {
        return None;
    }
    if !check_digits(s, 0, 2) {
        return None;
    }
    if s[2] != ':' {
        return None;
    }
    if !check_digits(s, 3, 5) {
        return None;
    }
    if s[5] != ':' {
        return None;
    }
    if !check_digits(s, 6, 8) {
        return None;
    }
    let h = digits_value_u32(s, 0, 2);
    let mi = digits_value_u32(s, 3, 5);
    let se = digits_value_u32(s, 6, 8);
    if h > 23 || mi > 59 || se > 59 {
        return None;
    }
    let mut i: usize = 8;
    if i < n && s[i] == '.' {
        let j = scan_digits_exec(s, i + 1);
        if j == i + 1 {
            return None;
        }
        i = j;
    }
    if i == n {
        return Some(Time(chars_to_string(s)));
    }
    let c = s[i];
    if c == 'Z' {
        if i + 1 == n {
            return Some(Time(chars_to_string(s)));
        }
        return None;
    }
    if c != '+' && c != '-' {
        return None;
    }
    if n - i != 6 {
        return None;
    }
    if !check_digits(s, i + 1, i + 3) {
        return None;
    }
    if s[i + 3] != ':' {
        return None;
    }
    if !check_digits(s, i + 4, i + 6) {
        return None;
    }
    let oh = digits_value_u32(s, i + 1, i + 3);
    let om = digits_value_u32(s, i + 4, i + 6);
    if oh > 23 || om > 59 {
        return None;
    }
    Some(Time(chars_to_string(s)))
}

// ---------------------------------------------------------------------
// Date-time literals
// ---------------------------------------------------------------------

/// `s` is a date literal, `T`, and a time literal.
pub open spec fn is_datetime_lit(s: Seq<char>) -> bool {
    s.len() > 11 && s[10] == 'T' && is_date_lit(s.subrange(0, 10)) && is_time_lit(
        s.subrange(11, s.len() as int))
}

/// Copies `s[lo .. hi]`.
#[verifier::loop_isolation(false)]
pub(crate) fn subvec_pub(s: &Vec<char>, lo: usize, hi: usize) -> (v: Vec<char>)
    requires
        lo <= hi <= s@.len(),
    ensures
        v@ == s@.subrange(lo as int, hi as int),
{
    let mut v: Vec<char> = Vec::new();
    let mut i: usize = lo;
    while i < hi
        invariant
            lo <= i <= hi,
            v@ == s@.subrange(lo as int, i as int),
        decreases hi - i,
    {
        v.push(s[i]);
        i = i + 1;
        proof {
            assert(v@ =~= s@.subrange(lo as int, i as int));
        }
    }
    proof {
        assert(v@ =~= s@.subrange(lo as int, hi as int));
    }
    v
}

/// Decodes a date-time literal into its two mandatory components.
pub(crate) fn decode_datetime_chars(s: &Vec<char>) -> (r: Option<DateTime>)
    ensures
        r is Some <==> is_datetime_lit(s@),
        r matches Some(dt) ==> dt@ == (s@.subrange(0, 10), s@.subrange(11, s@.len() as int)),
{
    let n = s.len();
    if n < 12 {
        return None;
    }
    if s[10] != 'T' {
        return None;
    }
    let datepart = subvec_pub(s, 0, 10);
    let timepart = subvec_pub(s, 11, n);
    let d = match decode_date_chars(&datepart) {
        Some(d) => d,
        None => {
            return None;
        },
    };
    let t = match decode_time_chars(&timepart) {
        Some(t) => t,
        None => {
            return None;
        },
    };
    Some(DateTime(d, t))
}

// ---------------------------------------------------------------------
// The Any policy
// ---------------------------------------------------------------------

/// The fixed decode priority of a payload whose kind is unconstrained:
/// boolean, then integer, then number, then date-time, date and time,
/// then text. The first grammar that accepts the payload decides; text
/// fails only on a malformed escape.
pub open spec fn any_of(s: Seq<char>) -> Result<ValueV, Error> {
    if s == true_chars() {
        Result::Ok(ValueV::Bool(true))
    } else if s == false_chars() {
        Result::Ok(ValueV::Bool(false))
    } else if is_int_lit(s) {
        Result::Ok(ValueV::Int(int_of(int_lit_val(s))))
    } else if is_number_lit(s) {
        Result::Ok(ValueV::Number(s))
    } else if is_datetime_lit(s) {
        Result::Ok(ValueV::DateTime(s.subrange(0, 10), s.subrange(11, s.len() as int)))
    } else if is_date_lit(s) {
        Result::Ok(ValueV::Date(s))
    } else if is_time_lit(s) {
        Result::Ok(ValueV::Time(s))
    } else if text_wf(s) {
        Result::Ok(ValueV::Text(unescape(s)))
    } else {
        Result::Err(Error::Scalar)
    }
}

/// Decodes a payload under the fixed priority of [`any_of`].
pub(crate) fn decode_any_chars(s: &Vec<char>) -> (r: Result<Value, Error>)
    ensures
        r matches Ok(v) ==> any_of(s@) == Result::<ValueV, Error>::Ok(v@),
        r matches Err(e) ==> any_of(s@) == Result::<ValueV, Error>::Err(e),
{
    if let Some(b) = decode_bool_chars(s) {
        return Ok(Value::Bool(b));
    }
    if let Some(i) = decode_int_chars(s) {
        return Ok(Value::Int(i));
    }
    if is_number_chars(s) {
        return Ok(Value::Number(chars_to_string(s)));
    }
    if let Some(dt) = decode_datetime_chars(s) {
        return Ok(Value::DateTime(dt));
    }
    if let Some(d) = decode_date_chars(s) {
        return Ok(Value::Date(d));
    }
    if let Some(t) = decode_time_chars(s) {
        return Ok(Value::Time(t));
    }
    match unescape_chars(s) {
        Some(v) => Ok(Value::Text(chars_to_string(&v))),
        None => Err(Error::Scalar),
    }
}

// ---------------------------------------------------------------------
// The public scalar decoders
// ---------------------------------------------------------------------

/// Decodes a boolean payload.
pub fn decode_bool(s: &str) -> (r: Option<bool>)
    ensures
        r == spec_bool(s@),
{
    let v = str_to_chars(s);
    decode_bool_chars(&v)
}

/// Decodes an integer payload into the smallest fitting variant.
pub fn decode_int(s: &str) -> (r: Option<Int>)
    ensures
        r is Some <==> is_int_lit(s@),
        r matches Some(v) ==> v@ == int_of(int_lit_val(s@)),
{
    let v = str_to_chars(s);
    decode_int_chars(&v)
}

/// Decodes a number payload, returning its validated literal text.
pub fn decode_number(s: &str) -> (r: Option<String>)
    ensures
        r is Some <==> is_number_lit(s@),
        r matches Some(t) ==> t@ == s@,
{
    let v = str_to_chars(s);
    if is_number_chars(&v) {
        Some(s.to_owned())
    } else {
        None
    }
}

/// Decodes a date payload.
pub fn decode_date(s: &str) -> (r: Option<Date>)
    ensures
        r is Some <==> is_date_lit(s@),
        r matches Some(d) ==> d@ == s@,
{
    let v = str_to_chars(s);
    decode_date_chars(&v)
}

/// Decodes a time payload.
pub fn decode_time(s: &str) -> (r: Option<Time>)
    ensures
        r is Some <==> is_time_lit(s@),
        r matches Some(t) ==> t@ == s@,
{
    let v = str_to_chars(s);
    decode_time_chars(&v)
}

/// Decodes a date-time payload.
pub fn decode_datetime(s: &str) -> (r: Option<DateTime>)
    ensures
        r is Some <==> is_datetime_lit(s@),
        r matches Some(dt) ==> dt@ == (s@.subrange(0, 10), s@.subrange(11, s@.len() as int)),
{
    let v = str_to_chars(s);
    decode_datetime_chars(&v)
}

/// Decodes a text payload, replacing escape pairs.
pub fn decode_text(s: &str) -> (r: Option<String>)
    ensures
        r is Some <==> text_wf(s@),
        r matches Some(t) ==> t@ == unescape(s@),
{
    let v = str_to_chars(s);
    match unescape_chars(&v) {
        Some(u) => Some(chars_to_string(&u)),
        None => None,
    }
}

/// Decodes a payload whose kind is unconstrained, under the fixed
/// priority of [`any_of`].
pub fn decode_any(s: &str) -> (r: Result<Value, Error>)
    ensures
        r matches Ok(v) ==> any_of(s@) == Result::<ValueV, Error>::Ok(v@),
        r matches Err(e) ==> any_of(s@) == Result::<ValueV, Error>::Err(e),
{
    let v = str_to_chars(s);
    decode_any_chars(&v)
}

impl Date {
    /// The year field of the retained literal.
    pub fn year(&self) -> (y: u32)
        requires
            is_date_lit(self@),
        ensures
            y as int == date_year(self@),
    {
        let v = str_to_chars(self.0.as_str());
        digits_value_u32(&v, 0, 4)
    }

    /// The month field of the retained literal.
    pub fn month(&self) -> (m: u32)
        requires
            is_date_lit(self@),
        ensures
            m as int == date_month(self@),
    {
        let v = str_to_chars(self.0.as_str());
        digits_value_u32(&v, 5, 7)
    }

    /// The day field of the retained literal.
    pub fn day(&self) -> (d: u32)
        requires
            is_date_lit(self@),
        ensures
            d as int == date_day(self@),
    {
        let v = str_to_chars(self.0.as_str());
        digits_value_u32(&v, 8, 10)
    }

    /// The retained literal text.
    pub fn to_text(&self) -> (t: String)
        ensures
            t@ == self@,
    {
        self.0.clone()
    }
}

impl Time {
    /// The hour field of the retained literal.
    pub fn hour(&self) -> (h: u32)
        requires
            is_time_lit(self@),
        ensures
            h as int == time_hour(self@),
    {
        let v = str_to_chars(self.0.as_str());
        digits_value_u32(&v, 0, 2)
    }

    /// The minute field of the retained literal.
    pub fn minute(&self) -> (m: u32)
        requires
            is_time_lit(self@),
        ensures
            m as int == time_minute(self@),
    {
        let v = str_to_chars(self.0.as_str());
        digits_value_u32(&v, 3, 5)
    }

    /// The second field of the retained literal.
    pub fn second(&self) -> (r: u32)
        requires
            is_time_lit(self@),
        ensures
            r as int == time_second(self@),
    {
        let v = str_to_chars(self.0.as_str());
        digits_value_u32(&v, 6, 8)
    }

    /// The retained literal text.
    pub fn to_text(&self) -> (t: String)
        ensures
            t@ == self@,
    {
        self.0.clone()
    }
}

impl DateTime {
    /// The date component.
    pub fn date(&self) -> (d: &Date)
        ensures
            d@ == self@.0,
    {
        &self.0
    }

    /// The time component.
    pub fn time(&self) -> (t: &Time)
        ensures
            t@ == self@.1,
    {
        &self.1
    }
}


/// `scan_digits` from the start lands exactly at `k` when the first `k`
/// characters are digits and the next one is not.
pub proof fn lemma_scan_digits_exact(s: Seq<char>, k: int)
    requires
        0 <= k <= s.len(),
        all_digits_range(s, 0, k),
        k < s.len() ==> !is_digit(s[k]),
    ensures
        scan_digits(s, 0) == k,
{
    lemma_scan_digits(s, 0);
    let r = scan_digits(s, 0);
    if r < k {
        assert(is_digit(s[r]));
        assert(false);
    }
    if r > k {
        assert(is_digit(s[k]));
        assert(false);
    }
}

/// Law: round-trip of scalars. A valid date, time or date-time literal
/// decodes, under the fixed priority, to the matching calendar value
/// retaining the literal text, so re-examining the value's fields
/// reproduces the literal's year, month, day, hour, minute and second.
pub proof fn lemma_scalar_round_trip(s: Seq<char>)
    ensures
        is_date_lit(s) ==> any_of(s) == Result::<ValueV, Error>::Ok(ValueV::Date(s)),
        is_time_lit(s) ==> any_of(s) == Result::<ValueV, Error>::Ok(ValueV::Time(s)),
        is_datetime_lit(s) ==> any_of(s) == Result::<ValueV, Error>::Ok(ValueV::DateTime(
            s.subrange(0, 10), s.subrange(11, s.len() as int))),
{
    assert(true_chars().len() == 4);
    assert(false_chars().len() == 5);
    assert(nan_chars().len() == 3);
    assert(inf_chars().len() == 3);
    assert(neg_inf_chars().len() == 4);
    if is_date_lit(s) {
        assert(!is_digit(s[4]));
        assert(!is_sign(s[0]));
        assert(int_start(s) == 0);
        assert(!is_int_lit(s));
        lemma_scan_digits_exact(s, 4);
        assert(!number_exp_ok(s, 4));
        assert(!is_number_lit(s));
        assert(!is_datetime_lit(s));
    }
    if is_time_lit(s) {
        assert(s[2] == ':');
        if s == true_chars() {
            assert(s[2] == 'u');
            assert(false);
        }
        if s == false_chars() {
            assert(s[2] == 'l');
            assert(false);
        }
        assert(!is_digit(s[2]));
        assert(!is_sign(s[0]));
        assert(int_start(s) == 0);
        assert(!is_int_lit(s));
        lemma_scan_digits_exact(s, 2);
        assert(!number_exp_ok(s, 2));
        assert(!is_number_lit(s));
        if is_datetime_lit(s) {
            assert(is_date_lit(s.subrange(0, 10)));
            assert(is_digit(s.subrange(0, 10)[2]));
            assert(s.subrange(0, 10)[2] == s[2]);
            assert(false);
        }
    }
    if is_datetime_lit(s) {
        let d = s.subrange(0, 10);
        assert(is_date_lit(d));
        assert forall|x: int| 0 <= x < 4 implies is_digit(#[trigger] s[x]) by {
            assert(d[x] == s[x]);
            assert(is_digit(d[x]));
        }
        assert(d[4] == s[4]);
        assert(d[4] == '-');
        assert(!is_digit(s[4]));
        assert(is_digit(s[0]));
        assert(!is_sign(s[0]));
        assert(int_start(s) == 0);
        assert(!is_int_lit(s));
        lemma_scan_digits_exact(s, 4);
        assert(!number_exp_ok(s, 4));
        assert(!is_number_lit(s));
    }
}


/// Law: the fixed priority prefers integers. Every integer literal
/// decodes, under the unconstrained-kind policy, to an integer value,
/// never to text or to a number.
pub proof fn lemma_any_priority_int(s: Seq<char>)
    requires
        is_int_lit(s),
    ensures
        any_of(s) == Result::<ValueV, Error>::Ok(ValueV::Int(int_of(int_lit_val(s)))),
{
    if s == true_chars() {
        assert(s[0] == 't');
        assert(is_digit(s[int_start(s)]));
        assert(false);
    }
    if s == false_chars() {
        assert(s[0] == 'f');
        assert(is_digit(s[int_start(s)]));
        assert(false);
    }
}

} // verus!
