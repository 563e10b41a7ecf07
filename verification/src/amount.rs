//! Amounts as integer cents: parsing the statement's comma-decimal text
//! (rounded half away from zero to two decimals, as the store rounds), and
//! formatting cents back to two-decimal text.

use vstd::prelude::*;

use crate::date::{all_digits, dval, is_digit};
use crate::text::index_of_byte;
use crate::text::lemma_index_of_byte;

verus! {

pub const COMMA: u8 = 44;
pub const MINUS: u8 = 45;
pub const PLUS: u8 = 43;
pub const DOT: u8 = 46;

pub open spec fn pow10(n: nat) -> int
    decreases n,
{
    if n == 0 {
        1
    } else {
        10 * pow10((n - 1) as nat)
    }
}

/// Value of a string of decimal digits, most significant first.
pub open spec fn digits_val(s: Seq<u8>) -> int
    decreases s.len(),
{
    if s.len() == 0 {
        0
    } else {
        digits_val(s.drop_last()) * 10 + dval(s.last())
    }
}

pub proof fn lemma_pow10_pos(n: nat)
    ensures
        pow10(n) >= 1,
    decreases n,
{
    if n > 0 {
        lemma_pow10_pos((n - 1) as nat);
    }
}

pub proof fn lemma_pow10_mono(a: nat, b: nat)
    requires
        a <= b,
    ensures
        pow10(a) <= pow10(b),
    decreases b,
{
    if a < b {
        lemma_pow10_mono(a, (b - 1) as nat);
        lemma_pow10_pos((b - 1) as nat);
    }
}

pub proof fn lemma_digits_val_bounds(s: Seq<u8>)
    requires
        all_digits(s),
    ensures
        0 <= digits_val(s) < pow10(s.len()),
    decreases s.len(),
{
    if s.len() == 0 {
    } else {
        assert(all_digits(s.drop_last()));
        lemma_digits_val_bounds(s.drop_last());
        assert(is_digit(s.last()));
    }
}

/// A digit string whose first digit is not zero is at least `pow10(len - 1)`.
pub proof fn lemma_digits_val_leading(s: Seq<u8>)
    requires
        all_digits(s),
        s.len() >= 1,
        s[0] != 48,
    ensures
        digits_val(s) >= pow10((s.len() - 1) as nat),
    decreases s.len(),
{
    if s.len() == 1 {
        assert(is_digit(s[0]));
        assert(s.drop_last() =~= Seq::<u8>::empty());
        assert(digits_val(Seq::<u8>::empty()) == 0);
        assert(digits_val(s) == dval(s[0]));
    } else {
        assert(all_digits(s.drop_last()));
        assert(s.drop_last()[0] == s[0]);
        lemma_digits_val_leading(s.drop_last());
        assert(is_digit(s.last()));
        assert(digits_val(s) == digits_val(s.drop_last()) * 10 + dval(s.last()));
        assert(pow10((s.len() - 1) as nat) == 10 * pow10((s.len() - 2) as nat));
    }
}

/// A leading zero does not change the value.
pub proof fn lemma_digits_strip_one(s: Seq<u8>)
    requires
        s.len() >= 1,
        s[0] == 48,
    ensures
        digits_val(s) == digits_val(s.skip(1)),
    decreases s.len(),
{
    if s.len() == 1 {
        assert(s.drop_last() =~= Seq::<u8>::empty());
        assert(s.skip(1) =~= Seq::<u8>::empty());
    } else {
        lemma_digits_strip_one(s.drop_last());
        assert(s.skip(1).drop_last() =~= s.drop_last().skip(1));
        assert(s.skip(1).last() == s.last());
    }
}

/// Any run of leading zeros does not change the value.
pub proof fn lemma_digits_skip_zeros(s: Seq<u8>, k: int)
    requires
        0 <= k <= s.len(),
        forall|j: int| 0 <= j < k ==> s[j] == 48,
    ensures
        digits_val(s) == digits_val(s.skip(k)),
    decreases k,
{
    if k == 0 {
        assert(s.skip(0) =~= s);
    } else {
        lemma_digits_strip_one(s);
        assert(forall|j: int| 0 <= j < k - 1 ==> s.skip(1)[j] == s[j + 1]);
        lemma_digits_skip_zeros(s.skip(1), k - 1);
        assert(s.skip(1).skip(k - 1) =~= s.skip(k));
    }
}

/// Cents contributed by the fraction digits: the first two digits, with the
/// third rounding half away from zero.
pub open spec fn frac_cents(fp: Seq<u8>) -> int {
    (if fp.len() >= 1 {
        10 * dval(fp[0])
    } else {
        0int
    }) + (if fp.len() >= 2 {
        dval(fp[1])
    } else {
        0int
    }) + (if fp.len() >= 3 && fp[2] >= 53 {
        1int
    } else {
        0int
    })
}

/// The amount grammar: an optional sign, then decimal digits with at most one
/// comma as decimal separator and at least one digit in all. The value is in
/// cents, rounded half away from zero at the second decimal. An amount whose
/// magnitude exceeds the representable range is rejected.
pub open spec fn spec_parse_amount(s: Seq<u8>) -> Option<i64> {
    let neg = s.len() > 0 && s[0] == MINUS;
    let body = if s.len() > 0 && (s[0] == MINUS || s[0] == PLUS) {
        s.skip(1)
    } else {
        s
    };
    let ci = index_of_byte(body, COMMA);
    let ip = if ci < 0 {
        body
    } else {
        body.take(ci)
    };
    let fp = if ci < 0 {
        Seq::<u8>::empty()
    } else {
        body.skip(ci + 1)
    };
    if all_digits(ip) && all_digits(fp) && ip.len() + fp.len() >= 1 {
        let mag = 100 * digits_val(ip) + frac_cents(fp);
        if mag <= i64::MAX {
            Some((if neg { -mag } else { mag }) as i64)
        } else {
            None
        }
    } else {
        None
    }
}

/// Value of a digit string of at most eighteen digits.
fn digits_value(v: &Vec<u8>) -> (r: u64)
    requires
        all_digits(v@),
        v@.len() <= 18,
    ensures
        r as int == digits_val(v@),
{
    let mut val: u64 = 0;
    let mut i: usize = 0;
    proof {
        assert(v@.take(0) =~= Seq::<u8>::empty());
    }
    while i < v.len()
        invariant
            i <= v.len() <= 18,
            all_digits(v@),
            val == digits_val(v@.take(i as int)),
            val < pow10(i as nat),
        decreases v.len() - i,
    {
        let b = v[i];
        proof {
            reveal_with_fuel(pow10, 20);
            lemma_pow10_mono((i + 1) as nat, 18);
            assert(pow10((i + 1) as nat) == 10 * pow10(i as nat));
            assert(pow10(18) == 1000000000000000000);
            assert(is_digit(b));
            assert(v@.take(i + 1).drop_last() =~= v@.take(i as int));
            assert(v@.take(i + 1).last() == v@[i as int]);
        }
        val = val * 10 + ((b - 48) as u64);
        i += 1;
    }
    proof {
        assert(v@.take(v@.len() as int) =~= v@);
    }
    val
}

/// Parses an amount as `spec_parse_amount` describes.
#[verifier::rlimit(100)]
pub fn parse_amount(s: &Vec<u8>) -> (r: Option<i64>)
    ensures
        r == spec_parse_amount(s@),
{
    let n = s.len();
    let mut neg = false;
    let mut start: usize = 0;
    if n > 0 && s[0] == MINUS {
        neg = true;
        start = 1;
    } else if n > 0 && s[0] == PLUS {
        start = 1;
    }
    let ghost body = if start == 1 { s@.skip(1) } else { s@ };
    proof {
        assert(s@.skip(0) =~= s@);
        assert(body =~= s@.skip(start as int));
        assert(forall|k: int| 0 <= k < body.len() ==> body[k] == s@[k + start]);
    }
    let mut j: usize = start;
    while j < n && s[j] != COMMA
        invariant
            start <= j <= n,
            n == s.len(),
            forall|k: int| start <= k < j ==> s@[k] != COMMA,
        decreases n - j,
    {
        j += 1;
    }
    let ghost ci = index_of_byte(body, COMMA);
    proof {
        lemma_index_of_byte(body, COMMA);
        if j == n {
            assert(ci == -1);
        } else {
            assert(body[j - start] == COMMA);
            assert(ci >= 0);
            if ci < j - start {
                assert(s@[ci + start] == COMMA);
                assert(false);
            }
            if ci > j - start {
                assert(body[j - start] != COMMA);
                assert(false);
            }
            assert(ci == j - start);
        }
    }
    let ip_end = j;
    let fp_start = if j < n { j + 1 } else { n };
    let ghost ip = if ci < 0 { body } else { body.take(ci) };
    let ghost fp = if ci < 0 { Seq::<u8>::empty() } else { body.skip(ci + 1) };
    proof {
        assert(ip =~= s@.subrange(start as int, ip_end as int));
        assert(fp =~= s@.subrange(fp_start as int, n as int));
    }
    let ip_v = crate::text::subrange_vec(s, start, ip_end);
    let fp_v = crate::text::subrange_vec(s, fp_start, n);
    if !crate::date::check_all_digits(&ip_v) {
        return None;
    }
    if !crate::date::check_all_digits(&fp_v) {
        return None;
    }
    if ip_v.len() == 0 && fp_v.len() == 0 {
        return None;
    }
    let mut f2: u64 = 0;
    if fp_v.len() >= 1 {
        f2 = 10 * ((fp_v[0] - 48) as u64);
    }
    if fp_v.len() >= 2 {
        f2 = f2 + ((fp_v[1] - 48) as u64);
    }
    if fp_v.len() >= 3 && fp_v[2] >= 53 {
        f2 = f2 + 1;
    }
    proof {
        assert(f2 == frac_cents(fp));
    }
    let mut z: usize = 0;
    while z < ip_v.len() && ip_v[z] == 48
        invariant
            z <= ip_v.len(),
            forall|t: int| 0 <= t < z ==> ip_v@[t] == 48,
        decreases ip_v.len() - z,
    {
        z += 1;
    }
    let ghost ipz = ip_v@.skip(z as int);
    proof {
        lemma_digits_skip_zeros(ip_v@, z as int);
        assert(forall|t: int| 0 <= t < ipz.len() ==> ipz[t] == ip_v@[t + z]);
        assert(all_digits(ipz));
    }
    if ip_v.len() - z >= 19 {
        proof {
            assert(ipz[0] == ip_v@[z as int]);
            assert(ipz[0] != 48);
            lemma_digits_val_leading(ipz);
            lemma_pow10_mono(18, (ipz.len() - 1) as nat);
            reveal_with_fuel(pow10, 20);
            assert(pow10(18) == 1000000000000000000);
            assert(digits_val(ip) >= 1000000000000000000);
            assert(100 * digits_val(ip) + frac_cents(fp) > i64::MAX);
        }
        return None;
    }
    let iplen = ip_v.len();
    let tail = crate::text::subrange_vec(&ip_v, z, iplen);
    proof {
        assert(tail@ =~= ipz);
    }
    let val = digits_value(&tail);
    proof {
        assert(val as int == digits_val(ip));
        lemma_digits_val_bounds(ip);
    }
    let mag: u128 = 100u128 * (val as u128) + (f2 as u128);
    if mag > 0x7fff_ffff_ffff_ffffu128 {
        return None;
    }
    let m64: i64 = mag as i64;
    if neg {
        Some(-m64)
    } else {
        Some(m64)
    }
}

/// Decimal digits of `n`, most significant first.
pub open spec fn dec_rep(n: nat) -> Seq<u8>
    decreases n,
{
    if n < 10 {
        seq![(48 + n) as u8]
    } else {
        dec_rep(n / 10).push((48 + n % 10) as u8)
    }
}

/// Two-decimal text of an amount in cents: an optional minus sign, the whole
/// units, a dot, then exactly two fraction digits.
pub open spec fn spec_format_cents(v: int) -> Seq<u8> {
    let mag = if v < 0 { -v } else { v };
    let sign: Seq<u8> = if v < 0 { seq![MINUS] } else { Seq::<u8>::empty() };
    sign + dec_rep((mag / 100) as nat) + seq![DOT]
        + seq![(48 + (mag % 100) / 10) as u8, (48 + mag % 10) as u8]
}

/// Formats cents as `spec_format_cents` describes.
pub fn format_cents(v: i128) -> (r: Vec<u8>)
    requires
        v > i128::MIN,
    ensures
        r@ == spec_format_cents(v as int),
{
    let mag: u128 = if v < 0 { (-v) as u128 } else { v as u128 };
    let mut m: u128 = mag / 100;
    let ghost n0 = (mag / 100) as nat;
    let mut d: Vec<u8> = Vec::new();
    proof {
        assert(d@.reverse() =~= Seq::<u8>::empty());
        assert(dec_rep(n0) =~= dec_rep(n0) + d@.reverse());
    }
    while m >= 10
        invariant
            dec_rep(n0) == dec_rep(m as nat) + d@.reverse(),
        decreases m,
    {
        let c: u8 = 48 + ((m % 10) as u8);
        let ghost old_d = d@;
        d.push(c);
        m = m / 10;
        proof {
            assert(d@.reverse() =~= seq![c] + old_d.reverse());
            assert(dec_rep((m * 10 + (c - 48)) as nat) == dec_rep(m as nat).push(c)) by {
                assert((m * 10 + (c - 48)) as nat >= 10);
                assert(((m * 10 + (c - 48)) as nat) / 10 == m as nat);
                assert(((m * 10 + (c - 48)) as nat) % 10 == (c - 48) as nat);
            }
            assert(dec_rep(n0) =~= dec_rep(m as nat) + d@.reverse());
        }
    }
    let c: u8 = 48 + (m as u8);
    let ghost old_d = d@;
    d.push(c);
    proof {
        assert(d@.reverse() =~= seq![c] + old_d.reverse());
        assert(dec_rep(n0) =~= d@.reverse());
    }
    let mut r: Vec<u8> = Vec::new();
    let ghost sign: Seq<u8> = if v < 0 { seq![MINUS] } else { Seq::<u8>::empty() };
    if v < 0 {
        r.push(MINUS);
    }
    proof {
        assert(r@ =~= sign + d@.reverse().take(0));
    }
    let mut idx: usize = d.len();
    while idx > 0
        invariant
            idx <= d.len(),
            r@ == sign + d@.reverse().take(d.len() - idx),
        decreases idx,
    {
        idx -= 1;
        let b = d[idx];
        r.push(b);
        proof {
            assert(d@.reverse()[d@.len() - idx - 1] == d@[idx as int]);
            assert(d@.reverse().take(d@.len() - idx) =~=
                d@.reverse().take(d@.len() - idx - 1).push(d@[idx as int]));
            assert(r@ =~= sign + d@.reverse().take(d@.len() - idx));
        }
    }
    proof {
        assert(d@.reverse().take(d@.len() as int) =~= d@.reverse());
        assert(r@ =~= sign + dec_rep(n0));
    }
    r.push(DOT);
    let t1: u8 = 48 + (((mag % 100) / 10) as u8);
    let t2: u8 = 48 + ((mag % 10) as u8);
    r.push(t1);
    r.push(t2);
    proof {
        assert(mag == (if v < 0 { -(v as int) } else { v as int }));
        assert(r@ =~= spec_format_cents(v as int));
    }
    r
}

} // verus!
