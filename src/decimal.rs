//! Fixed-point decimal numbers of up to 38 significant digits: a significand and a
//! scale, the number of digits after the decimal point.

use vstd::prelude::*;

use crate::error::ParseError;
use crate::datetime::lemma_run_end_block;
use crate::strconv::{
    all_digits, digit_value, digits_value, is_digit, lemma_nat_text, nat_text, push_nat, run_end, sign_split, Nestable,
};
use crate::text::lemma_trim_plain;
use crate::text::trim;

verus! {

/// The most digits a decimal holds.
pub const MAX_DECIMAL_DIGITS: usize = 38;

/// One more than the largest significand: `10^38`.
pub open spec fn significand_limit() -> int {
    100_000_000_000_000_000_000_000_000_000_000_000_000
}

/// The number `significand / 10^scale`.
#[derive(Debug, Clone, Copy, PartialEq, Eq, Structural)]
pub struct Decimal {
    pub significand: i128,
    pub scale: u8,
}

impl Decimal {
    /// At most 38 significant digits, and at most 38 of them after the
    /// point.
    pub open spec fn wf(&self) -> bool {
        &&& -significand_limit() < self.significand < significand_limit()
        &&& self.scale <= 38
    }
}

/// The sign, the digits before the point and the digits after it, of a
/// literal `[+|-]digits[.digits]`.
pub open spec fn decimal_parts(t: Seq<char>) -> Option<(bool, Seq<char>, Seq<char>)> {
    let (neg, b) = sign_split(t);
    let k = run_end(b, 0);
    if k >= b.len() {
        Some((neg, b, Seq::empty()))
    } else if b[k] == '.' && all_digits(b.subrange(k + 1, b.len() as int)) {
        Some((neg, b.subrange(0, k), b.subrange(k + 1, b.len() as int)))
    } else {
        None
    }
}

/// The decimal that `t` denotes: at least one digit, a value below `10^38`
/// once the point is dropped, and at most 38 digits after the point.
pub open spec fn decimal_value(t: Seq<char>) -> Result<Decimal, ParseError> {
    match decimal_parts(t) {
        None => Err(ParseError::Decimal),
        Some((neg, d1, d2)) => {
            if d1.len() + d2.len() == 0 || d2.len() > 38 || digits_value(d1 + d2) >= significand_limit() {
                Err(ParseError::Decimal)
            } else {
                let v = digits_value(d1 + d2);
                Ok(
                    Decimal {
                        significand: (if neg {
                            -v
                        } else {
                            v
                        }) as i128,
                        scale: d2.len() as u8,
                    },
                )
            }
        },
    }
}

fn add_digit(acc: u128, big: bool, c: char, seen: Ghost<Seq<char>>) -> (r: (u128, bool))
    requires
        is_digit(c),
        all_digits(seen@),
        !big ==> acc as int == digits_value(seen@) && acc < significand_limit(),
        big ==> digits_value(seen@) >= significand_limit(),
    ensures
        all_digits(seen@.push(c)),
        !r.1 ==> r.0 as int == digits_value(seen@.push(c)) && r.0 < significand_limit(),
        r.1 ==> digits_value(seen@.push(c)) >= significand_limit(),
{
    let ghost p = seen@.push(c);
    proof {
        assert(p.drop_last() =~= seen@);
        assert(all_digits(p)) by {
            assert forall|j: int| 0 <= j < p.len() implies is_digit(#[trigger] p[j]) by {
                if j < seen@.len() {
                    assert(p[j] == seen@[j]);
                }
            }
        }
        crate::strconv::lemma_digits_value_grows(p);
    }
    if big {
        (acc, true)
    } else if acc >= 10_000_000_000_000_000_000_000_000_000_000_000_000 {
        (acc, true)
    } else {
        (acc * 10 + (c as u32 - 48) as u128, false)
    }
}

/// Parses a decimal number: an optional sign, digits, and optionally a
/// point and more digits, with leading and trailing whitespace ignored. It
/// holds at least one digit, at most 38 after the point, and a value below
/// `10^38` once the point is dropped; the scale is the number of digits
/// after the point.
pub fn parse_decimal(s: &str) -> (r: Result<Decimal, ParseError>)
    ensures
        r == decimal_value(trim(s@)),
        r is Ok ==> r->Ok_0.wf(),
{
    let t = crate::datetime::trimmed_chars(s);
    let ghost tv = t@;
    let n = t.len();
    let mut i: usize = 0;
    let mut neg = false;
    if n > 0 && t[0] == '-' {
        neg = true;
        i = 1;
    } else if n > 0 && t[0] == '+' {
        i = 1;
    }
    let ghost b = tv.subrange(i as int, n as int);
    assert(sign_split(tv) == (neg, b)) by {
        if i == 1 {
            assert(tv.drop_first() =~= b);
        } else {
            assert(tv =~= b);
        }
    }
    let ghost mut seen: Seq<char> = Seq::empty();
    let mut acc: u128 = 0;
    let mut big = false;
    let mut count: usize = 0;
    let mut k = i;
    while k < n && '0' <= t[k] && t[k] <= '9'
        invariant
            i <= k <= n == tv.len(),
            t@ == tv,
            tv == trim(s@),
            b == tv.subrange(i as int, n as int),
            sign_split(tv) == (neg, b),
            run_end(b, 0) == run_end(b, k - i),
            seen == tv.subrange(i as int, k as int),
            count == seen.len(),
            all_digits(seen),
            !big ==> acc as int == digits_value(seen) && acc < significand_limit(),
            big ==> digits_value(seen) >= significand_limit(),
        decreases n - k,
    {
        assert(b[k - i] == tv[k as int]);
        let (a2, b2) = add_digit(acc, big, t[k], Ghost(seen));
        proof {
            seen = seen.push(t@[k as int]);
            assert(seen =~= tv.subrange(i as int, k + 1));
        }
        acc = a2;
        big = b2;
        count = count + 1;
        k = k + 1;
    }
    let d1_end = k;
    let ghost d1 = seen;
    let mut scale: usize = 0;
    if k < n {
        assert(run_end(b, 0) == k - i) by {
            assert(b[k - i] == tv[k as int]);
        }
        if t[k] != '.' {
            assert(b[k - i] == t@[k as int]);
            return Err(ParseError::Decimal);
        }
        k = k + 1;
        while k < n
            invariant
                d1_end < k <= n == tv.len(),
                t@ == tv,
                tv == trim(s@),
                i <= d1_end,
                b == tv.subrange(i as int, n as int),
                sign_split(tv) == (neg, b),
                run_end(b, 0) == d1_end - i,
                tv[d1_end as int] == '.',
                d1 == tv.subrange(i as int, d1_end as int),
                all_digits(tv.subrange(d1_end + 1, k as int)),
                seen == d1 + tv.subrange(d1_end + 1, k as int),
                scale == k - d1_end - 1,
                count == seen.len(),
                all_digits(seen),
                !big ==> acc as int == digits_value(seen) && acc < significand_limit(),
                big ==> digits_value(seen) >= significand_limit(),
            decreases n - k,
        {
            if !('0' <= t[k] && t[k] <= '9') {
                proof {
                    let rest = b.subrange(d1_end - i + 1, b.len() as int);
                    assert(rest[k - d1_end - 1] == t@[k as int]);
                    assert(!is_digit(rest[k - d1_end - 1]));
                    assert(!all_digits(rest));
                    assert(b[d1_end - i] == '.');
                    assert(decimal_parts(tv) is None);
                }
                return Err(ParseError::Decimal);
            }
            let (a2, b2) = add_digit(acc, big, t[k], Ghost(seen));
            proof {
                seen = seen.push(t@[k as int]);
                assert(seen =~= d1 + tv.subrange(d1_end + 1, k + 1));
                assert(all_digits(tv.subrange(d1_end + 1, k + 1))) by {
                    let q = tv.subrange(d1_end + 1, k + 1);
                    assert forall|j: int| 0 <= j < q.len() implies is_digit(#[trigger] q[j]) by {
                        assert(q[j] == seen[d1.len() + j]);
                    }
                }
            }
            acc = a2;
            big = b2;
            count = count + 1;
            scale = scale + 1;
            k = k + 1;
        }
        proof {
            assert(b.subrange(0, d1_end - i) =~= d1);
            assert(b.subrange(d1_end - i + 1, b.len() as int) =~= tv.subrange(d1_end + 1, n as int));
        }
    } else {
        assert(run_end(b, 0) >= b.len()) by {
            assert(run_end(b, k - i) == k - i);
        }
        assert(d1 =~= b);
        assert(seen =~= d1 + Seq::<char>::empty());
    }
    if count == 0 || scale > 38 || big {
        return Err(ParseError::Decimal);
    }
    let v = acc as i128;
    Ok(Decimal { significand: if neg { -v } else { v }, scale: scale as u8 })
}

/// `x` with leading zeros up to `w` characters.
pub open spec fn zero_pad(x: Seq<char>, w: nat) -> Seq<char> {
    if x.len() >= w {
        x
    } else {
        Seq::new((w - x.len()) as nat, |i: int| '0') + x
    }
}

/// The digits of a decimal's magnitude, with at least one before the point.
pub open spec fn decimal_digits(d: Decimal) -> Seq<char> {
    let m = if d.significand < 0 {
        -d.significand
    } else {
        d.significand as int
    };
    zero_pad(nat_text(m as nat), d.scale as nat + 1)
}

/// The text of a decimal: a `-` if negative, the digits before the point,
/// and, for a positive scale, the point and `scale` digits after it.
pub open spec fn decimal_text(d: Decimal) -> Seq<char> {
    let digs = decimal_digits(d);
    let cut = digs.len() - d.scale;
    (if d.significand < 0 {
        seq!['-']
    } else {
        Seq::empty()
    }) + digs.subrange(0, cut) + (if d.scale > 0 {
        seq!['.'] + digs.subrange(cut, digs.len() as int)
    } else {
        Seq::empty()
    })
}

fn digits_of(d: &Decimal) -> (r: Vec<char>)
    ensures
        r@ == decimal_digits(*d),
        r@.len() >= d.scale as int + 1,
{
    let sig = d.significand;
    let m: u128 = if sig < 0 {
        ((-(sig + 1)) as u128) + 1
    } else {
        sig as u128
    };
    let mut ds: Vec<char> = Vec::new();
    push_nat(&mut ds, m);
    assert(ds@ =~= nat_text(m as nat));
    let w = d.scale as usize + 1;
    let mut digs: Vec<char> = Vec::new();
    let mut z: usize = ds.len();
    while z < w
        invariant
            ds.len() <= z <= w || (z == ds.len() && ds.len() >= w),
            digs@ == Seq::new((z - ds.len()) as nat, |i: int| '0'),
        decreases w - z,
    {
        digs.push('0');
        z = z + 1;
        assert(digs@ =~= Seq::new((z - ds.len()) as nat, |i: int| '0'));
    }
    let ghost zeros = digs@;
    digs.append(&mut ds);
    assert(digs@ =~= decimal_digits(*d)) by {
        if nat_text(m as nat).len() >= w {
            assert(zeros =~= Seq::<char>::empty());
        }
    }
    digs
}

/// Writes a decimal to a buffer: its digits with the point `scale` digits
/// from the right, and a `0` before the point when there are no others.
pub fn format_decimal(buf: &mut Vec<char>, d: &Decimal) -> (r: Nestable)
    requires
        d.wf(),
    ensures
        final(buf)@ == old(buf)@ + decimal_text(*d),
        r == Nestable::Yes,
{
    let sig = d.significand;
    let digs = digits_of(d);
    let ghost full = decimal_digits(*d);
    let n = digs.len();
    let cut = n - d.scale as usize;
    if sig < 0 {
        buf.push('-');
    }
    let ghost start = buf@;
    let mut k: usize = 0;
    while k < cut
        invariant
            k <= cut <= n == digs@.len(),
            digs@ == full,
            buf@ == start + full.subrange(0, k as int),
        decreases cut - k,
    {
        buf.push(digs[k]);
        k = k + 1;
        assert(buf@ =~= start + full.subrange(0, k as int));
    }
    let ghost mid = buf@;
    if d.scale > 0 {
        buf.push('.');
        let mut j: usize = cut;
        while j < n
            invariant
                cut <= j <= n == digs@.len(),
                digs@ == full,
                buf@ == mid + seq!['.'] + full.subrange(cut as int, j as int),
            decreases n - j,
        {
            buf.push(digs[j]);
            j = j + 1;
            assert(buf@ =~= mid + seq!['.'] + full.subrange(cut as int, j as int));
        }
    }
    assert(buf@ =~= old(buf)@ + decimal_text(*d));
    Nestable::Yes
}


proof fn lemma_zeros_value(z: Seq<char>)
    requires
        forall|i: int| 0 <= i < z.len() ==> #[trigger] z[i] == '0',
    ensures
        digits_value(z) == 0,
        all_digits(z),
    decreases z.len(),
{
    if z.len() > 0 {
        let p = z.drop_last();
        assert forall|i: int| 0 <= i < p.len() implies #[trigger] p[i] == '0' by {
            assert(p[i] == z[i]);
        }
        lemma_zeros_value(p);
        assert(z.last() == '0');
        assert(digit_value('0') == 0);
    }
}

proof fn lemma_leading_zeros(z: Seq<char>, x: Seq<char>)
    requires
        forall|i: int| 0 <= i < z.len() ==> #[trigger] z[i] == '0',
        all_digits(x),
    ensures
        digits_value(z + x) == digits_value(x),
        all_digits(z + x),
    decreases x.len(),
{
    lemma_zeros_value(z);
    if x.len() == 0 {
        assert(z + x =~= z);
    } else {
        let p = x.drop_last();
        assert(all_digits(p)) by {
            assert forall|i: int| 0 <= i < p.len() implies is_digit(#[trigger] p[i]) by {
                assert(p[i] == x[i]);
            }
        }
        lemma_leading_zeros(z, p);
        assert((z + x).drop_last() =~= z + p);
        assert((z + x).last() == x.last());
    }
    assert forall|i: int| 0 <= i < (z + x).len() implies is_digit(#[trigger] (z + x)[i]) by {
        if i >= z.len() {
            assert((z + x)[i] == x[i - z.len()]);
        }
    }
}

/// A decimal, formatted and parsed again, is the same decimal.
pub proof fn law_decimal_round_trip(d: Decimal)
    requires
        d.wf(),
    ensures
        decimal_value(trim(decimal_text(d))) == Ok::<Decimal, ParseError>(d),
{
    let neg = d.significand < 0;
    let m: nat = if neg {
        (-d.significand) as nat
    } else {
        d.significand as nat
    };
    let nt = nat_text(m);
    lemma_nat_text(m);
    let w = d.scale as nat + 1;
    let digs = decimal_digits(d);
    assert(digits_value(digs) == m && all_digits(digs)) by {
        if nt.len() < w {
            let z = Seq::new((w - nt.len()) as nat, |i: int| '0');
            assert(digs == z + nt);
            lemma_leading_zeros(z, nt);
        }
    }
    let n = digs.len() as int;
    let sc = d.scale as int;
    let cut = n - sc;
    assert(n >= w);
    let head = digs.subrange(0, cut);
    let tail = if sc > 0 {
        seq!['.'] + digs.subrange(cut, n)
    } else {
        Seq::<char>::empty()
    };
    let b = head + tail;
    let t = decimal_text(d);
    let sign = if neg {
        seq!['-']
    } else {
        Seq::<char>::empty()
    };
    assert(t == sign + head + tail);
    assert(t =~= sign + b);
    assert(is_digit(digs[0]) && is_digit(digs[n - 1]));
    assert(is_digit(t.last())) by {
        if sc > 0 {
            assert(t.last() == digs[n - 1]);
        } else {
            assert(head =~= digs);
            assert(t.last() == digs[n - 1]);
        }
    }
    assert(t[0] == '-' || is_digit(t[0])) by {
        if !neg {
            assert(t[0] == digs[0]);
        }
    }
    lemma_trim_plain(t);
    assert(sign_split(t) == (neg, b)) by {
        if neg {
            assert(t.drop_first() =~= b);
        } else {
            assert(t =~= b);
        }
    }
    assert forall|j: int| 0 <= j < cut implies is_digit(#[trigger] b[j]) by {
        assert(b[j] == digs[j]);
    }
    if sc > 0 {
        assert(b[cut] == '.');
    }
    lemma_run_end_block(b, 0, cut);
    if sc > 0 {
        let d2 = digs.subrange(cut, n);
        assert(b.subrange(cut + 1, b.len() as int) =~= d2);
        assert(b.subrange(0, cut) =~= head);
        assert(all_digits(d2)) by {
            assert forall|j: int| 0 <= j < d2.len() implies is_digit(#[trigger] d2[j]) by {
                assert(d2[j] == digs[cut + j]);
            }
        }
        assert(head + d2 =~= digs);
    } else {
        assert(b =~= digs);
        assert(digs + Seq::<char>::empty() =~= digs);
    }
}


proof fn lemma_decimal_value_wf(t: Seq<char>)
    requires
        decimal_value(t) is Ok,
    ensures
        decimal_value(t)->Ok_0.wf(),
{
    let (neg, b) = sign_split(t);
    let (_, d1, d2) = decimal_parts(t)->Some_0;
    crate::datetime::lemma_run_digits(b, 0);
    if run_end(b, 0) >= b.len() {
        assert(b.subrange(0, run_end(b, 0)) =~= b);
        assert(d1 + d2 =~= b);
    } else {
        assert(d1 == b.subrange(0, run_end(b, 0)));
    }
    let all = d1 + d2;
    assert(all_digits(all)) by {
        assert forall|j: int| 0 <= j < all.len() implies is_digit(#[trigger] all[j]) by {
            if j < d1.len() {
                assert(all[j] == d1[j]);
            } else {
                assert(all[j] == d2[j - d1.len()]);
            }
        }
    }
    crate::strconv::lemma_digits_value_grows(all);
}

/// Any text that parses as a decimal reformats to a text that parses to
/// the same decimal.
pub proof fn law_decimal_canonical(t: Seq<char>)
    requires
        decimal_value(trim(t)) is Ok,
    ensures
        decimal_value(trim(decimal_text(decimal_value(trim(t))->Ok_0))) == decimal_value(trim(t)),
{
    lemma_decimal_value_wf(trim(t));
    law_decimal_round_trip(decimal_value(trim(t))->Ok_0);
}

} // verus!
