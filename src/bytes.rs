//! Scanning and splitting sequences, and the decimal numbers written in
//! bytes.

use vstd::prelude::*;

verus! {

/// The first position at or after `p` where `f` holds, or the length of `b`.
pub open spec fn scan<A>(b: Seq<A>, p: int, f: spec_fn(Seq<A>, int) -> bool) -> int
    decreases b.len() - p,
{
    if p >= b.len() {
        b.len() as int
    } else if f(b, p) {
        p
    } else {
        scan(b, p + 1, f)
    }
}

/// A scan ends within `b`, at a position where `f` holds or at the end, and
/// passes only positions where it does not.
pub proof fn lemma_scan_bounds<A>(b: Seq<A>, p: int, f: spec_fn(Seq<A>, int) -> bool)
    requires
        0 <= p <= b.len(),
    ensures
        p <= scan(b, p, f) <= b.len(),
        scan(b, p, f) < b.len() ==> f(b, scan(b, p, f)),
        forall|q: int| p <= q < scan(b, p, f) ==> !#[trigger] f(b, q),
    decreases b.len() - p,
{
    if p < b.len() && !f(b, p) {
        lemma_scan_bounds(b, p + 1, f);
    }
}
/// An ASCII decimal digit.
pub open spec fn is_digit(c: u8) -> bool {
    48 <= c <= 57
}

/// Every byte of `v` is a decimal digit.
pub open spec fn all_digits(v: Seq<u8>) -> bool {
    forall|i: int| 0 <= i < v.len() ==> is_digit(#[trigger] v[i])
}

/// The number that the decimal digits `v` write.
pub open spec fn digits_value(v: Seq<u8>) -> nat
    decreases v.len(),
{
    if v.len() == 0 {
        0
    } else {
        digits_value(v.drop_last()) * 10 + (v.last() - 48) as nat
    }
}

/// The number that `v` writes in decimal, where `v` is one or more digits and
/// the number fits in 64 bits.
pub open spec fn decimal_value(v: Seq<u8>) -> Option<nat> {
    if v.len() > 0 && all_digits(v) && digits_value(v) <= u64::MAX {
        Some(digits_value(v))
    } else {
        None
    }
}


proof fn lemma_digits_value_grows(v: Seq<u8>, k: int)
    requires
        all_digits(v),
        0 <= k <= v.len(),
    ensures
        digits_value(v.take(k)) <= digits_value(v),
    decreases v.len(),
{
    if k < v.len() {
        assert(v.drop_last().take(k) =~= v.take(k));
        lemma_digits_value_grows(v.drop_last(), k);
    } else {
        assert(v.take(k) =~= v);
    }
}

/// The number that `b[lo..hi]` writes in decimal, if it is one that fits in
/// 64 bits.
pub fn parse_decimal(b: &[u8], lo: usize, hi: usize) -> (r: Option<u64>)
    requires
        lo <= hi <= b@.len(),
    ensures
        match r {
            Some(n) => decimal_value(b@.subrange(lo as int, hi as int)) == Some(n as nat),
            None => decimal_value(b@.subrange(lo as int, hi as int)) is None,
        },
{
    let ghost v = b@.subrange(lo as int, hi as int);
    if lo == hi {
        return None;
    }
    let mut acc: u64 = 0;
    let mut i: usize = lo;
    assert(v.take(0) =~= Seq::<u8>::empty());
    while i < hi
        invariant
            lo <= i <= hi <= b@.len(),
            v == b@.subrange(lo as int, hi as int),
            all_digits(v.take(i - lo)),
            acc == digits_value(v.take(i - lo)),
        decreases hi - i,
    {
        let c = b[i];
        assert(v[i - lo] == c);
        if c < 48 || c > 57 {
            assert(!all_digits(v));
            return None;
        }
        assert(v.take(i + 1 - lo).drop_last() =~= v.take(i - lo));
        let step = match acc.checked_mul(10) {
            Some(m) => m.checked_add((c - 48) as u64),
            None => None,
        };
        match step {
            Some(n) => {
                acc = n;
            },
            None => {
                proof {
                    assert(all_digits(v.take(i + 1 - lo)));
                    if all_digits(v) {
                        lemma_digits_value_grows(v, i + 1 - lo);
                    }
                }
                return None;
            },
        }
        i = i + 1;
    }
    assert(v.take(i - lo) =~= v);
    Some(acc)
}

/// `b` cut at each byte `sep`, as `str::split` cuts it: `k` separators give
/// `k + 1` pieces, some of them possibly empty.
pub open spec fn split_on<A>(b: Seq<A>, sep: A) -> Seq<Seq<A>>
    decreases b.len(),
{
    if b.len() == 0 {
        seq![Seq::<A>::empty()]
    } else {
        let s = split_on(b.drop_last(), sep);
        if b.last() == sep {
            s.push(Seq::<A>::empty())
        } else {
            s.update(s.len() - 1, s.last().push(b.last()))
        }
    }
}

pub proof fn lemma_split_on_nonempty<A>(b: Seq<A>, sep: A)
    ensures
        split_on(b, sep).len() >= 1,
    decreases b.len(),
{
    if b.len() > 0 {
        lemma_split_on_nonempty(b.drop_last(), sep);
    }
}

/// The number that `b` writes as `u32::from_str` and its kin read it: an
/// optional `+`, then one or more decimal digits.
pub open spec fn unsigned_value(b: Seq<u8>) -> Option<nat> {
    if b.len() > 0 && b[0] == 43 {
        decimal_value(b.drop_first())
    } else {
        decimal_value(b)
    }
}

/// The number that `b` writes (see [`unsigned_value`]), if it is at most
/// `max`.
pub fn parse_unsigned(b: &[u8], max: u64) -> (r: Option<u64>)
    ensures
        match r {
            Some(n) => unsigned_value(b@) == Some(n as nat) && n <= max,
            None => match unsigned_value(b@) {
                Some(n) => n > max,
                None => true,
            },
        },
{
    let lo: usize = if b.len() > 0 && b[0] == 43 {
        1
    } else {
        0
    };
    assert(b@.subrange(1, b@.len() as int) =~= b@.drop_first());
    assert(b@.subrange(0, b@.len() as int) =~= b@);
    match parse_decimal(b, lo, b.len()) {
        Some(n) => {
            if n <= max {
                Some(n)
            } else {
                None
            }
        },
        None => None,
    }
}

} // verus!
