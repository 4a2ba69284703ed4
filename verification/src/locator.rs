//! Dense identifiers for positions in an ordered collection.
//!
//! A [`Locator`] is a sequence of `u64` digits ordered lexicographically (as
//! its derived `Ord` orders it). [`Locator::between`] makes a new one that
//! sorts between two others, so items can be inserted before, after, or
//! between existing ones without renumbering. The initial location for a
//! collection is `Locator::between(&Locator::min(), &Locator::max())`,
//! leaving room on both sides.

use smallvec::SmallVec;
use vstd::prelude::*;

verus! {

/// The digits of a locator, held in a `SmallVec` (two digits inline, more on
/// the heap). Its contents are [`digit_seq`]; it is read and changed only
/// through the functions below.
#[verifier::external_body]
#[derive(Debug, PartialEq, Eq, PartialOrd, Ord, Hash)]
pub struct DigitVec {
    v: SmallVec<[u64; 2]>,
}

/// The digits a [`DigitVec`] holds, in order.
pub uninterp spec fn digit_seq(d: DigitVec) -> Seq<u64>;

/// `SmallVec::new`: an empty vector.
#[verifier::external_body]
fn digits_new() -> (r: DigitVec)
    ensures
        digit_seq(r) == Seq::<u64>::empty(),
{
    DigitVec { v: SmallVec::new() }
}

/// `SmallVec::push`: appends `x`.
#[verifier::external_body]
fn digits_push(v: &mut DigitVec, x: u64)
    ensures
        digit_seq(*final(v)) == digit_seq(*old(v)).push(x),
{
    v.v.push(x)
}

/// `SmallVec::len`: the number of digits.
#[verifier::external_body]
fn digits_len(v: &DigitVec) -> (r: usize)
    ensures
        r == digit_seq(*v).len(),
{
    v.v.len()
}

/// Indexing a `SmallVec` (its `Index` impl): the digit at `i`.
#[verifier::external_body]
fn digits_get(v: &DigitVec, i: usize) -> (r: u64)
    requires
        i < digit_seq(*v).len(),
    ensures
        r == digit_seq(*v)[i as int],
{
    v.v[i]
}

/// `SmallVec::from_slice`: a new vector holding the digits of `v`.
#[verifier::external_body]
fn digits_copy(v: &DigitVec) -> (r: DigitVec)
    ensures
        digit_seq(r) == digit_seq(*v),
{
    DigitVec { v: SmallVec::from_slice(&v.v) }
}

/// `SmallVec`'s `Clone::clone_from`: `v` takes the digits of `src`.
#[verifier::external_body]
fn digits_clone_from(v: &mut DigitVec, src: &DigitVec)
    ensures
        digit_seq(*final(v)) == digit_seq(*src),
{
    v.v.clone_from(&src.v)
}

/// `SmallVec::resize`: truncated to `len` digits, or extended to `len` with
/// copies of `value`.
#[verifier::external_body]
fn digits_resize(v: &mut DigitVec, len: usize, value: u64)
    ensures
        digit_seq(*final(v)) == if len <= digit_seq(*old(v)).len() {
            digit_seq(*old(v)).take(len as int)
        } else {
            digit_seq(*old(v)) + Seq::new((len - digit_seq(*old(v)).len()) as nat, |_i: int| value)
        },
{
    v.v.resize(len, value)
}

/// The slice method `copy_from_slice`, on the digits of `v`: overwrites them
/// with those of `src`, of the same length.
#[verifier::external_body]
fn digits_copy_from(v: &mut DigitVec, src: &DigitVec)
    requires
        digit_seq(*old(v)).len() == digit_seq(*src).len(),
    ensures
        digit_seq(*final(v)) == digit_seq(*src),
{
    v.v.copy_from_slice(&src.v)
}

/// An identifier for a position in an ordered collection.
#[derive(Debug, PartialEq, Eq, PartialOrd, Ord, Hash)]
pub struct Locator(DigitVec);

impl View for Locator {
    type V = Seq<u64>;

    closed spec fn view(&self) -> Seq<u64> {
        digit_seq(self.0)
    }
}

/// Digit `i` of `s`, or `pad` past its end.
pub open spec fn digit_or(s: Seq<u64>, i: int, pad: u64) -> u64 {
    if 0 <= i < s.len() {
        s[i]
    } else {
        pad
    }
}

/// The digit between `l` and `r`: `l` moved a 2^48th of the way toward `r`
/// (`l` itself when `r` is not above it). The small step leaves room for
/// many more locators after this one, the common case of sequential typing.
pub open spec fn mid_digit(l: u64, r: u64) -> u64 {
    (l + (if r >= l { r - l } else { 0 }) / 0x1_0000_0000_0000) as u64
}

/// The digits of [`Locator::between`] from index `i` on: `lhs` padded with
/// `0`s and `rhs` padded with `u64::MAX`s are walked side by side, and the
/// mid digit of each pair is taken until one lies above `lhs`'s digit.
pub open spec fn between_from(lhs: Seq<u64>, rhs: Seq<u64>, i: int) -> Seq<u64>
    decreases lhs.len() + rhs.len() - i,
{
    let l = digit_or(lhs, i, 0);
    let m = mid_digit(l, digit_or(rhs, i, u64::MAX));
    if m > l || i >= lhs.len() + rhs.len() {
        seq![m]
    } else {
        seq![m] + between_from(lhs, rhs, i + 1)
    }
}

/// The digits of the locator between `lhs` and `rhs`.
pub open spec fn between_spec(lhs: Seq<u64>, rhs: Seq<u64>) -> Seq<u64> {
    between_from(lhs, rhs, 0)
}

impl Locator {
    /// The smallest locator, the single digit `0`.
    pub fn min() -> (r: Self)
        ensures
            r@ == seq![0u64],
    {
        let mut v = digits_new();
        digits_push(&mut v, u64::MIN);
        let r = Locator(v);
        proof {
            assert(r@ =~= seq![0u64]);
        }
        r
    }

    /// The largest single-digit locator, `u64::MAX`.
    pub fn max() -> (r: Self)
        ensures
            r@ == seq![u64::MAX],
    {
        let mut v = digits_new();
        digits_push(&mut v, u64::MAX);
        let r = Locator(v);
        proof {
            assert(r@ =~= seq![u64::MAX]);
        }
        r
    }

    /// Make `self` a copy of `other`, reusing its storage.
    pub fn assign(&mut self, other: &Self)
        ensures
            final(self)@ == other@,
    {
        let n = digits_len(&other.0);
        digits_resize(&mut self.0, n, 0);
        digits_copy_from(&mut self.0, &other.0);
    }

    /// A locator that sorts between `lhs` and `rhs` (see [`between_spec`]).
    pub fn between(lhs: &Self, rhs: &Self) -> (r: Self)
        ensures
            r@ == between_spec(lhs@, rhs@),
    {
        let ghost a = lhs@;
        let ghost b = rhs@;
        let ll = digits_len(&lhs.0);
        let rl = digits_len(&rhs.0);
        let mut location = digits_new();
        let mut i: usize = 0;
        loop
            invariant
                a == lhs@,
                b == rhs@,
                ll == a.len(),
                rl == b.len(),
                i <= ll || i <= rl,
                between_spec(a, b) == digit_seq(location) + between_from(a, b, i as int),
            decreases ll + rl - i,
        {
            let l = if i < ll {
                digits_get(&lhs.0, i)
            } else {
                u64::MIN
            };
            let r = if i < rl {
                digits_get(&rhs.0, i)
            } else {
                u64::MAX
            };
            let gap = r.saturating_sub(l);
            assert((gap >> 48u64) == gap / 0x1_0000_0000_0000) by (bit_vector);
            let mid = l + (gap >> 48);
            let ghost before = digit_seq(location);
            digits_push(&mut location, mid);
            if mid > l {
                proof {
                    assert(digit_seq(location) =~= before + between_from(a, b, i as int));
                }
                return Locator(location);
            }
            proof {
                assert(before + between_from(a, b, i as int) =~= digit_seq(location) + between_from(a, b, i + 1));
            }
            i = i + 1;
        }
    }

    /// The number of digits.
    pub fn len(&self) -> (r: usize)
        ensures
            r == self@.len(),
    {
        digits_len(&self.0)
    }

    /// True when the locator has no digits.
    pub fn is_empty(&self) -> (r: bool)
        ensures
            r == (self@.len() == 0),
    {
        self.len() == 0
    }
}

impl Clone for Locator {
    fn clone(&self) -> (r: Self)
        ensures
            r@ == self@,
    {
        Locator(digits_copy(&self.0))
    }

    fn clone_from(&mut self, source: &Self)
        ensures
            final(self)@ == source@,
    {
        digits_clone_from(&mut self.0, &source.0);
    }
}

impl Default for Locator {
    fn default() -> (r: Self)
        ensures
            r@ == seq![0u64],
    {
        Locator::min()
    }
}

/// `a` sorts before `b` in the order of [`Locator`]'s derived `Ord`, which
/// compares the digits lexicographically: `a` is a proper prefix of `b`, or
/// at the first index where they differ `a`'s digit is smaller.
pub open spec fn digits_lt(a: Seq<u64>, b: Seq<u64>) -> bool {
    exists|k: int|
        #![trigger a.take(k), b.take(k)]
        0 <= k <= a.len() && k < b.len() && a.take(k) == b.take(k) && (k == a.len() || a[k] < b[k])
}

/// `b` is `a` followed by `0` digits only.
pub open spec fn zero_extends(a: Seq<u64>, b: Seq<u64>) -> bool {
    &&& a.len() < b.len()
    &&& b.take(a.len() as int) == a
    &&& forall|i: int| a.len() <= i < b.len() ==> b[i] == 0
}

/// Where [`between_from`] stops: the first index from `i` on whose mid digit
/// lies above `lhs`'s digit.
spec fn stop_at(lhs: Seq<u64>, rhs: Seq<u64>, i: int) -> int
    decreases lhs.len() + rhs.len() - i,
{
    let l = digit_or(lhs, i, 0);
    let m = mid_digit(l, digit_or(rhs, i, u64::MAX));
    if m > l || i >= lhs.len() + rhs.len() {
        i
    } else {
        stop_at(lhs, rhs, i + 1)
    }
}

proof fn lemma_mid_digit(l: u64, r: u64)
    ensures
        l <= mid_digit(l, r),
        r > l ==> mid_digit(l, r) < r,
        r <= l ==> mid_digit(l, r) == l,
{
    if r >= l {
        let d = (r - l) as int;
        assert(d / 0x1_0000_0000_0000 <= d);
        assert(d >= 1 ==> d / 0x1_0000_0000_0000 < d);
    }
}

/// What [`between_from`] produces from `i`: `lhs`'s (padded) digits up to
/// where it stops, then the first mid digit above `lhs`'s.
proof fn lemma_between_shape(lhs: Seq<u64>, rhs: Seq<u64>, i: int)
    requires
        0 <= i,
    ensures
        i <= stop_at(lhs, rhs, i),
        between_from(lhs, rhs, i) == Seq::new(
            (stop_at(lhs, rhs, i) - i) as nat,
            |t: int| digit_or(lhs, i + t, 0),
        ).push(mid_digit(digit_or(lhs, stop_at(lhs, rhs, i), 0), digit_or(rhs, stop_at(lhs, rhs, i), u64::MAX))),
        mid_digit(digit_or(lhs, stop_at(lhs, rhs, i), 0), digit_or(rhs, stop_at(lhs, rhs, i), u64::MAX)) > digit_or(
            lhs,
            stop_at(lhs, rhs, i),
            0,
        ),
        forall|t: int|
            i <= t < stop_at(lhs, rhs, i) ==> mid_digit(digit_or(lhs, t, 0), digit_or(rhs, t, u64::MAX)) == digit_or(
                lhs,
                t,
                0,
            ),
    decreases lhs.len() + rhs.len() - i,
{
    let l = digit_or(lhs, i, 0);
    let r = digit_or(rhs, i, u64::MAX);
    let m = mid_digit(l, r);
    lemma_mid_digit(l, r);
    if m > l {
        assert(between_from(lhs, rhs, i) =~= Seq::new(0, |t: int| digit_or(lhs, i + t, 0)).push(m));
    } else if i >= lhs.len() + rhs.len() {
        assert(l == 0 && r == u64::MAX);
        assert(mid_digit(0, u64::MAX) == 0xffff);
    } else {
        lemma_between_shape(lhs, rhs, i + 1);
        let j = stop_at(lhs, rhs, i);
        assert(m == l);
        assert(between_from(lhs, rhs, i) =~= Seq::new((j - i) as nat, |t: int| digit_or(lhs, i + t, 0)).push(
            mid_digit(digit_or(lhs, j, 0), digit_or(rhs, j, u64::MAX)),
        ));
    }
}

/// The first index from `i` on where `s` holds a nonzero digit, given one.
proof fn first_nonzero(s: Seq<u64>, i: int) -> (j: int)
    requires
        0 <= i,
        exists|t: int| i <= t < s.len() && s[t] != 0,
    ensures
        i <= j < s.len(),
        s[j] != 0,
        forall|t: int| i <= t < j ==> s[t] == 0,
    decreases s.len() - i,
{
    if s[i] != 0 {
        i
    } else {
        assert(exists|t: int| i + 1 <= t < s.len() && s[t] != 0);
        first_nonzero(s, i + 1)
    }
}

/// [`Locator::between`] does what its name says: when `lhs` sorts before
/// `rhs`, the new locator sorts strictly between them. (It cannot when `rhs`
/// is `lhs` followed by `0` digits only: no digit sequence lies between
/// those.)
pub proof fn lemma_between_sorts_between(lhs: Seq<u64>, rhs: Seq<u64>)
    requires
        digits_lt(lhs, rhs),
        !zero_extends(lhs, rhs),
    ensures
        digits_lt(lhs, between_spec(lhs, rhs)),
        digits_lt(between_spec(lhs, rhs), rhs),
{
    let k0 = choose|k: int|
        #![trigger lhs.take(k), rhs.take(k)]
        0 <= k <= lhs.len() && k < rhs.len() && lhs.take(k) == rhs.take(k) && (k == lhs.len() || lhs[k] < rhs[k]);
    assert forall|t: int| 0 <= t < k0 implies lhs[t] == rhs[t] by {
        assert(lhs.take(k0)[t] == rhs.take(k0)[t]);
    }
    // The first index where the padded digits differ; `lhs`'s is smaller.
    let k = if k0 < lhs.len() {
        k0
    } else {
        assert(rhs.take(lhs.len() as int) =~= lhs);
        first_nonzero(rhs, lhs.len() as int)
    };
    assert(0 <= k < rhs.len());
    assert(digit_or(lhs, k, 0) < digit_or(rhs, k, u64::MAX));
    assert forall|t: int| 0 <= t < k implies digit_or(lhs, t, 0) == digit_or(rhs, t, u64::MAX) by {
        if t < k0 {
            assert(lhs[t] == rhs[t]);
        }
    }
    lemma_between_shape(lhs, rhs, 0);
    let res = between_spec(lhs, rhs);
    let j = stop_at(lhs, rhs, 0);
    let lk = digit_or(lhs, k, 0);
    let rk = digit_or(rhs, k, u64::MAX);
    lemma_mid_digit(lk, rk);
    if j < k {
        lemma_mid_digit(digit_or(lhs, j, 0), digit_or(rhs, j, u64::MAX));
        assert(false);
    }
    // `res` sorts before `rhs`: they agree before `k`, where `res` is smaller.
    assert(res.take(k) =~= rhs.take(k));
    assert(res[k] < rhs[k]);
    assert(res.take(k) == rhs.take(k) && 0 <= k <= res.len() && k < rhs.len());
    // `lhs` sorts before `res`: `res` follows `lhs` up to `j`, then is bigger
    // there or runs past `lhs`'s end.
    if j < lhs.len() {
        assert(lhs.take(j) =~= res.take(j));
        assert(lhs[j] < res[j]);
    } else {
        let n = lhs.len() as int;
        assert(lhs.take(n) =~= res.take(n));
        assert(lhs.take(n) =~= lhs);
    }
}

} // verus!
