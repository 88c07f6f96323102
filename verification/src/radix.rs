//! Positional notation: a natural number as a sequence of digits, most
//! significant first, in a radix between 2 and 256.

use vstd::prelude::*;
use vstd::arithmetic::logarithm::log;

verus! {

/// Whether `radix` is one this module works in.
pub open spec fn valid_radix(radix: nat) -> bool {
    2 <= radix <= 256
}

/// The digits of `n` in `radix`, most significant first, without leading
/// zeros; zero is the single digit 0.
pub open spec fn digits(n: nat, radix: nat) -> Seq<u8>
    recommends
        valid_radix(radix),
    decreases n,
    via digits_terminates
{
    if radix < 2 || n < radix {
        seq![n as u8]
    } else {
        digits(n / radix, radix).push((n % radix) as u8)
    }
}

#[via_fn]
proof fn digits_terminates(n: nat, radix: nat) {
    if radix >= 2 && n >= radix {
        assert(n / radix < n) by (nonlinear_arith)
            requires
                radix >= 2,
                n >= radix,
        ;
    }
}

/// The number that the digits `ds`, most significant first, denote in `radix`.
pub open spec fn value_of(ds: Seq<u8>, radix: nat) -> nat
    decreases ds.len(),
{
    if ds.len() == 0 {
        0
    } else {
        value_of(ds.drop_last(), radix) * radix + ds.last() as nat
    }
}

/// Whether `ds` is the shortest way to write a number in `radix`: at least
/// one digit, each below the radix, and no leading zero unless the number is
/// written with the single digit 0.
pub open spec fn canonical(ds: Seq<u8>, radix: nat) -> bool {
    &&& ds.len() >= 1
    &&& forall|i: int| 0 <= i < ds.len() ==> (#[trigger] ds[i] as nat) < radix
    &&& ds.len() > 1 ==> ds[0] != 0
}

/// The digits of a number denote that number.
pub proof fn lemma_value_of_digits(n: nat, radix: nat)
    requires
        valid_radix(radix),
    ensures
        value_of(digits(n, radix), radix) == n,
    decreases n,
{
    if n < radix {
        let ds = digits(n, radix);
        assert(ds.drop_last() =~= Seq::<u8>::empty());
        assert(value_of(ds.drop_last(), radix) == 0);
        assert(value_of(ds, radix) == 0 * radix + n);
    } else {
        let q = n / radix;
        let r = n % radix;
        assert(q < n) by (nonlinear_arith)
            requires
                radix >= 2,
                n >= radix,
                q == n / radix,
        ;
        lemma_value_of_digits(q, radix);
        let ds = digits(n, radix);
        assert(ds.drop_last() =~= digits(q, radix));
        assert(ds.last() == r as u8);
        assert(q * radix + r == n) by (nonlinear_arith)
            requires
                radix >= 2,
                q == n / radix,
                r == n % radix,
        ;
    }
}

/// The digits of a number are the shortest way to write it.
pub proof fn lemma_digits_canonical(n: nat, radix: nat)
    requires
        valid_radix(radix),
    ensures
        canonical(digits(n, radix), radix),
        n > 0 ==> digits(n, radix)[0] != 0,
    decreases n,
{
    if n < radix {
    } else {
        let q = n / radix;
        let r = n % radix;
        assert(0 < q < n && r < radix) by (nonlinear_arith)
            requires
                radix >= 2,
                n >= radix,
                q == n / radix,
                r == n % radix,
        ;
        lemma_digits_canonical(q, radix);
        let head = digits(q, radix);
        let ds = digits(n, radix);
        assert(ds == head.push(r as u8));
        assert forall|i: int| 0 <= i < ds.len() implies (#[trigger] ds[i] as nat) < radix by {
            if i < head.len() {
                assert(ds[i] == head[i]);
            }
        }
        assert(ds[0] == head[0]);
    }
}

/// A number has only one shortest way to be written: whatever canonical
/// digits denote it are the digits this module gives.
pub proof fn lemma_digits_of_value(ds: Seq<u8>, radix: nat)
    requires
        valid_radix(radix),
        canonical(ds, radix),
    ensures
        digits(value_of(ds, radix), radix) == ds,
    decreases ds.len(),
{
    let n = value_of(ds, radix);
    let init = ds.drop_last();
    let last = ds.last() as nat;
    if ds.len() == 1 {
        assert(init =~= Seq::<u8>::empty());
        assert(value_of(init, radix) == 0);
        assert(n == 0 * radix + last);
        assert(digits(n, radix) =~= ds);
    } else {
        assert(canonical(init, radix)) by {
            assert forall|i: int| 0 <= i < init.len() implies (#[trigger] init[i] as nat)
                < radix by {
                assert(init[i] == ds[i]);
            }
            assert(init[0] == ds[0]);
        }
        lemma_digits_of_value(init, radix);
        let m = value_of(init, radix);
        assert(m > 0) by {
            lemma_value_positive(init, radix);
        }
        assert(n == m * radix + last);
        assert(n >= radix && n / radix == m && n % radix == last) by (nonlinear_arith)
            requires
                n == m * radix + last,
                m > 0,
                last < radix,
                radix >= 2,
        ;
        assert(digits(n, radix) =~= digits(m, radix).push(last as u8));
        assert(ds =~= init.push(ds.last()));
    }
}

/// Digits that begin with a non-zero digit denote a positive number.
pub proof fn lemma_value_positive(ds: Seq<u8>, radix: nat)
    requires
        valid_radix(radix),
        ds.len() >= 1,
        ds[0] != 0,
    ensures
        value_of(ds, radix) > 0,
    decreases ds.len(),
{
    let init = ds.drop_last();
    if ds.len() == 1 {
        assert(init =~= Seq::<u8>::empty());
        assert(value_of(init, radix) == 0);
        assert(value_of(ds, radix) == 0 * radix + ds[0] as nat);
    } else {
        assert(init[0] == ds[0]);
        lemma_value_positive(init, radix);
        let m = value_of(init, radix);
        assert(m * radix > 0) by (nonlinear_arith)
            requires
                m > 0,
                radix >= 2,
        ;
    }
}

/// Digits denote no less than any of their beginnings does.
pub proof fn lemma_value_prefix(ds: Seq<u8>, k: int, radix: nat)
    requires
        0 <= k <= ds.len(),
        radix >= 1,
    ensures
        value_of(ds.take(k), radix) <= value_of(ds, radix),
    decreases ds.len() - k,
{
    if k == ds.len() {
        assert(ds.take(k) =~= ds);
    } else {
        lemma_value_prefix(ds, k + 1, radix);
        let longer = ds.take(k + 1);
        assert(longer.drop_last() =~= ds.take(k));
        let m = value_of(ds.take(k), radix);
        assert(m <= m * radix) by (nonlinear_arith)
            requires
                radix >= 1,
        ;
    }
}

/// A positive number has one digit more than the integer logarithm of the
/// number to the radix.
pub proof fn lemma_digits_len(n: nat, radix: nat)
    requires
        valid_radix(radix),
        n > 0,
    ensures
        digits(n, radix).len() == log(radix as int, n as int) + 1,
    decreases n,
{
    reveal(log);
    if n < radix {
        assert(log(radix as int, n as int) == 0);
    } else {
        let q = n / radix;
        assert(0 < q < n) by (nonlinear_arith)
            requires
                radix >= 2,
                n >= radix,
                q == n / radix,
        ;
        lemma_digits_len(q, radix);
        assert((n as int) / (radix as int) == q as int);
        assert(log(radix as int, n as int) == 1 + log(radix as int, q as int));
    }
}

/// `radix` to the power `k`.
pub open spec fn power(radix: nat, k: nat) -> nat
    decreases k,
{
    if k == 0 {
        1
    } else {
        radix * power(radix, (k - 1) as nat)
    }
}

/// A number below the `k`-th power of the radix has at most `k` digits.
pub proof fn lemma_digits_len_bound(n: nat, radix: nat, k: nat)
    requires
        valid_radix(radix),
        k >= 1,
        n < power(radix, k),
    ensures
        1 <= digits(n, radix).len() <= k,
    decreases n,
{
    if n >= radix {
        let q = n / radix;
        let lower = power(radix, (k - 1) as nat);
        assert(power(radix, k) == radix * lower);
        if k == 1 {
            assert(power(radix, 0) == 1);
            assert(radix * lower == radix) by (nonlinear_arith)
                requires
                    lower == 1,
            ;
        }
        assert(q < n && q < lower) by (nonlinear_arith)
            requires
                radix >= 2,
                n >= radix,
                q == n / radix,
                n < radix * lower,
        ;
        lemma_digits_len_bound(q, radix, (k - 1) as nat);
    }
}

/// The digits of `n` in `radix`, most significant first.
pub fn to_digits(n: u64, radix: u64) -> (ds: Vec<u8>)
    requires
        valid_radix(radix as nat),
    ensures
        ds@ == digits(n as nat, radix as nat),
{
    // Least significant digit first, then turned round.
    let mut low_first: Vec<u8> = Vec::new();
    let mut rest: u64 = n;
    while rest >= radix
        invariant
            valid_radix(radix as nat),
            digits(n as nat, radix as nat) == digits(rest as nat, radix as nat)
                + low_first@.reverse(),
        decreases rest,
    {
        let d: u64 = rest % radix;
        let q: u64 = rest / radix;
        proof {
            let ghost grown = low_first@.push(d as u8);
            assert(digits(rest as nat, radix as nat) == digits(q as nat, radix as nat).push(
                d as u8,
            ));
            assert(grown.reverse() =~= seq![d as u8] + low_first@.reverse());
            assert(digits(q as nat, radix as nat).push(d as u8) + low_first@.reverse()
                =~= digits(q as nat, radix as nat) + grown.reverse());
        }
        low_first.push(d as u8);
        rest = q;
    }
    low_first.push(rest as u8);
    proof {
        let ghost before = low_first@.drop_last();
        assert(low_first@.reverse() =~= seq![rest as u8] + before.reverse());
        assert(digits(rest as nat, radix as nat) =~= seq![rest as u8]);
    }
    reversed(&low_first)
}

/// The elements of `v` in the opposite order.
pub fn reversed(v: &Vec<u8>) -> (r: Vec<u8>)
    ensures
        r@ == v@.reverse(),
{
    let mut r: Vec<u8> = Vec::new();
    let mut i: usize = v.len();
    while i > 0
        invariant
            i <= v.len(),
            r@.len() == v.len() - i,
            forall|j: int| 0 <= j < r@.len() ==> r@[j] == v@[v.len() - 1 - j],
        decreases i,
    {
        i -= 1;
        r.push(v[i]);
    }
    assert(r@ =~= v@.reverse());
    r
}

} // verus!
