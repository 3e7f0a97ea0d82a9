//! Natural numbers held as little-endian binary digits, large enough for powers of the width.
use vstd::arithmetic::power::*;
use vstd::prelude::*;

verus! {

/// The number whose binary digits, least significant first, are `d`.
pub open spec fn value(d: Seq<u8>) -> nat
    decreases d.len(),
{
    if d.len() == 0 {
        0
    } else {
        value(d.drop_last()) + (d.last() as nat) * (pow(2, (d.len() - 1) as nat) as nat)
    }
}

/// Every entry is a binary digit.
pub open spec fn is_binary(d: Seq<u8>) -> bool {
    forall|i: int| 0 <= i < d.len() ==> #[trigger] d[i] <= 1
}

proof fn lemma_pow2_step(e: nat)
    ensures
        pow(2, e + 1) == 2 * pow(2, e),
        pow(2, e) >= 1,
{
    lemma_pow_positive(2, e);
    reveal(pow);
    assert(pow(2, e + 1) == 2 * pow(2, ((e + 1) - 1) as nat));
}

proof fn lemma_value_prefix(d: Seq<u8>, i: int)
    requires
        0 <= i < d.len(),
    ensures
        value(d.subrange(0, i + 1)) == value(d.subrange(0, i)) + (d[i] as nat) * (pow(2, i as nat) as nat),
{
    assert(d.subrange(0, i + 1).drop_last() =~= d.subrange(0, i));
}

proof fn lemma_value_push(d: Seq<u8>, x: u8)
    ensures
        value(d.push(x)) == value(d) + (x as nat) * (pow(2, d.len()) as nat),
{
    assert(d.push(x).drop_last() =~= d);
}

/// `t` times the number with digits `d`.
pub fn times_small(d: &Vec<u8>, t: u64) -> (r: Vec<u8>)
    requires
        is_binary(d@),
    ensures
        is_binary(r@),
        value(r@) == t * value(d@),
{
    let mut r: Vec<u8> = Vec::new();
    let mut carry: u128 = 0;
    let mut i: usize = 0;
    assert(d@.subrange(0, 0) =~= Seq::<u8>::empty());
    assert(value(r@) == 0);
    assert(value(d@.subrange(0, 0)) == 0);
    while i < d.len()
        invariant
            i <= d.len(),
            r@.len() == i,
            is_binary(d@),
            is_binary(r@),
            carry <= t,
            value(r@) + carry * pow(2, i as nat) == t * value(d@.subrange(0, i as int)),
        decreases d.len() - i,
    {
        assert(d@[i as int] <= 1);
        assert(t * (d@[i as int] as u128) <= t) by (nonlinear_arith)
            requires
                d@[i as int] <= 1,
        ;
        let x: u128 = (t as u128) * (d[i] as u128) + carry;
        proof {
            lemma_value_prefix(d@, i as int);
            lemma_value_push(r@, (x % 2) as u8);
            lemma_pow2_step(i as nat);
            let p = pow(2, i as nat);
            assert((x % 2) * p + (x / 2) * (2 * p) == x * p) by (nonlinear_arith)
                requires
                    p >= 1,
            ;
            let a = value(r@) as int;
            let c = carry as int;
            let v = value(d@.subrange(0, i as int)) as int;
            let di = d@[i as int] as int;
            assert(a + (x % 2) * p + (x / 2) * (2 * p) == t * (v + di * p)) by (nonlinear_arith)
                requires
                    a + c * p == t * v,
                    x == t * di + c,
                    (x % 2) * p + (x / 2) * (2 * p) == x * p,
            ;
        }
        r.push((x % 2) as u8);
        carry = x / 2;
        i = i + 1;
    }
    assert(d@.subrange(0, d@.len() as int) =~= d@);
    while carry > 0
        invariant
            is_binary(r@),
            value(r@) + carry * pow(2, r@.len()) == t * value(d@),
        decreases carry,
    {
        proof {
            lemma_value_push(r@, (carry % 2) as u8);
            lemma_pow2_step(r@.len());
            let p = pow(2, r@.len());
            assert((carry % 2) * p + (carry / 2) * (2 * p) == carry * p) by (nonlinear_arith)
                requires
                    p >= 1,
            ;
        }
        r.push((carry % 2) as u8);
        carry = carry / 2;
    }
    r
}

/// `t` to the power `e`.
pub fn power_of(t: u64, e: u64) -> (r: Vec<u8>)
    ensures
        is_binary(r@),
        value(r@) == pow(t as int, e as nat),
{
    let mut r: Vec<u8> = Vec::new();
    r.push(1);
    proof {
        lemma_value_push(Seq::<u8>::empty(), 1);
        assert(Seq::<u8>::empty().push(1) =~= r@);
        reveal(pow);
        lemma_pow0(2);
        lemma_pow0(t as int);
    }
    let mut k: u64 = 0;
    while k < e
        invariant
            k <= e,
            is_binary(r@),
            value(r@) == pow(t as int, k as nat),
        decreases e - k,
    {
        r = times_small(&r, t);
        proof {
            reveal(pow);
            assert(pow(t as int, (k + 1) as nat) == t * pow(t as int, ((k + 1) - 1) as nat));
        }
        k = k + 1;
    }
    r
}

proof fn lemma_value_bound(d: Seq<u8>)
    requires
        is_binary(d),
    ensures
        value(d) < pow(2, d.len()),
    decreases d.len(),
{
    if d.len() > 0 {
        let n = (d.len() - 1) as nat;
        assert(is_binary(d.drop_last())) by {
            assert forall|i: int| 0 <= i < d.drop_last().len() implies #[trigger] d.drop_last()[i] <= 1 by {
                assert(d[i] <= 1);
            }
        }
        lemma_value_bound(d.drop_last());
        lemma_pow2_step(n);
        assert(d[d.len() - 1] <= 1);
        let p = pow(2, n);
        assert((d.last() as nat) * (p as nat) <= p) by (nonlinear_arith)
            requires
                d.last() <= 1,
                p >= 1,
        ;
        assert(d.len() == n + 1);
    } else {
        lemma_pow0(2);
    }
}

proof fn lemma_value_zero(d: Seq<u8>)
    requires
        is_binary(d),
    ensures
        value(d) == 0 <==> forall|j: int| 0 <= j < d.len() ==> #[trigger] d[j] == 0,
    decreases d.len(),
{
    if d.len() > 0 {
        let n = (d.len() - 1) as nat;
        let s = d.drop_last();
        assert(is_binary(s)) by {
            assert forall|i: int| 0 <= i < s.len() implies #[trigger] s[i] <= 1 by {
                assert(d[i] <= 1);
            }
        }
        lemma_value_zero(s);
        lemma_pow2_step(n);
        assert(d.last() == d[n as int]);
        assert(forall|k: int| 0 <= k < n ==> #[trigger] s[k] == d[k]);
        if forall|j: int| 0 <= j < d.len() ==> #[trigger] d[j] == 0 {
            assert forall|j: int| 0 <= j < s.len() implies #[trigger] s[j] == 0 by {
                assert(d[j] == 0);
            }
        }
        if value(d) == 0 {
            assert((d.last() as nat) * (pow(2, n) as nat) == 0);
            assert(d.last() == 0) by (nonlinear_arith)
                requires
                    (d.last() as nat) * (pow(2, n) as nat) == 0,
                    pow(2, n) >= 1,
            ;
            assert forall|j: int| 0 <= j < d.len() implies #[trigger] d[j] == 0 by {
                if j < d.len() - 1 {
                    assert(s[j] == 0);
                }
            }
        }
    }
}

/// The digits above position `e` are zero, and where digit `e` is one, so are all below it.
pub open spec fn fits_under_pow2(d: Seq<u8>, e: nat) -> bool {
    &&& forall|j: int| e < j < d.len() ==> #[trigger] d[j] == 0
    &&& (e < d.len() && d[e as int] == 1) ==> forall|j: int| 0 <= j < e ==> #[trigger] d[j] == 0
}

proof fn lemma_fits_under_pow2(d: Seq<u8>, e: nat)
    requires
        is_binary(d),
    ensures
        value(d) <= pow(2, e) <==> fits_under_pow2(d, e),
    decreases d.len(),
{
    if d.len() == 0 {
        lemma_pow_positive(2, e);
    } else {
        let n = (d.len() - 1) as nat;
        let s = d.drop_last();
        assert(is_binary(s)) by {
            assert forall|i: int| 0 <= i < s.len() implies #[trigger] s[i] <= 1 by {
                assert(d[i] <= 1);
            }
        }
        assert(d[n as int] <= 1);
        assert(d.last() == d[n as int]);
        assert(forall|k: int| 0 <= k < n ==> #[trigger] s[k] == d[k]);
        lemma_value_bound(s);
        lemma_pow_positive(2, n);
        assert(value(d) == value(s) + (d[n as int] as nat) * (pow(2, n) as nat));
        if n > e {
            lemma_pow_strictly_increases(2, e, n);
            if d[n as int] == 1 {
                assert(value(d) >= pow(2, n));
                assert(!fits_under_pow2(d, e));
            } else {
                lemma_fits_under_pow2(s, e);
                assert(value(d) == value(s));
                assert(e < s.len());
                assert(d[e as int] == s[e as int]);
                assert((forall|j: int| e < j < d.len() ==> #[trigger] d[j] == 0) == (forall|j: int|
                    e < j < s.len() ==> #[trigger] s[j] == 0)) by {
                    if forall|j: int| e < j < s.len() ==> #[trigger] s[j] == 0 {
                        assert forall|j: int| e < j < d.len() implies #[trigger] d[j] == 0 by {
                            if j < n {
                                assert(s[j] == 0);
                            }
                        }
                    }
                }
                assert((forall|j: int| 0 <= j < e ==> #[trigger] d[j] == 0) == (forall|j: int|
                    0 <= j < e ==> #[trigger] s[j] == 0)) by {
                    if forall|j: int| 0 <= j < e ==> #[trigger] s[j] == 0 {
                        assert forall|j: int| 0 <= j < e implies #[trigger] d[j] == 0 by {
                            assert(s[j] == 0);
                        }
                    }
                    if forall|j: int| 0 <= j < e ==> #[trigger] d[j] == 0 {
                        assert forall|j: int| 0 <= j < e implies #[trigger] s[j] == 0 by {
                            assert(d[j] == 0);
                        }
                    }
                }
            }
        } else if n == e {
            lemma_value_zero(s);
            if d[n as int] == 1 {
                assert(value(d) == value(s) + pow(2, e));
                if value(s) == 0 {
                    assert forall|j: int| 0 <= j < e implies #[trigger] d[j] == 0 by {
                        assert(s[j] == 0);
                    }
                    assert(fits_under_pow2(d, e));
                } else {
                    let j = choose|j: int| 0 <= j < s.len() && #[trigger] s[j] != 0;
                    assert(d[j] != 0);
                    assert(!fits_under_pow2(d, e));
                }
            } else {
                assert(d[n as int] == 0);
                assert(value(d) == value(s));
                assert(fits_under_pow2(d, e));
            }
        } else {
            lemma_value_bound(d);
            lemma_pow_increases(2, d.len(), e);
            assert(fits_under_pow2(d, e));
        }
    }
}

/// Whether the number with digits `d` is at most two to the power `e`.
pub fn at_most_pow2(d: &Vec<u8>, e: usize) -> (r: bool)
    requires
        is_binary(d@),
    ensures
        r == (value(d@) <= pow(2, e as nat)),
{
    proof {
        lemma_fits_under_pow2(d@, e as nat);
    }
    let ghost below = value(d@) <= pow(2, e as nat);
    assert(below == fits_under_pow2(d@, e as nat));
    let mut j: usize = d.len();
    while j > 0 && j - 1 > e
        invariant
            j <= d.len(),
            forall|k: int| j <= k < d.len() ==> #[trigger] d@[k] == 0,
            below == (value(d@) <= pow(2, e as nat)),
            below == fits_under_pow2(d@, e as nat),
        decreases j,
    {
        if d[j - 1] != 0 {
            assert(!fits_under_pow2(d@, e as nat));
            return false;
        }
        j = j - 1;
    }
    if e < d.len() && d[e] == 1 {
        let mut k: usize = 0;
        while k < e
            invariant
                k <= e,
                e < d.len(),
                forall|i: int| 0 <= i < k ==> #[trigger] d@[i] == 0,
                d@[e as int] == 1,
                forall|i: int| e < i < d.len() ==> #[trigger] d@[i] == 0,
                below == (value(d@) <= pow(2, e as nat)),
                below == fits_under_pow2(d@, e as nat),
            decreases e - k,
        {
            if d[k] != 0 {
                assert(!fits_under_pow2(d@, e as nat));
                return false;
            }
            k = k + 1;
        }
    }
    true
}

} // verus!
