//! Shared specification-level arithmetic: sums, maxima and power-of-two
//! predicates used by the contracts of the engine's components.

use vstd::prelude::*;

verus! {

/// Mathematical sum of a sequence of signed values.
pub open spec fn sum_i64(s: Seq<i64>) -> int
    decreases s.len(),
{
    if s.len() == 0 {
        0
    } else {
        s[0] + sum_i64(s.drop_first())
    }
}

/// Mathematical sum of a sequence of unsigned values.
pub open spec fn sum_u64(s: Seq<u64>) -> int
    decreases s.len(),
{
    if s.len() == 0 {
        0
    } else {
        s[0] + sum_u64(s.drop_first())
    }
}

/// Largest element of a sequence of unsigned values; 0 on the empty sequence.
pub open spec fn max_u64(s: Seq<u64>) -> int
    decreases s.len(),
{
    if s.len() == 0 {
        0
    } else if s[0] >= max_u64(s.drop_first()) {
        s[0] as int
    } else {
        max_u64(s.drop_first())
    }
}

/// n is an exact power of two.
pub open spec fn is_pow2(n: nat) -> bool
    decreases n,
{
    if n == 0 {
        false
    } else if n == 1 {
        true
    } else {
        n % 2 == 0 && is_pow2(n / 2)
    }
}

pub proof fn lemma_sum_i64_push(s: Seq<i64>, v: i64)
    ensures
        sum_i64(s.push(v)) == sum_i64(s) + v,
    decreases s.len(),
{
    reveal_with_fuel(sum_i64, 2);
    if s.len() == 0 {
        assert(s.push(v)[0] == v);
        assert(s.push(v).drop_first() =~= Seq::<i64>::empty());
    } else {
        assert(s.push(v)[0] == s[0]);
        assert(s.push(v).drop_first() =~= s.drop_first().push(v));
        lemma_sum_i64_push(s.drop_first(), v);
    }
}

pub proof fn lemma_sum_u64_push(s: Seq<u64>, v: u64)
    ensures
        sum_u64(s.push(v)) == sum_u64(s) + v,
    decreases s.len(),
{
    reveal_with_fuel(sum_u64, 2);
    if s.len() == 0 {
        assert(s.push(v)[0] == v);
        assert(s.push(v).drop_first() =~= Seq::<u64>::empty());
    } else {
        assert(s.push(v)[0] == s[0]);
        assert(s.push(v).drop_first() =~= s.drop_first().push(v));
        lemma_sum_u64_push(s.drop_first(), v);
    }
}

pub proof fn lemma_max_u64_push(s: Seq<u64>, v: u64)
    ensures
        max_u64(s.push(v)) == if v >= max_u64(s) {
            v as int
        } else {
            max_u64(s)
        },
    decreases s.len(),
{
    reveal_with_fuel(max_u64, 2);
    if s.len() == 0 {
        assert(s.push(v)[0] == v);
        assert(s.push(v).drop_first() =~= Seq::<u64>::empty());
    } else {
        assert(s.push(v)[0] == s[0]);
        assert(s.push(v).drop_first() =~= s.drop_first().push(v));
        lemma_max_u64_push(s.drop_first(), v);
    }
}

/// The sum of signed 64-bit values stays within len * 2^63 of zero.
pub proof fn lemma_sum_i64_bounds(s: Seq<i64>)
    ensures
        -(s.len() * 0x8000_0000_0000_0000) <= sum_i64(s),
        sum_i64(s) <= s.len() * 0x8000_0000_0000_0000,
    decreases s.len(),
{
    if s.len() > 0 {
        lemma_sum_i64_bounds(s.drop_first());
    }
}

/// Byte-for-byte equality of two slices.
pub fn bytes_eq(a: &[u8], b: &[u8]) -> (r: bool)
    ensures
        r == (a@ == b@),
{
    if a.len() != b.len() {
        return false;
    }
    let mut i: usize = 0;
    while i < a.len()
        invariant
            a@.len() == b@.len(),
            i <= a@.len(),
            forall|j: int| 0 <= j < i ==> a@[j] == b@[j],
        decreases a@.len() - i,
    {
        if a[i] != b[i] {
            return false;
        }
        i = i + 1;
    }
    proof {
        assert(a@ =~= b@);
    }
    true
}

/// Runtime test for the power-of-two predicate.
pub fn is_power_of_two(n: usize) -> (r: bool)
    ensures
        r == is_pow2(n as nat),
{
    if n == 0 {
        return false;
    }
    let mut m: usize = n;
    while m % 2 == 0
        invariant
            1 <= m <= n,
            is_pow2(n as nat) == is_pow2(m as nat),
        decreases m,
    {
        m = m / 2;
    }
    m == 1
}

} // verus!
