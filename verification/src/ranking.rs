//! Ranking of sentences by score, most central first.
//!
//! Scores are single-precision floats; they reach this module as their IEEE-754
//! bit patterns (`f32::to_bits`). Each bit pattern is mapped to an integer key
//! whose order is the order of the scores, and the sentence indices are sorted
//! by descending key, ties kept in index order as a stable sort leaves them.
use crate::ieee::{
    field_magnitude, is_nan_value, is_zero, lemma_fields, lemma_scaled_order, numerically_less,
    total_order_less,
};
use vstd::prelude::*;

verus! {

/// Value of the sign bit's position in a 32-bit pattern.
pub const SIGN_BIT: u32 = 0x8000_0000;

/// Bit pattern of positive infinity; larger magnitudes are NaN.
pub const EXP_MASK: u32 = 0x7F80_0000;

/// Magnitude bits of a single-precision pattern (the pattern without its sign).
pub open spec fn magnitude(bits: u32) -> int {
    if bits >= SIGN_BIT {
        bits - SIGN_BIT
    } else {
        bits as int
    }
}

/// The pattern encodes a NaN: all exponent bits set and a non-zero mantissa.
pub open spec fn is_nan_spec(bits: u32) -> bool {
    magnitude(bits) > EXP_MASK
}

/// Key of the IEEE-754 total order (`f32::total_cmp`): non-negative patterns
/// keep their value; negative ones are reflected below zero, the larger the
/// magnitude the lower, so `-0.0` sits just below `+0.0` and NaNs sit at
/// both ends.
pub open spec fn total_key_spec(bits: u32) -> int {
    if bits < SIGN_BIT {
        bits as int
    } else {
        0x7FFF_FFFF - bits as int
    }
}

/// Key of the numeric order of non-NaN values (`f32::partial_cmp`): the
/// signed magnitude, so that `-0.0` and `+0.0` compare equal.
pub open spec fn partial_key_spec(bits: u32) -> int {
    if bits < SIGN_BIT {
        bits as int
    } else {
        SIGN_BIT - bits as int
    }
}

/// A pattern counts as NaN exactly when its exponent bits are all set and
/// its mantissa is not zero; no finite value and no infinity is a NaN.
pub proof fn lemma_nan_classification(bits: u32)
    ensures
        is_nan_spec(bits) == is_nan_value(bits),
{
    lemma_fields(bits);
}

/// The numeric-order key orders patterns that are not NaN by their value:
/// one key is below another exactly when its number is below the other's,
/// and two keys are equal only for the same pattern or the two zeros.
pub proof fn lemma_partial_key_is_numeric_order(a: u32, b: u32)
    requires
        !is_nan_value(a),
        !is_nan_value(b),
    ensures
        (partial_key_spec(a) < partial_key_spec(b)) == numerically_less(a, b),
        (partial_key_spec(a) == partial_key_spec(b)) == (a == b || (is_zero(a) && is_zero(b))),
{
    lemma_fields(a);
    lemma_fields(b);
    if field_magnitude(a) < 0x7F80_0000 && field_magnitude(b) < 0x7F80_0000 {
        lemma_scaled_order(a, b);
    }
}

/// The total-order key is one-to-one on patterns and orders them as IEEE-754
/// `totalOrder` (`f32::total_cmp`) does.
pub proof fn lemma_total_key_is_total_order(a: u32, b: u32)
    ensures
        (total_key_spec(a) < total_key_spec(b)) == total_order_less(a, b),
        (total_key_spec(a) == total_key_spec(b)) == (a == b),
{
    lemma_fields(a);
    lemma_fields(b);
}

/// On patterns that are not NaN the total order keeps the numeric order:
/// a number below another gets a lower total-order key.
pub proof fn lemma_total_key_extends_numeric_order(a: u32, b: u32)
    requires
        !is_nan_value(a),
        !is_nan_value(b),
        numerically_less(a, b),
    ensures
        total_key_spec(a) < total_key_spec(b),
{
    lemma_partial_key_is_numeric_order(a, b);
    lemma_fields(a);
    lemma_fields(b);
}

/// Whether the pattern encodes a NaN.
pub fn is_nan_bits(bits: u32) -> (r: bool)
    ensures
        r == is_nan_spec(bits),
{
    let mag = if bits >= SIGN_BIT {
        bits - SIGN_BIT
    } else {
        bits
    };
    mag > EXP_MASK
}

/// The total-order key of a single-precision bit pattern.
pub fn total_order_key(bits: u32) -> (k: i64)
    ensures
        k == total_key_spec(bits),
{
    if bits < SIGN_BIT {
        bits as i64
    } else {
        0x7FFF_FFFFi64 - bits as i64
    }
}

/// The numeric-order key of a single-precision bit pattern.
pub fn partial_order_key(bits: u32) -> (k: i64)
    ensures
        k == partial_key_spec(bits),
{
    if bits < SIGN_BIT {
        bits as i64
    } else {
        SIGN_BIT as i64 - bits as i64
    }
}

/// Item `a` ranks before item `b`: a higher key, or an equal key and a lower
/// index.
pub open spec fn ranks_before(keys: Seq<i64>, a: int, b: int) -> bool {
    keys[a] > keys[b] || (keys[a] == keys[b] && a < b)
}

/// `order` lists every index of `keys` once, from the highest key to the
/// lowest, equal keys in ascending index order.
pub open spec fn is_ranking(keys: Seq<i64>, order: Seq<usize>) -> bool {
    &&& order.len() == keys.len()
    &&& forall|k: int| 0 <= k < order.len() ==> #[trigger] order[k] < keys.len()
    &&& forall|k: int, l: int|
        0 <= k < l < order.len() ==> ranks_before(keys, #[trigger] order[k] as int, #[trigger] order[l] as int)
    &&& forall|i: usize| (i as int) < keys.len() ==> #[trigger] order.contains(i)
}

/// Indices `0..keys.len()` sorted by descending key; equal keys stay in
/// ascending index order, as a stable descending sort leaves them.
pub fn rank_descending(keys: &Vec<i64>) -> (order: Vec<usize>)
    ensures
        is_ranking(keys@, order@),
{
    let n = keys.len();
    let mut out: Vec<usize> = Vec::new();
    let mut i: usize = 0;
    while i < n
        invariant
            n == keys@.len(),
            i <= n,
            out@.len() == i,
            forall|k: int| 0 <= k < out@.len() ==> #[trigger] out@[k] < i,
            forall|k: int, l: int|
                0 <= k < l < out@.len() ==> ranks_before(keys@, #[trigger] out@[k] as int, #[trigger] out@[l] as int),
            forall|x: usize| x < i ==> #[trigger] out@.contains(x),
        decreases n - i,
    {
        let key = keys[i];
        // first position whose key is lower than the new one
        let mut p: usize = 0;
        while p < out.len() && keys[out[p]] >= key
            invariant
                n == keys@.len(),
                i < n,
                key == keys@[i as int],
                p <= out@.len(),
                forall|k: int| 0 <= k < out@.len() ==> #[trigger] out@[k] < i,
                forall|k: int| 0 <= k < p ==> keys@[#[trigger] out@[k] as int] >= key,
            decreases out@.len() - p,
        {
            p += 1;
        }
        proof {
            if p < out@.len() {
                assert(keys@[out@[p as int] as int] < key);
                assert forall|k: int| p <= k < out@.len() implies keys@[#[trigger] out@[k] as int] < key by {
                    if k > p {
                        assert(ranks_before(keys@, out@[p as int] as int, out@[k] as int));
                    }
                }
            }
        }
        let ghost before = out@;
        out.insert(p, i);
        proof {
            assert(out@ == before.insert(p as int, i));
            assert forall|k: int| 0 <= k < out@.len() implies #[trigger] out@[k] < i + 1 by {
                if k < p {
                    assert(out@[k] == before[k]);
                } else if k > p {
                    assert(out@[k] == before[k - 1]);
                }
            }
            assert forall|k: int, l: int| 0 <= k < l < out@.len() implies ranks_before(
                keys@,
                #[trigger] out@[k] as int,
                #[trigger] out@[l] as int,
            ) by {
                if l < p {
                    assert(out@[k] == before[k] && out@[l] == before[l]);
                } else if l == p {
                    assert(out@[k] == before[k]);
                    assert(keys@[before[k] as int] >= key);
                    assert(before[k] < i);
                } else if k < p {
                    assert(out@[k] == before[k] && out@[l] == before[l - 1]);
                } else if k == p {
                    assert(out@[l] == before[l - 1]);
                    assert(keys@[before[l - 1] as int] < key);
                } else {
                    assert(out@[k] == before[k - 1] && out@[l] == before[l - 1]);
                }
            }
            assert forall|x: usize| x < i + 1 implies #[trigger] out@.contains(x) by {
                if x == i {
                    assert(out@[p as int] == i);
                } else {
                    assert(before.contains(x));
                    let k = choose|k: int| 0 <= k < before.len() && before[k] == x;
                    if k < p {
                        assert(out@[k] == x);
                    } else {
                        assert(out@[k + 1] == x);
                    }
                }
            }
        }
        i += 1;
    }
    out
}

proof fn lemma_ranking_prefix(keys: Seq<i64>, a: Seq<usize>, b: Seq<usize>, k: int)
    requires
        is_ranking(keys, a),
        is_ranking(keys, b),
        0 <= k < a.len(),
    ensures
        forall|j: int| 0 <= j <= k ==> #[trigger] a[j] == b[j],
    decreases k,
{
    if k > 0 {
        lemma_ranking_prefix(keys, a, b, k - 1);
    }
    let x = a[k];
    let y = b[k];
    if x != y {
        assert(b.contains(x));
        let l = choose|l: int| 0 <= l < b.len() && b[l] == x;
        if l < k {
            assert(a[l] == b[l]);
            assert(ranks_before(keys, a[l] as int, a[k] as int));
        }
        assert(ranks_before(keys, y as int, x as int));
        assert(a.contains(y));
        let m = choose|m: int| 0 <= m < a.len() && a[m] == y;
        if m < k {
            assert(a[m] == b[m]);
            assert(ranks_before(keys, b[m] as int, b[k] as int));
        }
        assert(ranks_before(keys, x as int, y as int));
    }
}

/// A ranking is fully determined by the keys: two orders that both rank
/// the same keys are the same order. Ranking by score is a function of the
/// scores.
pub proof fn lemma_ranking_unique(keys: Seq<i64>, a: Seq<usize>, b: Seq<usize>)
    requires
        is_ranking(keys, a),
        is_ranking(keys, b),
    ensures
        a == b,
{
    if a.len() > 0 {
        lemma_ranking_prefix(keys, a, b, a.len() - 1);
    }
    assert(a =~= b);
}

/// The first index of a ranking holds a highest key.
pub proof fn lemma_ranking_first_is_max(keys: Seq<i64>, order: Seq<usize>, i: usize)
    requires
        is_ranking(keys, order),
        (i as int) < keys.len(),
    ensures
        keys[order[0] as int] >= keys[i as int],
{
    assert(order.contains(i));
    let k = choose|k: int| 0 <= k < order.len() && order[k] == i;
    if k > 0 {
        assert(ranks_before(keys, order[0] as int, order[k] as int));
    }
}

/// Indices of `scores` (as bit patterns) from the highest score to the
/// lowest under the IEEE-754 total order, ties in index order.
pub fn rank_by_total_order(score_bits: &Vec<u32>) -> (order: Vec<usize>)
    ensures
        is_ranking(score_bits@.map_values(|b: u32| total_key_spec(b) as i64), order@),
{
    let mut keys: Vec<i64> = Vec::new();
    let mut i: usize = 0;
    while i < score_bits.len()
        invariant
            i <= score_bits@.len(),
            keys@ == score_bits@.take(i as int).map_values(|b: u32| total_key_spec(b) as i64),
        decreases score_bits@.len() - i,
    {
        keys.push(total_order_key(score_bits[i]));
        i += 1;
        proof {
            assert(keys@ =~= score_bits@.take(i as int).map_values(|b: u32| total_key_spec(b) as i64));
        }
    }
    proof {
        assert(score_bits@.take(i as int) =~= score_bits@);
    }
    rank_descending(&keys)
}

/// Indices of `scores` (as bit patterns) from the highest score to the
/// lowest in numeric order, ties (`-0.0` and `+0.0` included) in index
/// order. `None` when two or more scores are to be ranked and one is a NaN:
/// such scores have no numeric order.
pub fn rank_by_partial_order(score_bits: &Vec<u32>) -> (order: Option<Vec<usize>>)
    ensures
        order is None <==> (score_bits@.len() >= 2 && exists|i: int|
            0 <= i < score_bits@.len() && is_nan_spec(#[trigger] score_bits@[i])),
        order matches Some(o) ==> is_ranking(
            score_bits@.map_values(|b: u32| partial_key_spec(b) as i64),
            o@,
        ),
{
    let n = score_bits.len();
    let mut keys: Vec<i64> = Vec::new();
    let mut i: usize = 0;
    while i < n
        invariant
            n == score_bits@.len(),
            i <= n,
            keys@ == score_bits@.take(i as int).map_values(|b: u32| partial_key_spec(b) as i64),
            n >= 2 ==> forall|k: int| 0 <= k < i ==> !is_nan_spec(#[trigger] score_bits@[k]),
        decreases n - i,
    {
        let bits = score_bits[i];
        if n >= 2 && is_nan_bits(bits) {
            return None;
        }
        keys.push(partial_order_key(bits));
        i += 1;
        proof {
            assert(keys@ =~= score_bits@.take(i as int).map_values(|b: u32| partial_key_spec(b) as i64));
        }
    }
    proof {
        assert(score_bits@.take(i as int) =~= score_bits@);
    }
    Some(rank_descending(&keys))
}

} // verus!
