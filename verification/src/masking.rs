//! The band ranges over which a band's simultaneous masking spreads.
use vstd::prelude::*;

verus! {

/// The largest `j < end` with `hits[j]`, or `-1` when there is none.
pub open spec fn last_hit_before(hits: Seq<bool>, end: int) -> int
    decreases end,
{
    if end <= 0 {
        -1
    } else if hits[end - 1] {
        end - 1
    } else {
        last_hit_before(hits, end - 1)
    }
}

/// The smallest `j >= start` (and `j < hits.len()`) with `hits[j]`, or `hits.len()`
/// when there is none.
pub open spec fn first_hit_from(hits: Seq<bool>, start: int) -> int
    decreases hits.len() - start,
{
    if start >= hits.len() {
        hits.len() as int
    } else if hits[start] {
        start
    } else {
        first_hit_from(hits, start + 1)
    }
}

/// The masking range of band `i` among `n = below.len()` bands.
/// `below[j]` says that band `j`'s upper edge lies at least the masking spread
/// below band `i`'s centre (on the Bark scale); `above[j]` says that band `j`'s lower
/// edge lies at least the spread above it. The lower end of the range is the band
/// after the nearest band `j <= i - 2` that lies below (or 0 when none does), at most
/// `i`; the upper end is the band before the first band `j >= i` that lies above (or
/// before the last band when none does), at least 0.
pub open spec fn spec_masking_range(i: int, below: Seq<bool>, above: Seq<bool>) -> (int, int) {
    let n = below.len() as int;
    let lb = last_hit_before(below, i - 1);
    let lower = if lb < 0 {
        0
    } else {
        lb
    };
    let ub = first_hit_from(above, i);
    let upper = if ub >= n {
        n - 1
    } else {
        ub
    };
    (
        if lower + 1 < i {
            lower + 1
        } else {
            i
        },
        if upper >= 1 {
            upper - 1
        } else {
            0
        },
    )
}

proof fn lemma_last_hit_before_bounds(hits: Seq<bool>, end: int)
    ensures
        -1 <= last_hit_before(hits, end),
        last_hit_before(hits, end) < end || last_hit_before(hits, end) == -1,
    decreases end,
{
    if end > 0 && !hits[end - 1] {
        lemma_last_hit_before_bounds(hits, end - 1);
    }
}

proof fn lemma_first_hit_from_bounds(hits: Seq<bool>, start: int)
    ensures
        first_hit_from(hits, start) >= start || first_hit_from(hits, start) == hits.len(),
        first_hit_from(hits, start) <= hits.len() || start > hits.len(),
        start <= hits.len() ==> first_hit_from(hits, start) <= hits.len(),
    decreases hits.len() - start,
{
    if start < hits.len() && !hits[start] {
        lemma_first_hit_from_bounds(hits, start + 1);
    }
}

proof fn lemma_first_hit_is_least(hits: Seq<bool>, start: int, u: int)
    requires
        0 <= start <= u < hits.len(),
        hits[u],
        forall|j: int| start <= j < u ==> !hits[j],
    ensures
        first_hit_from(hits, start) == u,
    decreases u - start,
{
    if start < u {
        lemma_first_hit_is_least(hits, start + 1, u);
    }
}

proof fn lemma_first_hit_none(hits: Seq<bool>, start: int)
    requires
        0 <= start,
        forall|j: int| start <= j < hits.len() ==> !hits[j],
    ensures
        first_hit_from(hits, start) == hits.len() || start > hits.len(),
    decreases hits.len() - start,
{
    if start < hits.len() {
        lemma_first_hit_none(hits, start + 1);
    }
}

proof fn lemma_last_hit_is_greatest(hits: Seq<bool>, end: int, l: int)
    requires
        0 <= l < end <= hits.len(),
        hits[l],
        forall|j: int| l < j < end ==> !hits[j],
    ensures
        last_hit_before(hits, end) == l,
    decreases end - l,
{
    if l + 1 < end {
        lemma_last_hit_is_greatest(hits, end - 1, l);
    }
}

proof fn lemma_last_hit_none(hits: Seq<bool>, end: int)
    requires
        end <= hits.len(),
        forall|j: int| 0 <= j < end ==> !hits[j],
    ensures
        last_hit_before(hits, end) == -1,
    decreases end,
{
    if end > 0 {
        lemma_last_hit_none(hits, end - 1);
    }
}

/// The masking range is pinned to the hits: its upper end lies just before the
/// first band at or after `i` that lies above the spread (before the last band
/// when there is none), and its lower end just after the nearest band at or below
/// `i - 2` that lies below the spread (band 1, at most `i`, when there is none).
pub proof fn lemma_masking_range_edges(i: int, below: Seq<bool>, above: Seq<bool>)
    requires
        0 <= i < below.len(),
        above.len() == below.len(),
    ensures
        forall|u: int|
            i <= u < below.len() && #[trigger] above[u] && (forall|j: int| i <= j < u ==> !above[j])
                ==> spec_masking_range(i, below, above).1 == if u >= 1 {
                u - 1
            } else {
                0
            },
        (forall|j: int| i <= j < below.len() ==> !above[j]) ==> spec_masking_range(i, below, above).1
            == if below.len() >= 2 {
            below.len() - 2
        } else {
            0
        },
        forall|l: int|
            0 <= l && l + 2 <= i && #[trigger] below[l] && (forall|j: int| l < j && j + 2 <= i ==> !below[j])
                ==> spec_masking_range(i, below, above).0 == l + 1,
        (forall|j: int| 0 <= j && j + 2 <= i ==> !below[j]) ==> spec_masking_range(i, below, above).0
            == if i >= 1 {
            1int
        } else {
            0int
        },
{
    let n = below.len() as int;
    assert forall|u: int|
        i <= u < n && #[trigger] above[u] && (forall|j: int| i <= j < u ==> !above[j]) implies spec_masking_range(
        i,
        below,
        above,
    ).1 == if u >= 1 {
        u - 1
    } else {
        0
    } by {
        lemma_first_hit_is_least(above, i, u);
    }
    if forall|j: int| i <= j < n ==> !above[j] {
        lemma_first_hit_none(above, i);
    }
    assert forall|l: int|
        0 <= l && l + 2 <= i && #[trigger] below[l] && (forall|j: int| l < j && j + 2 <= i ==> !below[j])
            implies spec_masking_range(i, below, above).0 == l + 1 by {
        lemma_last_hit_is_greatest(below, i - 1, l);
    }
    if forall|j: int| 0 <= j && j + 2 <= i ==> !below[j] {
        if i >= 1 {
            lemma_last_hit_none(below, i - 1);
        }
    }
}

/// Computes the masking range of band `i` (see `spec_masking_range`). The range
/// always fits the band loops of the masker: `lower <= i`, `upper < n` and
/// `i <= upper + 1`, so `lower..i` and `i..=upper` index bands only.
pub fn masking_range(i: usize, below: &Vec<bool>, above: &Vec<bool>) -> (range: (usize, usize))
    requires
        i < below.len(),
        above.len() == below.len(),
    ensures
        range.0 == spec_masking_range(i as int, below@, above@).0,
        range.1 == spec_masking_range(i as int, below@, above@).1,
        range.0 <= i,
        range.1 < below.len(),
        i <= range.1 + 1,
        // The upper end stops just before the first band at or after `i` that lies
        // above the spread, or before the last band when there is none.
        forall|u: int|
            i <= u < below.len() && #[trigger] above@[u] && (forall|j: int| i <= j < u ==> !above@[j])
                ==> range.1 == if u >= 1 {
                u - 1
            } else {
                0
            },
        (forall|j: int| i <= j < below.len() ==> !above@[j]) ==> range.1 == if below.len() >= 2 {
            below.len() - 2
        } else {
            0
        },
        // The lower end starts just after the nearest band at or below `i - 2` that
        // lies below the spread, or at band 1 (at most `i`) when there is none.
        forall|l: int|
            0 <= l && l + 2 <= i && #[trigger] below@[l] && (forall|j: int| l < j && j + 2 <= i ==> !below@[j])
                ==> range.0 == l + 1,
        (forall|j: int| 0 <= j && j + 2 <= i ==> !below@[j]) ==> range.0 == if i >= 1 {
            1usize
        } else {
            0usize
        },
{
    let n = below.len();
    // Search downwards from band i - 2 for the nearest band below the spread.
    let end: usize = if i >= 1 {
        i - 1
    } else {
        0
    };
    let mut j: usize = end;
    let mut lower: usize = 0;
    proof {
        if i == 0 {
            assert(last_hit_before(below@, i - 1) == -1);
        }
    }
    while j > 0
        invariant_except_break
            lower == 0,
        invariant
            j <= end < n,
            end == if i >= 1 {
                i - 1
            } else {
                0
            },
            below.len() == n,
            last_hit_before(below@, end as int) == last_hit_before(below@, j as int),
        ensures
            lower as int == if last_hit_before(below@, end as int) < 0 {
                0
            } else {
                last_hit_before(below@, end as int)
            },
        decreases j,
    {
        if below[j - 1] {
            lower = j - 1;
            break;
        }
        j = j - 1;
    }
    proof {
        lemma_last_hit_before_bounds(below@, end as int);
        if i == 0 {
            assert(last_hit_before(below@, i - 1) == -1);
        } else {
            assert(end as int == i - 1);
        }
    }
    // Search upwards from band i for the first band above the spread.
    let mut k: usize = i;
    let mut upper: usize = n - 1;
    while k < n
        invariant_except_break
            upper == n - 1,
        invariant
            i <= k <= n,
            above.len() == n,
            first_hit_from(above@, i as int) == first_hit_from(above@, k as int),
        ensures
            upper as int == if first_hit_from(above@, i as int) >= n {
                n - 1
            } else {
                first_hit_from(above@, i as int)
            },
        decreases n - k,
    {
        if above[k] {
            upper = k;
            break;
        }
        k = k + 1;
    }
    proof {
        lemma_first_hit_from_bounds(above@, i as int);
    }
    proof {
        let n = below.len() as int;
        assert forall|u: int|
            i <= u < n && #[trigger] above@[u] && (forall|j: int| i <= j < u ==> !above@[j]) implies upper
            == u by {
            lemma_first_hit_is_least(above@, i as int, u);
        }
        if forall|j: int| i <= j < n ==> !above@[j] {
            lemma_first_hit_none(above@, i as int);
        }
        assert forall|l: int|
            0 <= l && l + 2 <= i && #[trigger] below@[l] && (forall|j: int| l < j && j + 2 <= i ==> !below@[j])
                implies lower == l by {
            lemma_last_hit_is_greatest(below@, i - 1, l);
        }
        if forall|j: int| 0 <= j && j + 2 <= i ==> !below@[j] {
            if i >= 1 {
                lemma_last_hit_none(below@, i - 1);
            }
        }
    }
    let start = if lower + 1 < i {
        lower + 1
    } else {
        i
    };
    let stop = if upper >= 1 {
        upper - 1
    } else {
        0
    };
    (start, stop)
}

} // verus!
