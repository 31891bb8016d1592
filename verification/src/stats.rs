//! Rolling statistics over the non-missing samples of one series window.

use vstd::prelude::*;
use vstd::relations::{sorted_by, total_ordering};
use vstd::seq_lib::{lemma_sorted_unique, to_multiset_build, to_multiset_insert};
use vstd::arithmetic::div_mod::lemma_fundamental_div_mod;

use crate::Sample;

verus! {

/// Ordering by which sample values are ranked.
pub open spec fn value_le() -> spec_fn(i64, i64) -> bool {
    |a: i64, b: i64| a <= b
}

/// The values of the non-missing samples of a window, in window order.
pub open spec fn present_values(s: Seq<Sample>) -> Seq<i64>
    decreases s.len(),
{
    if s.len() == 0 {
        Seq::empty()
    } else {
        present_values(s.drop_last()) + match s.last().value {
            Some(v) => seq![v],
            None => Seq::empty(),
        }
    }
}

/// Zero-based rank of the 95th percentile of `n` values under the
/// nearest-rank rule: the smallest rank that covers at least 95% of them.
pub open spec fn p95_index(n: int) -> int {
    (19 * n + 19) / 20 - 1
}

/// Extremes and 95th percentile of the non-missing values of one series.
#[derive(Clone, Copy, Debug, PartialEq, Eq, Structural)]
pub struct SeriesStats {
    pub min: i64,
    pub max: i64,
    pub p95: i64,
}

proof fn lemma_value_le_total()
    ensures
        total_ordering(value_le()),
{
    let r = value_le();
    assert forall|a: i64| #[trigger] r(a, a) by {}
}

/// Sorted copy of `v`, by straight insertion.
fn sort_values(v: &Vec<i64>) -> (r: Vec<i64>)
    ensures
        r@ == v@.sort_by(value_le()),
        r@.len() == v@.len(),
        sorted_by(r@, value_le()),
        r@.to_multiset() == v@.to_multiset(),
{
    broadcast use to_multiset_insert;
    broadcast use to_multiset_build;

    let mut out: Vec<i64> = Vec::new();
    proof {
        assert(v@.subrange(0, 0) =~= Seq::<i64>::empty());
        assert(out@.to_multiset() =~= v@.subrange(0, 0).to_multiset());
    }
    let mut i: usize = 0;
    while i < v.len()
        invariant
            i <= v.len(),
            sorted_by(out@, value_le()),
            out@.len() == i,
            out@.to_multiset() == v@.subrange(0, i as int).to_multiset(),
        decreases v.len() - i,
    {
        let x = v[i];
        let mut j: usize = 0;
        while j < out.len() && out[j] <= x
            invariant
                j <= out.len(),
                forall|k: int| 0 <= k < j ==> out@[k] <= x,
            decreases out.len() - j,
        {
            j += 1;
        }
        let ghost before = out@;
        proof {
            before.insert_ensures(j as int, x);
        }
        out.insert(j, x);
        proof {
            // The scan bounds everything before slot j by x, and the stop
            // condition bounds everything from slot j on below by x.
            assert forall|m: int| j <= m < before.len() implies x <= #[trigger] before[m] by {
                assert(!(before[j as int] <= x));
                if m > j {
                    assert(value_le()(before[j as int], before[m]));
                }
            }
            assert forall|a: int, b: int| 0 <= a < b < out@.len() implies #[trigger] value_le()(
                out@[a],
                out@[b],
            ) by {
                if b < j {
                    assert(value_le()(before[a], before[b]));
                } else if b == j {
                    assert(before[a] <= x);
                } else if a < j {
                    assert(before[a] <= x && x <= before[b - 1]);
                } else if a == j {
                    assert(x <= before[b - 1]);
                } else {
                    assert(value_le()(before[a - 1], before[b - 1]));
                }
            }
            assert(out@ == before.insert(j as int, x));
            to_multiset_insert(before, j as int, x);
            to_multiset_build(v@.subrange(0, i as int), x);
            assert(v@.subrange(0, i as int).push(x) =~= v@.subrange(0, i + 1));
            assert(out@.to_multiset() == v@.subrange(0, i + 1).to_multiset());
        }
        i += 1;
    }
    proof {
        assert(v@.subrange(0, v@.len() as int) =~= v@);
        lemma_value_le_total();
        v@.lemma_sort_by_ensures(value_le());
        lemma_sorted_unique(out@, v@.sort_by(value_le()), value_le());
    }
    out
}

/// Statistics over the non-missing samples of `window`: their minimum,
/// maximum and nearest-rank 95th percentile, or `None` when every sample is
/// missing or the window is empty.
pub fn stats_of_window(window: &[Sample]) -> (r: Option<SeriesStats>)
    ensures
        r is Some <==> present_values(window@).len() > 0,
        (match r {
            Some(st) => {
                let s = present_values(window@).sort_by(value_le());
                &&& st.min == s[0]
                &&& st.max == s[s.len() - 1]
                &&& st.p95 == s[p95_index(present_values(window@).len() as int)]
                &&& forall|k: int|
                    0 <= k < present_values(window@).len() ==> st.min <= #[trigger] present_values(
                        window@,
                    )[k] <= st.max
            },
            None => true,
        }),
{
    broadcast use to_multiset_build;
    broadcast use vstd::seq_lib::to_multiset_len;
    broadcast use vstd::seq_lib::to_multiset_contains;

    let mut vals: Vec<i64> = Vec::new();
    proof {
        assert(window@.subrange(0, 0) =~= Seq::<Sample>::empty());
    }
    let mut i: usize = 0;
    while i < window.len()
        invariant
            i <= window.len(),
            vals@ == present_values(window@.subrange(0, i as int)),
        decreases window.len() - i,
    {
        proof {
            assert(window@.subrange(0, i + 1).drop_last() =~= window@.subrange(0, i as int));
            assert(window@.subrange(0, i + 1).last() == window@[i as int]);
        }
        match window[i].value {
            Some(v) => {
                vals.push(v);
                proof {
                    assert(vals@ =~= present_values(window@.subrange(0, i + 1)));
                }
            },
            None => {
                proof {
                    assert(vals@ =~= present_values(window@.subrange(0, i + 1)));
                }
            },
        }
        i += 1;
    }
    proof {
        assert(window@.subrange(0, window@.len() as int) =~= window@);
    }
    if vals.len() == 0 {
        return None;
    }
    let sorted = sort_values(&vals);
    let n = vals.len();
    proof {
        lemma_fundamental_div_mod(19 * (n as int) + 19, 20);
    }
    let rank_num: u128 = 19 * (n as u128) + 19;
    let rank: usize = (rank_num / 20 - 1) as usize;
    proof {
        assert(1 <= rank_num as int / 20 <= n as int);
        assert(rank as int == p95_index(n as int));
        assert(rank < n);
    }
    let st = SeriesStats { min: sorted[0], max: sorted[n - 1], p95: sorted[rank] };
    proof {
        let s = present_values(window@).sort_by(value_le());
        let vs = present_values(window@);
        assert forall|k: int| 0 <= k < vs.len() implies st.min <= #[trigger] vs[k] <= st.max by {
            assert(vs.contains(vs[k]));
            assert(vs.to_multiset().count(vs[k]) > 0);
            assert(s.to_multiset().count(vs[k]) > 0);
            assert(s.contains(vs[k]));
            let m = choose|m: int| 0 <= m < s.len() && s[m] == vs[k];
            if m > 0 {
                assert(value_le()(s[0], s[m]));
            }
            if m < s.len() - 1 {
                assert(value_le()(s[m], s[s.len() - 1]));
            }
        }
    }
    Some(st)
}

} // verus!
