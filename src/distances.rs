//! Counting the distinct scores in a list of guesses sorted by score.
use vstd::prelude::*;

verus! {

/// The scores of `set`, in order.
pub open spec fn scores(set: Seq<(&str, u32)>) -> Seq<u32> {
    set.map_values(|p: (&str, u32)| p.1)
}

/// The scores never decrease along `s`.
pub open spec fn is_sorted(s: Seq<u32>) -> bool {
    forall|i: int, j: int| 0 <= i <= j < s.len() ==> s[i] <= s[j]
}

/// The distinct non-zero scores of `s`.
pub open spec fn nonzero_scores(s: Seq<u32>) -> Set<u32> {
    s.to_set().filter(|v: u32| v > 0)
}

/// Appending `d` adds it to the scores seen, if it is not zero.
proof fn lemma_nonzero_scores_push(p: Seq<u32>, d: u32)
    ensures
        nonzero_scores(p.push(d)) == (if d > 0 {
            nonzero_scores(p).insert(d)
        } else {
            nonzero_scores(p)
        }),
        nonzero_scores(p).finite(),
{
    broadcast use vstd::seq_lib::seq_to_set_is_finite;
    broadcast use vstd::set::group_set_axioms;

    assert forall|v: u32| p.push(d).contains(v) <==> p.contains(v) || v == d by {
        if p.push(d).contains(v) {
            let j = choose|j: int| 0 <= j < p.push(d).len() && p.push(d)[j] == v;
            if j < p.len() {
                assert(p[j] == v);
            }
        }
        if p.contains(v) {
            let j = choose|j: int| 0 <= j < p.len() && p[j] == v;
            assert(p.push(d)[j] == v);
        }
        if v == d {
            assert(p.push(d)[p.len() as int] == d);
        }
    }
    let target = if d > 0 {
        nonzero_scores(p).insert(d)
    } else {
        nonzero_scores(p)
    };
    assert forall|v: u32| #[trigger] nonzero_scores(p.push(d)).contains(v) == target.contains(v) by {
        assert(p.push(d).to_set().contains(v) == p.push(d).contains(v));
        assert(p.to_set().contains(v) == p.contains(v));
    }
    assert(nonzero_scores(p.push(d)) =~= target);
}

/// Counts the distinct non-zero scores of a list sorted by score.
pub fn distinct_distances(set: &Vec<(&str, u32)>) -> (r: u32)
    requires
        is_sorted(scores(set@)),
        set@.len() <= u32::MAX,
    ensures
        r == nonzero_scores(scores(set@)).len(),
{
    let ghost all = scores(set@);
    let mut last_distance: u32 = 0;
    let mut distinct: u32 = 0;
    let mut i: usize = 0;
    proof {
        broadcast use vstd::set::group_set_axioms;

        assert(nonzero_scores(all.subrange(0, 0)) =~= Set::<u32>::empty());
    }
    while i < set.len()
        invariant
            all == scores(set@),
            i <= set@.len() <= u32::MAX,
            is_sorted(all),
            distinct == nonzero_scores(all.subrange(0, i as int)).len(),
            distinct <= i,
            last_distance == (if i == 0 {
                0
            } else {
                all[i - 1]
            }),
        decreases set@.len() - i,
    {
        let distance = set[i].1;
        proof {
            broadcast use vstd::set::group_set_axioms;

            let p = all.subrange(0, i as int);
            assert(all.subrange(0, i as int + 1) =~= p.push(distance));
            lemma_nonzero_scores_push(p, distance);
            if distance > last_distance {
                assert(!p.contains(distance)) by {
                    if p.contains(distance) {
                        let j = choose|j: int| 0 <= j < p.len() && p[j] == distance;
                        assert(all[j] <= all[i - 1]);
                    }
                }
            } else if distance > 0 {
                assert(all[i as int] == distance);
                assert(i > 0);
                assert(all[i - 1] <= all[i as int]);
                assert(p[i - 1] == distance);
                assert(nonzero_scores(p).contains(distance));
            }
        }
        if distance > last_distance {
            distinct = distinct + 1;
        }
        last_distance = distance;
        i += 1;
    }
    assert(all.subrange(0, set@.len() as int) =~= all);
    distinct
}

} // verus!
