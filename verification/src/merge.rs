//! Merging aggregates.
//!
//! Two aggregates combine additively: row counts add, and for every
//! weapon, killer, and killer/weapon pair the sums add, a name absent on
//! one side contributing zero. `agg_sum` states that relation; `merge`
//! realises it. Because addition of the sums is associative and
//! commutative, a parallel reduction may combine the per-file aggregates
//! in any order and in any tree shape and always reach the same totals —
//! the laws at the end of this module say exactly that.

use crate::aggregate::{
    k_kills, k_total, kw_count, killer_names_unique, lemma_k_absent, lemma_k_entry_le_total,
    lemma_k_remove, lemma_pair_absent, lemma_pair_entry_le_total, lemma_pair_remove,
    lemma_w_absent, lemma_w_entry_le_total, lemma_w_remove, pair_count, pair_names_unique,
    pair_total, w_dist, w_kills, w_total, weapon_names_unique, wf_aggregate, wf_killer_entry,
    wf_weapon_entry, Aggregate, RowKiller, RowWeapon,
};
use vstd::prelude::*;

verus! {

/// `r` holds, name by name, the sums of `a` and `b`, and their row counts
/// added.
pub open spec fn agg_sum(r: Aggregate, a: Aggregate, b: Aggregate) -> bool {
    &&& r.record_count == a.record_count + b.record_count
    &&& forall|n: Seq<char>|
        #[trigger] w_kills(r.weapons@, n) == w_kills(a.weapons@, n) + w_kills(b.weapons@, n)
    &&& forall|n: Seq<char>|
        #[trigger] w_dist(r.weapons@, n) == w_dist(a.weapons@, n) + w_dist(b.weapons@, n)
    &&& forall|n: Seq<char>|
        #[trigger] k_kills(r.killers@, n) == k_kills(a.killers@, n) + k_kills(b.killers@, n)
    &&& forall|kn: Seq<char>, wn: Seq<char>|
        #[trigger] kw_count(r.killers@, kn, wn) == kw_count(a.killers@, kn, wn) + kw_count(
            b.killers@,
            kn,
            wn,
        )
}

/// Two aggregates agree on every count and every sum.
pub open spec fn agg_equivalent(x: Aggregate, y: Aggregate) -> bool {
    &&& x.record_count == y.record_count
    &&& forall|n: Seq<char>| #[trigger] w_kills(x.weapons@, n) == w_kills(y.weapons@, n)
    &&& forall|n: Seq<char>| #[trigger] w_dist(x.weapons@, n) == w_dist(y.weapons@, n)
    &&& forall|n: Seq<char>| #[trigger] k_kills(x.killers@, n) == k_kills(y.killers@, n)
    &&& forall|kn: Seq<char>, wn: Seq<char>|
        #[trigger] kw_count(x.killers@, kn, wn) == kw_count(y.killers@, kn, wn)
}

// ---------------------------------------------------------------------
// Folding one side's entries into the other's
// ---------------------------------------------------------------------

/// Adds every per-weapon count of `rem` into `v`.
fn merge_pairs(v: &mut Vec<(String, u64)>, rem: Vec<(String, u64)>)
    requires
        pair_names_unique(old(v)@),
        forall|i: int| 0 <= i < old(v)@.len() ==> (#[trigger] old(v)@[i]).1 >= 1,
        forall|i: int| 0 <= i < rem@.len() ==> (#[trigger] rem@[i]).1 >= 1,
        pair_total(old(v)@) + pair_total(rem@) <= u64::MAX,
    ensures
        pair_names_unique(final(v)@),
        forall|i: int| 0 <= i < final(v)@.len() ==> (#[trigger] final(v)@[i]).1 >= 1,
        pair_total(final(v)@) == pair_total(old(v)@) + pair_total(rem@),
        forall|n: Seq<char>|
            #[trigger] pair_count(final(v)@, n) == pair_count(old(v)@, n) + pair_count(rem@, n),
{
    let mut rem = rem;
    let ghost orig_v = v@;
    let ghost orig_rem = rem@;
    loop
        invariant
            pair_names_unique(v@),
            forall|i: int| 0 <= i < v@.len() ==> (#[trigger] v@[i]).1 >= 1,
            forall|i: int| 0 <= i < rem@.len() ==> (#[trigger] rem@[i]).1 >= 1,
            pair_total(v@) + pair_total(rem@) == pair_total(orig_v) + pair_total(orig_rem),
            pair_total(orig_v) + pair_total(orig_rem) <= u64::MAX,
            forall|n: Seq<char>|
                #[trigger] pair_count(v@, n) + pair_count(rem@, n) == pair_count(orig_v, n)
                    + pair_count(orig_rem, n),
        ensures
            rem@.len() == 0,
        decreases rem@.len(),
    {
        let ghost rem_pre = rem@;
        let p = match rem.pop() {
            Some(p) => p,
            None => {
                break ;
            },
        };
        proof {
            assert(rem_pre.drop_last() =~= rem@);
            assert(rem_pre.last() == p);
            assert((p).1 >= 1) by {
                assert(rem_pre[rem_pre.len() - 1] == p);
            }
            lemma_pair_entry_le_total(rem_pre, rem_pre.len() - 1);
            assert forall|n: Seq<char>| true implies #[trigger] pair_count(rem_pre, n)
                == pair_count(rem@, n) + (if p.0@ == n {
                p.1 as nat
            } else {
                0nat
            }) by {}
        }
        let ghost pre = v@;
        match crate::aggregate::find_pair_index(v, &p.0) {
            Some(i) => {
                proof {
                    lemma_pair_entry_le_total(v@, i as int);
                }
                let e = v.remove(i);
                proof {
                    assert forall|n: Seq<char>| true implies #[trigger] pair_count(v@, n) + (if e.0@
                        == n {
                        e.1 as nat
                    } else {
                        0nat
                    }) == pair_count(pre, n) by {
                        lemma_pair_remove(pre, i as int, n);
                    }
                    lemma_pair_remove(pre, i as int, p.0@);
                    assert forall|j: int| 0 <= j < v@.len() implies (#[trigger] v@[j]).0@
                        != p.0@ by {
                        if j < i {
                            assert(v@[j] == pre[j]);
                        } else {
                            assert(v@[j] == pre[j + 1]);
                        }
                    }
                    lemma_pair_absent(v@, p.0@);
                }
                let e2 = (e.0, e.1 + p.1);
                let ghost before = v@;
                v.push(e2);
                proof {
                    assert(v@.drop_last() =~= before);
                    assert forall|n: Seq<char>| true implies #[trigger] pair_count(v@, n)
                        == pair_count(before, n) + (if e2.0@ == n {
                        e2.1 as nat
                    } else {
                        0nat
                    }) by {
                        assert(v@.last() == e2);
                    }
                }
            },
            None => {
                proof {
                    lemma_pair_absent(v@, p.0@);
                }
                let ghost before = v@;
                v.push(p);
                proof {
                    assert(v@.drop_last() =~= before);
                    assert forall|n: Seq<char>| true implies #[trigger] pair_count(v@, n)
                        == pair_count(before, n) + (if p.0@ == n {
                        p.1 as nat
                    } else {
                        0nat
                    }) by {
                        assert(v@.last() == p);
                    }
                }
            },
        }
    }
}

/// Adds every weapon entry of `rem` into `ws`.
fn merge_weapons(ws: &mut Vec<RowWeapon>, rem: Vec<RowWeapon>)
    requires
        weapon_names_unique(old(ws)@),
        forall|i: int| 0 <= i < old(ws)@.len() ==> wf_weapon_entry(#[trigger] old(ws)@[i]),
        forall|i: int| 0 <= i < rem@.len() ==> wf_weapon_entry(#[trigger] rem@[i]),
        w_total(old(ws)@) + w_total(rem@) <= u64::MAX,
    ensures
        weapon_names_unique(final(ws)@),
        forall|i: int| 0 <= i < final(ws)@.len() ==> wf_weapon_entry(#[trigger] final(ws)@[i]),
        w_total(final(ws)@) == w_total(old(ws)@) + w_total(rem@),
        forall|n: Seq<char>|
            #[trigger] w_kills(final(ws)@, n) == w_kills(old(ws)@, n) + w_kills(rem@, n),
        forall|n: Seq<char>|
            #[trigger] w_dist(final(ws)@, n) == w_dist(old(ws)@, n) + w_dist(rem@, n),
{
    let mut rem = rem;
    let ghost orig_w = ws@;
    let ghost orig_rem = rem@;
    loop
        invariant
            weapon_names_unique(ws@),
            forall|i: int| 0 <= i < ws@.len() ==> wf_weapon_entry(#[trigger] ws@[i]),
            forall|i: int| 0 <= i < rem@.len() ==> wf_weapon_entry(#[trigger] rem@[i]),
            w_total(ws@) + w_total(rem@) == w_total(orig_w) + w_total(orig_rem),
            w_total(orig_w) + w_total(orig_rem) <= u64::MAX,
            forall|n: Seq<char>|
                #[trigger] w_kills(ws@, n) + w_kills(rem@, n) == w_kills(orig_w, n) + w_kills(
                    orig_rem,
                    n,
                ),
            forall|n: Seq<char>|
                #[trigger] w_dist(ws@, n) + w_dist(rem@, n) == w_dist(orig_w, n) + w_dist(
                    orig_rem,
                    n,
                ),
        ensures
            rem@.len() == 0,
        decreases rem@.len(),
    {
        let ghost rem_pre = rem@;
        let w = match rem.pop() {
            Some(w) => w,
            None => {
                break ;
            },
        };
        proof {
            assert(rem_pre.drop_last() =~= rem@);
            assert(rem_pre.last() == w);
            assert(wf_weapon_entry(w)) by {
                assert(rem_pre[rem_pre.len() - 1] == w);
            }
            lemma_w_entry_le_total(rem_pre, rem_pre.len() - 1);
            assert forall|n: Seq<char>| true implies #[trigger] w_kills(rem_pre, n) == w_kills(
                rem@,
                n,
            ) + (if w.name@ == n {
                w.amount_deaths as nat
            } else {
                0nat
            }) by {}
            assert forall|n: Seq<char>| true implies #[trigger] w_dist(rem_pre, n) == w_dist(
                rem@,
                n,
            ) + (if w.name@ == n {
                w.distance_hundredths as nat
            } else {
                0nat
            }) by {}
        }
        let ghost pre = ws@;
        match crate::aggregate::find_weapon_index(ws, &w.name) {
            Some(i) => {
                proof {
                    lemma_w_entry_le_total(ws@, i as int);
                }
                let e = ws.remove(i);
                proof {
                    assert forall|n: Seq<char>| true implies #[trigger] w_kills(ws@, n) + (if e.name@
                        == n {
                        e.amount_deaths as nat
                    } else {
                        0nat
                    }) == w_kills(pre, n) by {
                        lemma_w_remove(pre, i as int, n);
                    }
                    assert forall|n: Seq<char>| true implies #[trigger] w_dist(ws@, n) + (if e.name@
                        == n {
                        e.distance_hundredths as nat
                    } else {
                        0nat
                    }) == w_dist(pre, n) by {
                        lemma_w_remove(pre, i as int, n);
                    }
                    lemma_w_remove(pre, i as int, w.name@);
                    assert forall|j: int| 0 <= j < ws@.len() implies (#[trigger] ws@[j]).name@
                        != w.name@ by {
                        if j < i {
                            assert(ws@[j] == pre[j]);
                        } else {
                            assert(ws@[j] == pre[j + 1]);
                        }
                    }
                    lemma_w_absent(ws@, w.name@);
                }
                let e2 = RowWeapon {
                    name: e.name,
                    amount_deaths: e.amount_deaths + w.amount_deaths,
                    distance_hundredths: e.distance_hundredths + w.distance_hundredths,
                };
                let ghost before = ws@;
                ws.push(e2);
                proof {
                    assert(ws@.drop_last() =~= before);
                    assert forall|n: Seq<char>| true implies #[trigger] w_kills(ws@, n) == w_kills(
                        before,
                        n,
                    ) + (if e2.name@ == n {
                        e2.amount_deaths as nat
                    } else {
                        0nat
                    }) by {
                        assert(ws@.last() == e2);
                    }
                    assert forall|n: Seq<char>| true implies #[trigger] w_dist(ws@, n) == w_dist(
                        before,
                        n,
                    ) + (if e2.name@ == n {
                        e2.distance_hundredths as nat
                    } else {
                        0nat
                    }) by {
                        assert(ws@.last() == e2);
                    }
                }
            },
            None => {
                proof {
                    lemma_w_absent(ws@, w.name@);
                }
                let ghost before = ws@;
                ws.push(w);
                proof {
                    assert(ws@.drop_last() =~= before);
                    assert forall|n: Seq<char>| true implies #[trigger] w_kills(ws@, n) == w_kills(
                        before,
                        n,
                    ) + (if ws@.last().name@ == n {
                        ws@.last().amount_deaths as nat
                    } else {
                        0nat
                    }) by {}
                    assert forall|n: Seq<char>| true implies #[trigger] w_dist(ws@, n) == w_dist(
                        before,
                        n,
                    ) + (if ws@.last().name@ == n {
                        ws@.last().distance_hundredths as nat
                    } else {
                        0nat
                    }) by {}
                }
            },
        }
    }
}

/// Adds every killer entry of `rem` into `ks`.
fn merge_killers(ks: &mut Vec<RowKiller>, rem: Vec<RowKiller>)
    requires
        killer_names_unique(old(ks)@),
        forall|i: int| 0 <= i < old(ks)@.len() ==> wf_killer_entry(#[trigger] old(ks)@[i]),
        forall|i: int| 0 <= i < rem@.len() ==> wf_killer_entry(#[trigger] rem@[i]),
        k_total(old(ks)@) + k_total(rem@) <= u64::MAX,
    ensures
        killer_names_unique(final(ks)@),
        forall|i: int| 0 <= i < final(ks)@.len() ==> wf_killer_entry(#[trigger] final(ks)@[i]),
        k_total(final(ks)@) == k_total(old(ks)@) + k_total(rem@),
        forall|n: Seq<char>|
            #[trigger] k_kills(final(ks)@, n) == k_kills(old(ks)@, n) + k_kills(rem@, n),
        forall|kn: Seq<char>, wn: Seq<char>|
            #[trigger] kw_count(final(ks)@, kn, wn) == kw_count(old(ks)@, kn, wn) + kw_count(
                rem@,
                kn,
                wn,
            ),
{
    let mut rem = rem;
    let ghost orig_k = ks@;
    let ghost orig_rem = rem@;
    loop
        invariant
            killer_names_unique(ks@),
            forall|i: int| 0 <= i < ks@.len() ==> wf_killer_entry(#[trigger] ks@[i]),
            forall|i: int| 0 <= i < rem@.len() ==> wf_killer_entry(#[trigger] rem@[i]),
            k_total(ks@) + k_total(rem@) == k_total(orig_k) + k_total(orig_rem),
            k_total(orig_k) + k_total(orig_rem) <= u64::MAX,
            forall|n: Seq<char>|
                #[trigger] k_kills(ks@, n) + k_kills(rem@, n) == k_kills(orig_k, n) + k_kills(
                    orig_rem,
                    n,
                ),
            forall|kn: Seq<char>, wn: Seq<char>|
                #[trigger] kw_count(ks@, kn, wn) + kw_count(rem@, kn, wn) == kw_count(orig_k, kn, wn)
                    + kw_count(orig_rem, kn, wn),
        ensures
            rem@.len() == 0,
        decreases rem@.len(),
    {
        let ghost rem_pre = rem@;
        let k = match rem.pop() {
            Some(k) => k,
            None => {
                break ;
            },
        };
        proof {
            assert(rem_pre.drop_last() =~= rem@);
            assert(rem_pre.last() == k);
            assert(wf_killer_entry(k)) by {
                assert(rem_pre[rem_pre.len() - 1] == k);
            }
            lemma_k_entry_le_total(rem_pre, rem_pre.len() - 1);
            assert forall|kn: Seq<char>, wn: Seq<char>| true implies #[trigger] kw_count(
                rem_pre,
                kn,
                wn,
            ) == kw_count(rem@, kn, wn) + (if k.name@ == kn {
                pair_count(k.weapons@, wn)
            } else {
                0nat
            }) by {}
            assert forall|kn: Seq<char>| true implies #[trigger] k_kills(rem_pre, kn) == k_kills(
                rem@,
                kn,
            ) + (if k.name@ == kn {
                k.amount_deaths as nat
            } else {
                0nat
            }) by {}
        }
        let ghost pre = ks@;
        match crate::aggregate::find_killer_index(ks, &k.name) {
            Some(i) => {
                proof {
                    lemma_k_entry_le_total(ks@, i as int);
                }
                let mut e = ks.remove(i);
                proof {
                    lemma_k_remove(pre, i as int, k.name@, k.name@);
                    assert forall|kn: Seq<char>| true implies #[trigger] k_kills(ks@, kn) + (
                    if e.name@ == kn {
                        e.amount_deaths as nat
                    } else {
                        0nat
                    }) == k_kills(pre, kn) by {
                        lemma_k_remove(pre, i as int, kn, kn);
                    }
                    assert forall|kn: Seq<char>, wn: Seq<char>| true implies #[trigger] kw_count(
                        ks@,
                        kn,
                        wn,
                    ) + (if e.name@ == kn {
                        pair_count(e.weapons@, wn)
                    } else {
                        0nat
                    }) == kw_count(pre, kn, wn) by {
                        lemma_k_remove(pre, i as int, kn, wn);
                    }
                    assert forall|j: int| 0 <= j < ks@.len() implies (#[trigger] ks@[j]).name@
                        != k.name@ by {
                        if j < i {
                            assert(ks@[j] == pre[j]);
                        } else {
                            assert(ks@[j] == pre[j + 1]);
                        }
                    }
                }
                let ghost e_old = e;
                e.amount_deaths = e.amount_deaths + k.amount_deaths;
                merge_pairs(&mut e.weapons, k.weapons);
                let ghost mid = ks@;
                let ghost e2 = e;
                ks.push(e);
                proof {
                    assert(ks@.drop_last() =~= mid);
                    assert(ks@.last() == e2);
                    assert(k_total(ks@) == k_total(mid) + e2.amount_deaths as nat);
                    assert forall|kn: Seq<char>| true implies #[trigger] k_kills(ks@, kn)
                        == k_kills(mid, kn) + (if e2.name@ == kn {
                        e2.amount_deaths as nat
                    } else {
                        0nat
                    }) by {
                        assert(ks@.last() == e2);
                    }
                    assert forall|kn: Seq<char>, wn: Seq<char>| true implies #[trigger] kw_count(
                        ks@,
                        kn,
                        wn,
                    ) == kw_count(mid, kn, wn) + (if e2.name@ == kn {
                        pair_count(e2.weapons@, wn)
                    } else {
                        0nat
                    }) by {
                        assert(ks@.last() == e2);
                    }
                    assert forall|j: int| 0 <= j < mid.len() implies wf_killer_entry(
                        #[trigger] mid[j],
                    ) by {
                        if j < i {
                            assert(mid[j] == pre[j]);
                        } else {
                            assert(mid[j] == pre[j + 1]);
                        }
                    }
                    assert(wf_killer_entry(e2));
                    assert forall|j: int| 0 <= j < ks@.len() implies wf_killer_entry(
                        #[trigger] ks@[j],
                    ) by {
                        if j < ks@.len() - 1 {
                            assert(ks@[j] == mid[j]);
                        } else {
                            assert(ks@[j] == e2);
                        }
                    }
                    lemma_k_absent(mid, k.name@, k.name@);
                    assert forall|wn: Seq<char>| true implies #[trigger] kw_count(mid, k.name@, wn)
                        == 0 by {
                        lemma_k_absent(mid, k.name@, wn);
                    }
                }
            },
            None => {
                proof {
                    lemma_k_absent(ks@, k.name@, k.name@);
                    assert forall|wn: Seq<char>| true implies #[trigger] kw_count(ks@, k.name@, wn)
                        == 0 by {
                        lemma_k_absent(ks@, k.name@, wn);
                    }
                }
                let ghost before = ks@;
                ks.push(k);
                proof {
                    assert(ks@.drop_last() =~= before);
                    assert(k_total(ks@) == k_total(before) + ks@.last().amount_deaths as nat);
                    assert forall|kn: Seq<char>| true implies #[trigger] k_kills(ks@, kn)
                        == k_kills(before, kn) + (if ks@.last().name@ == kn {
                        ks@.last().amount_deaths as nat
                    } else {
                        0nat
                    }) by {}
                    assert forall|kn: Seq<char>, wn: Seq<char>| true implies #[trigger] kw_count(
                        ks@,
                        kn,
                        wn,
                    ) == kw_count(before, kn, wn) + (if ks@.last().name@ == kn {
                        pair_count(ks@.last().weapons@, wn)
                    } else {
                        0nat
                    }) by {}
                }
            },
        }
    }
}

// ---------------------------------------------------------------------
// The merge itself
// ---------------------------------------------------------------------

/// Combines two aggregates into their additive sum. The row counts must
/// fit the counter together; everything else fits by the invariant.
pub fn merge(a: Aggregate, b: Aggregate) -> (r: Aggregate)
    requires
        wf_aggregate(a),
        wf_aggregate(b),
        a.record_count + b.record_count <= u64::MAX,
    ensures
        wf_aggregate(r),
        agg_sum(r, a, b),
{
    let mut acc = a;
    merge_weapons(&mut acc.weapons, b.weapons);
    merge_killers(&mut acc.killers, b.killers);
    acc.record_count = acc.record_count + b.record_count;
    acc
}

// ---------------------------------------------------------------------
// The merge laws
// ---------------------------------------------------------------------

/// Merging is commutative: combining `a` with `b` and combining `b` with
/// `a` agree on every count and every sum.
pub proof fn lemma_merge_commutative(r1: Aggregate, r2: Aggregate, a: Aggregate, b: Aggregate)
    requires
        agg_sum(r1, a, b),
        agg_sum(r2, b, a),
    ensures
        agg_equivalent(r1, r2),
{
}

/// Merging is associative: reducing `a`, `b`, `c` left to right and right
/// to left agree on every count and every sum. With commutativity, every
/// reduction order and tree shape over a fixed set of aggregates reaches
/// the same totals.
pub proof fn lemma_merge_associative(
    ab: Aggregate,
    ab_c: Aggregate,
    bc: Aggregate,
    a_bc: Aggregate,
    a: Aggregate,
    b: Aggregate,
    c: Aggregate,
)
    requires
        agg_sum(ab, a, b),
        agg_sum(ab_c, ab, c),
        agg_sum(bc, b, c),
        agg_sum(a_bc, a, bc),
    ensures
        agg_equivalent(ab_c, a_bc),
{
}

} // verus!
