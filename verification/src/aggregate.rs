//! Per-file aggregation of kill events.
//!
//! An [`Aggregate`] holds the statistics of one input file, or of any
//! merged group of files: how many rows were seen, per weapon how many
//! kills and the summed rounded distances, and per killer how many kills
//! with which weapons. The mathematical reading of an aggregate is the
//! family of sums below (`w_kills`, `w_dist`, `k_kills`, `kw_count`): what
//! each name has accumulated, independently of where its entry sits.

use crate::dist::DIST_LIMIT;
use crate::events::{row_ok, spec_row_distance, extract_event, KillEvent};
use crate::PipelineError;
use vstd::prelude::*;

verus! {

/// Statistics of one weapon: kills and summed rounded distances in
/// hundredths.
#[derive(Debug, PartialEq, Eq, Clone)]
pub struct RowWeapon {
    pub name: String,
    pub amount_deaths: u64,
    pub distance_hundredths: u128,
}

/// Statistics of one killer: kills, and per weapon how many of them.
#[derive(Debug, PartialEq, Eq, Clone)]
pub struct RowKiller {
    pub name: String,
    pub amount_deaths: u64,
    pub weapons: Vec<(String, u64)>,
}

/// Statistics of one file or of any merged set of files.
#[derive(Debug, PartialEq, Eq, Clone)]
pub struct Aggregate {
    pub record_count: u64,
    pub weapons: Vec<RowWeapon>,
    pub killers: Vec<RowKiller>,
}

// ---------------------------------------------------------------------
// The sums an aggregate stands for
// ---------------------------------------------------------------------

/// Kills accumulated by weapon `name`.
pub open spec fn w_kills(s: Seq<RowWeapon>, name: Seq<char>) -> nat
    decreases s.len(),
{
    if s.len() == 0 {
        0
    } else {
        w_kills(s.drop_last(), name) + if s.last().name@ == name {
            s.last().amount_deaths as nat
        } else {
            0nat
        }
    }
}

/// Distance sum accumulated by weapon `name`, in hundredths.
pub open spec fn w_dist(s: Seq<RowWeapon>, name: Seq<char>) -> nat
    decreases s.len(),
{
    if s.len() == 0 {
        0
    } else {
        w_dist(s.drop_last(), name) + if s.last().name@ == name {
            s.last().distance_hundredths as nat
        } else {
            0nat
        }
    }
}

/// All weapon kills together.
pub open spec fn w_total(s: Seq<RowWeapon>) -> nat
    decreases s.len(),
{
    if s.len() == 0 {
        0
    } else {
        w_total(s.drop_last()) + s.last().amount_deaths as nat
    }
}

/// Count accumulated by weapon `name` within one killer's entries.
pub open spec fn pair_count(s: Seq<(String, u64)>, name: Seq<char>) -> nat
    decreases s.len(),
{
    if s.len() == 0 {
        0
    } else {
        pair_count(s.drop_last(), name) + if s.last().0@ == name {
            s.last().1 as nat
        } else {
            0nat
        }
    }
}

/// All of one killer's per-weapon counts together.
pub open spec fn pair_total(s: Seq<(String, u64)>) -> nat
    decreases s.len(),
{
    if s.len() == 0 {
        0
    } else {
        pair_total(s.drop_last()) + s.last().1 as nat
    }
}

/// Kills accumulated by killer `name`.
pub open spec fn k_kills(s: Seq<RowKiller>, name: Seq<char>) -> nat
    decreases s.len(),
{
    if s.len() == 0 {
        0
    } else {
        k_kills(s.drop_last(), name) + if s.last().name@ == name {
            s.last().amount_deaths as nat
        } else {
            0nat
        }
    }
}

/// All killer kills together.
pub open spec fn k_total(s: Seq<RowKiller>) -> nat
    decreases s.len(),
{
    if s.len() == 0 {
        0
    } else {
        k_total(s.drop_last()) + s.last().amount_deaths as nat
    }
}

/// Kills accumulated by killer `killer` with weapon `weapon`.
pub open spec fn kw_count(s: Seq<RowKiller>, killer: Seq<char>, weapon: Seq<char>) -> nat
    decreases s.len(),
{
    if s.len() == 0 {
        0
    } else {
        kw_count(s.drop_last(), killer, weapon) + if s.last().name@ == killer {
            pair_count(s.last().weapons@, weapon)
        } else {
            0nat
        }
    }
}

// ---------------------------------------------------------------------
// Well-formedness
// ---------------------------------------------------------------------

/// No two weapon entries share a name.
pub open spec fn weapon_names_unique(s: Seq<RowWeapon>) -> bool {
    forall|i: int, j: int|
        0 <= i < j < s.len() ==> (#[trigger] s[i]).name@ != (#[trigger] s[j]).name@
}

/// No two killer entries share a name.
pub open spec fn killer_names_unique(s: Seq<RowKiller>) -> bool {
    forall|i: int, j: int|
        0 <= i < j < s.len() ==> (#[trigger] s[i]).name@ != (#[trigger] s[j]).name@
}

/// No two per-weapon entries of one killer share a name.
pub open spec fn pair_names_unique(s: Seq<(String, u64)>) -> bool {
    forall|i: int, j: int| 0 <= i < j < s.len() ==> (#[trigger] s[i]).0@ != (#[trigger] s[j]).0@
}

/// A weapon entry exists only with at least one kill, and its distance
/// sum stays under one rounded maximum per kill.
pub open spec fn wf_weapon_entry(w: RowWeapon) -> bool {
    &&& w.amount_deaths >= 1
    &&& w.distance_hundredths as nat <= (w.amount_deaths as nat) * (DIST_LIMIT as nat)
}

/// A killer entry exists only with at least one kill; its per-weapon
/// counts are keyed uniquely, start at one, and sum to its kill count.
pub open spec fn wf_killer_entry(k: RowKiller) -> bool {
    &&& k.amount_deaths >= 1
    &&& pair_total(k.weapons@) == k.amount_deaths as nat
    &&& pair_names_unique(k.weapons@)
    &&& forall|i: int| 0 <= i < k.weapons@.len() ==> (#[trigger] k.weapons@[i]).1 >= 1
}

/// The aggregate's invariant: unique keys, well-formed entries, and both
/// kill sums equal to the row count.
pub open spec fn wf_aggregate(a: Aggregate) -> bool {
    &&& weapon_names_unique(a.weapons@)
    &&& killer_names_unique(a.killers@)
    &&& w_total(a.weapons@) == a.record_count as nat
    &&& k_total(a.killers@) == a.record_count as nat
    &&& forall|i: int| 0 <= i < a.weapons@.len() ==> wf_weapon_entry(#[trigger] a.weapons@[i])
    &&& forall|i: int| 0 <= i < a.killers@.len() ==> wf_killer_entry(#[trigger] a.killers@[i])
}

// ---------------------------------------------------------------------
// How the sums react to removing an entry
// ---------------------------------------------------------------------

/// Removing weapon entry `i` takes exactly its contribution out of every
/// sum.
pub proof fn lemma_w_remove(s: Seq<RowWeapon>, i: int, name: Seq<char>)
    requires
        0 <= i < s.len(),
    ensures
        w_kills(s.remove(i), name) + (if s[i].name@ == name {
            s[i].amount_deaths as nat
        } else {
            0nat
        }) == w_kills(s, name),
        w_dist(s.remove(i), name) + (if s[i].name@ == name {
            s[i].distance_hundredths as nat
        } else {
            0nat
        }) == w_dist(s, name),
        w_total(s.remove(i)) + s[i].amount_deaths as nat == w_total(s),
    decreases s.len(),
{
    if i == s.len() - 1 {
        assert(s.remove(i) =~= s.drop_last());
    } else {
        lemma_w_remove(s.drop_last(), i, name);
        assert(s.remove(i).drop_last() =~= s.drop_last().remove(i));
        assert(s.remove(i).last() == s.last());
    }
}

/// Removing per-weapon entry `i` takes exactly its contribution out.
pub proof fn lemma_pair_remove(s: Seq<(String, u64)>, i: int, name: Seq<char>)
    requires
        0 <= i < s.len(),
    ensures
        pair_count(s.remove(i), name) + (if s[i].0@ == name {
            s[i].1 as nat
        } else {
            0nat
        }) == pair_count(s, name),
        pair_total(s.remove(i)) + s[i].1 as nat == pair_total(s),
    decreases s.len(),
{
    if i == s.len() - 1 {
        assert(s.remove(i) =~= s.drop_last());
    } else {
        lemma_pair_remove(s.drop_last(), i, name);
        assert(s.remove(i).drop_last() =~= s.drop_last().remove(i));
        assert(s.remove(i).last() == s.last());
    }
}

/// Removing killer entry `i` takes exactly its contribution out.
pub proof fn lemma_k_remove(s: Seq<RowKiller>, i: int, killer: Seq<char>, weapon: Seq<char>)
    requires
        0 <= i < s.len(),
    ensures
        k_kills(s.remove(i), killer) + (if s[i].name@ == killer {
            s[i].amount_deaths as nat
        } else {
            0nat
        }) == k_kills(s, killer),
        kw_count(s.remove(i), killer, weapon) + (if s[i].name@ == killer {
            pair_count(s[i].weapons@, weapon)
        } else {
            0nat
        }) == kw_count(s, killer, weapon),
        k_total(s.remove(i)) + s[i].amount_deaths as nat == k_total(s),
    decreases s.len(),
{
    if i == s.len() - 1 {
        assert(s.remove(i) =~= s.drop_last());
    } else {
        lemma_k_remove(s.drop_last(), i, killer, weapon);
        assert(s.remove(i).drop_last() =~= s.drop_last().remove(i));
        assert(s.remove(i).last() == s.last());
    }
}

/// A name that appears in no weapon entry has accumulated nothing.
pub proof fn lemma_w_absent(s: Seq<RowWeapon>, name: Seq<char>)
    requires
        forall|j: int| 0 <= j < s.len() ==> (#[trigger] s[j]).name@ != name,
    ensures
        w_kills(s, name) == 0,
        w_dist(s, name) == 0,
    decreases s.len(),
{
    if s.len() > 0 {
        lemma_w_absent(s.drop_last(), name);
    }
}

/// A name that appears in no per-weapon entry has accumulated nothing.
pub proof fn lemma_pair_absent(s: Seq<(String, u64)>, name: Seq<char>)
    requires
        forall|j: int| 0 <= j < s.len() ==> (#[trigger] s[j]).0@ != name,
    ensures
        pair_count(s, name) == 0,
    decreases s.len(),
{
    if s.len() > 0 {
        lemma_pair_absent(s.drop_last(), name);
    }
}

/// A name that appears in no killer entry has accumulated nothing.
pub proof fn lemma_k_absent(s: Seq<RowKiller>, killer: Seq<char>, weapon: Seq<char>)
    requires
        forall|j: int| 0 <= j < s.len() ==> (#[trigger] s[j]).name@ != killer,
    ensures
        k_kills(s, killer) == 0,
        kw_count(s, killer, weapon) == 0,
    decreases s.len(),
{
    if s.len() > 0 {
        lemma_k_absent(s.drop_last(), killer, weapon);
    }
}

/// One weapon entry's kills never exceed the total.
pub proof fn lemma_w_entry_le_total(s: Seq<RowWeapon>, i: int)
    requires
        0 <= i < s.len(),
    ensures
        s[i].amount_deaths as nat <= w_total(s),
    decreases s.len(),
{
    if i < s.len() - 1 {
        lemma_w_entry_le_total(s.drop_last(), i);
    }
}

/// One killer entry's kills never exceed the total.
pub proof fn lemma_k_entry_le_total(s: Seq<RowKiller>, i: int)
    requires
        0 <= i < s.len(),
    ensures
        s[i].amount_deaths as nat <= k_total(s),
    decreases s.len(),
{
    if i < s.len() - 1 {
        lemma_k_entry_le_total(s.drop_last(), i);
    }
}

/// One per-weapon entry's count never exceeds the killer's total.
pub proof fn lemma_pair_entry_le_total(s: Seq<(String, u64)>, i: int)
    requires
        0 <= i < s.len(),
    ensures
        s[i].1 as nat <= pair_total(s),
    decreases s.len(),
{
    if i < s.len() - 1 {
        lemma_pair_entry_le_total(s.drop_last(), i);
    }
}

// ---------------------------------------------------------------------
// Updating an aggregate by one event
// ---------------------------------------------------------------------

/// Index of the weapon entry named `name`, if any.
pub(crate) fn find_weapon_index(ws: &Vec<RowWeapon>, name: &String) -> (r: Option<usize>)
    ensures
        match r {
            Some(i) => i < ws@.len() && ws@[i as int].name@ == name@,
            None => forall|j: int| 0 <= j < ws@.len() ==> (#[trigger] ws@[j]).name@ != name@,
        },
{
    let mut i: usize = 0;
    while i < ws.len()
        invariant
            i <= ws@.len(),
            forall|j: int| 0 <= j < i ==> (#[trigger] ws@[j]).name@ != name@,
        decreases ws@.len() - i,
    {
        if ws[i].name == *name {
            return Some(i);
        }
        i = i + 1;
    }
    None
}

/// Index of the killer entry named `name`, if any.
pub(crate) fn find_killer_index(ks: &Vec<RowKiller>, name: &String) -> (r: Option<usize>)
    ensures
        match r {
            Some(i) => i < ks@.len() && ks@[i as int].name@ == name@,
            None => forall|j: int| 0 <= j < ks@.len() ==> (#[trigger] ks@[j]).name@ != name@,
        },
{
    let mut i: usize = 0;
    while i < ks.len()
        invariant
            i <= ks@.len(),
            forall|j: int| 0 <= j < i ==> (#[trigger] ks@[j]).name@ != name@,
        decreases ks@.len() - i,
    {
        if ks[i].name == *name {
            return Some(i);
        }
        i = i + 1;
    }
    None
}

/// Index of the per-weapon entry named `name`, if any.
pub(crate) fn find_pair_index(v: &Vec<(String, u64)>, name: &String) -> (r: Option<usize>)
    ensures
        match r {
            Some(i) => i < v@.len() && v@[i as int].0@ == name@,
            None => forall|j: int| 0 <= j < v@.len() ==> (#[trigger] v@[j]).0@ != name@,
        },
{
    let mut i: usize = 0;
    while i < v.len()
        invariant
            i <= v@.len(),
            forall|j: int| 0 <= j < i ==> (#[trigger] v@[j]).0@ != name@,
        decreases v@.len() - i,
    {
        if v[i].0 == *name {
            return Some(i);
        }
        i = i + 1;
    }
    None
}

/// Books one kill with `name` at rounded distance `d` into the weapon
/// table: its kill count grows by one and its distance sum by `d`; every
/// other weapon keeps its sums.
pub fn add_weapon_event(ws: &mut Vec<RowWeapon>, name: &String, d: u64)
    requires
        w_total(old(ws)@) < u64::MAX,
        d <= DIST_LIMIT,
        weapon_names_unique(old(ws)@),
        forall|i: int| 0 <= i < old(ws)@.len() ==> wf_weapon_entry(#[trigger] old(ws)@[i]),
    ensures
        weapon_names_unique(final(ws)@),
        forall|i: int| 0 <= i < final(ws)@.len() ==> wf_weapon_entry(#[trigger] final(ws)@[i]),
        w_total(final(ws)@) == w_total(old(ws)@) + 1,
        w_kills(final(ws)@, name@) == w_kills(old(ws)@, name@) + 1,
        w_dist(final(ws)@, name@) == w_dist(old(ws)@, name@) + d,
        forall|n: Seq<char>|
            n != name@ ==> #[trigger] w_kills(final(ws)@, n) == w_kills(old(ws)@, n) && w_dist(
                final(ws)@,
                n,
            ) == w_dist(old(ws)@, n),
{
    match find_weapon_index(ws, name) {
        Some(i) => {
            proof {
                lemma_w_entry_le_total(ws@, i as int);
            }
            let e = ws.remove(i);
            proof {
                assert forall|n: Seq<char>| true implies #[trigger] w_kills(ws@, n) + (if e.name@
                    == n {
                    e.amount_deaths as nat
                } else {
                    0nat
                }) == w_kills(old(ws)@, n) && w_dist(ws@, n) + (if e.name@ == n {
                    e.distance_hundredths as nat
                } else {
                    0nat
                }) == w_dist(old(ws)@, n) by {
                    lemma_w_remove(old(ws)@, i as int, n);
                }
                lemma_w_remove(old(ws)@, i as int, name@);
                assert forall|j: int| 0 <= j < ws@.len() implies (#[trigger] ws@[j]).name@
                    != name@ by {
                    if j < i {
                        assert(ws@[j] == old(ws)@[j]);
                    } else {
                        assert(ws@[j] == old(ws)@[j + 1]);
                    }
                }
                lemma_w_absent(ws@, name@);
            }
            let e2 = RowWeapon {
                name: e.name,
                amount_deaths: e.amount_deaths + 1,
                distance_hundredths: e.distance_hundredths + d as u128,
            };
            let ghost before = ws@;
            ws.push(e2);
            proof {
                assert(ws@.drop_last() =~= before);
                assert forall|n: Seq<char>| true implies #[trigger] w_kills(ws@, n) == w_kills(
                    before,
                    n,
                ) + (if e2.name@ == n {
                    e2.amount_deaths as nat
                } else {
                    0nat
                }) && w_dist(ws@, n) == w_dist(before, n) + (if e2.name@ == n {
                    e2.distance_hundredths as nat
                } else {
                    0nat
                }) by {
                    assert(ws@.last() == e2);
                }
            }
        },
        None => {
            proof {
                lemma_w_absent(ws@, name@);
            }
            let e2 = RowWeapon {
                name: name.clone(),
                amount_deaths: 1,
                distance_hundredths: d as u128,
            };
            let ghost before = ws@;
            ws.push(e2);
            proof {
                assert(ws@.drop_last() =~= before);
                assert(ws@.last() == e2);
            }
        },
    }
}

/// Books one count of `name` into a killer's per-weapon table.
fn pair_add(v: &mut Vec<(String, u64)>, name: &String)
    requires
        pair_total(old(v)@) < u64::MAX,
        pair_names_unique(old(v)@),
        forall|i: int| 0 <= i < old(v)@.len() ==> (#[trigger] old(v)@[i]).1 >= 1,
    ensures
        pair_names_unique(final(v)@),
        forall|i: int| 0 <= i < final(v)@.len() ==> (#[trigger] final(v)@[i]).1 >= 1,
        pair_total(final(v)@) == pair_total(old(v)@) + 1,
        pair_count(final(v)@, name@) == pair_count(old(v)@, name@) + 1,
        forall|n: Seq<char>|
            n != name@ ==> #[trigger] pair_count(final(v)@, n) == pair_count(old(v)@, n),
{
    match find_pair_index(v, name) {
        Some(i) => {
            proof {
                lemma_pair_entry_le_total(v@, i as int);
            }
            let e = v.remove(i);
            proof {
                assert forall|n: Seq<char>| true implies #[trigger] pair_count(v@, n) + (if e.0@
                    == n {
                    e.1 as nat
                } else {
                    0nat
                }) == pair_count(old(v)@, n) by {
                    lemma_pair_remove(old(v)@, i as int, n);
                }
                lemma_pair_remove(old(v)@, i as int, name@);
                assert forall|j: int| 0 <= j < v@.len() implies (#[trigger] v@[j]).0@ != name@ by {
                    if j < i {
                        assert(v@[j] == old(v)@[j]);
                    } else {
                        assert(v@[j] == old(v)@[j + 1]);
                    }
                }
                lemma_pair_absent(v@, name@);
            }
            let e2 = (e.0, e.1 + 1);
            let ghost before = v@;
            v.push(e2);
            proof {
                assert(v@.drop_last() =~= before);
                assert forall|n: Seq<char>| true implies #[trigger] pair_count(v@, n) == pair_count(
                    before,
                    n,
                ) + (if e2.0@ == n {
                    e2.1 as nat
                } else {
                    0nat
                }) by {
                    assert(v@.last() == e2);
                }
            }
        },
        None => {
            proof {
                lemma_pair_absent(v@, name@);
            }
            let e2 = (name.clone(), 1u64);
            let ghost before = v@;
            v.push(e2);
            proof {
                assert(v@.drop_last() =~= before);
                assert forall|n: Seq<char>| true implies #[trigger] pair_count(v@, n) == pair_count(
                    before,
                    n,
                ) + (if e2.0@ == n {
                    e2.1 as nat
                } else {
                    0nat
                }) by {
                    assert(v@.last() == e2);
                }
            }
        },
    }
}

/// Books one kill by `killer` with `weapon` into the killer table.
pub fn add_killer_event(ks: &mut Vec<RowKiller>, killer: &String, weapon: &String)
    requires
        k_total(old(ks)@) < u64::MAX,
        killer_names_unique(old(ks)@),
        forall|i: int| 0 <= i < old(ks)@.len() ==> wf_killer_entry(#[trigger] old(ks)@[i]),
    ensures
        killer_names_unique(final(ks)@),
        forall|i: int| 0 <= i < final(ks)@.len() ==> wf_killer_entry(#[trigger] final(ks)@[i]),
        k_total(final(ks)@) == k_total(old(ks)@) + 1,
        k_kills(final(ks)@, killer@) == k_kills(old(ks)@, killer@) + 1,
        kw_count(final(ks)@, killer@, weapon@) == kw_count(old(ks)@, killer@, weapon@) + 1,
        forall|kn: Seq<char>, wn: Seq<char>|
            kn != killer@ ==> #[trigger] kw_count(final(ks)@, kn, wn) == kw_count(old(ks)@, kn, wn),
        forall|kn: Seq<char>|
            kn != killer@ ==> #[trigger] k_kills(final(ks)@, kn) == k_kills(old(ks)@, kn),
        forall|wn: Seq<char>|
            wn != weapon@ ==> #[trigger] kw_count(final(ks)@, killer@, wn) == kw_count(
                old(ks)@,
                killer@,
                wn,
            ),
{
    match find_killer_index(ks, killer) {
        Some(i) => {
            proof {
                lemma_k_entry_le_total(ks@, i as int);
            }
            let mut e = ks.remove(i);
            proof {
                lemma_k_remove(old(ks)@, i as int, killer@, weapon@);
                assert forall|kn: Seq<char>| true implies #[trigger] k_kills(ks@, kn) + (if e.name@
                    == kn {
                    e.amount_deaths as nat
                } else {
                    0nat
                }) == k_kills(old(ks)@, kn) by {
                    lemma_k_remove(old(ks)@, i as int, kn, weapon@);
                }
                assert forall|kn: Seq<char>, wn: Seq<char>| true implies #[trigger] kw_count(
                    ks@,
                    kn,
                    wn,
                ) + (if e.name@ == kn {
                    pair_count(e.weapons@, wn)
                } else {
                    0nat
                }) == kw_count(old(ks)@, kn, wn) by {
                    lemma_k_remove(old(ks)@, i as int, kn, wn);
                }
                assert forall|j: int| 0 <= j < ks@.len() implies (#[trigger] ks@[j]).name@
                    != killer@ by {
                    if j < i {
                        assert(ks@[j] == old(ks)@[j]);
                    } else {
                        assert(ks@[j] == old(ks)@[j + 1]);
                    }
                }
            }
            let ghost mid = ks@;
            let ghost e_old = e;
            e.amount_deaths = e.amount_deaths + 1;
            pair_add(&mut e.weapons, weapon);
            let ghost e2 = e;
            let ghost before = ks@;
            ks.push(e);
            proof {
                assert(ks@.drop_last() =~= mid);
                assert(ks@.last() == e2);
                assert(k_total(ks@) == k_total(mid) + e2.amount_deaths as nat);
                assert forall|kn: Seq<char>, wn: Seq<char>| true implies #[trigger] kw_count(
                    ks@,
                    kn,
                    wn,
                ) == kw_count(mid, kn, wn) + (if e2.name@ == kn {
                    pair_count(e2.weapons@, wn)
                } else {
                    0nat
                }) by {
                    assert(ks@.last() == e2);
                }
                assert forall|kn: Seq<char>| true implies #[trigger] k_kills(ks@, kn) == k_kills(
                    mid,
                    kn,
                ) + (if e2.name@ == kn {
                    e2.amount_deaths as nat
                } else {
                    0nat
                }) by {
                    assert(ks@.last() == e2);
                }
                assert forall|j: int| 0 <= j < mid.len() implies wf_killer_entry(
                    #[trigger] mid[j],
                ) by {
                    if j < i {
                        assert(mid[j] == old(ks)@[j]);
                    } else {
                        assert(mid[j] == old(ks)@[j + 1]);
                    }
                }
                assert(wf_killer_entry(e2));
                assert forall|j: int| 0 <= j < ks@.len() implies wf_killer_entry(
                    #[trigger] ks@[j],
                ) by {
                    if j < ks@.len() - 1 {
                        assert(ks@[j] == mid[j]);
                    } else {
                        assert(ks@[j] == e2);
                    }
                }
                lemma_k_absent(mid, killer@, weapon@);
                assert forall|kn: Seq<char>, wn: Seq<char>| kn != killer@ implies #[trigger
                ] kw_count(ks@, kn, wn) == kw_count(old(ks)@, kn, wn) by {
                    lemma_k_remove(old(ks)@, i as int, kn, wn);
                }
                assert forall|wn: Seq<char>| wn != weapon@ implies #[trigger] kw_count(
                    ks@,
                    killer@,
                    wn,
                ) == kw_count(old(ks)@, killer@, wn) by {
                    lemma_k_remove(old(ks)@, i as int, killer@, wn);
                    lemma_k_absent(mid, killer@, wn);
                }
            }
        },
        None => {
            proof {
                lemma_k_absent(ks@, killer@, weapon@);
            }
            let mut pairs: Vec<(String, u64)> = Vec::new();
            pairs.push((weapon.clone(), 1u64));
            proof {
                assert(pairs@.drop_last() =~= Seq::<(String, u64)>::empty());
            }
            let e2 = RowKiller { name: killer.clone(), amount_deaths: 1, weapons: pairs };
            let ghost before = ks@;
            ks.push(e2);
            proof {
                assert(ks@.drop_last() =~= before);
                assert(ks@.last() == e2);
                assert(k_total(ks@) == k_total(before) + e2.amount_deaths as nat);
                assert forall|kn: Seq<char>, wn: Seq<char>| true implies #[trigger] kw_count(
                    ks@,
                    kn,
                    wn,
                ) == kw_count(before, kn, wn) + (if e2.name@ == kn {
                    pair_count(e2.weapons@, wn)
                } else {
                    0nat
                }) by {
                    assert(ks@.last() == e2);
                }
                assert forall|kn: Seq<char>| true implies #[trigger] k_kills(ks@, kn) == k_kills(
                    before,
                    kn,
                ) + (if e2.name@ == kn {
                    e2.amount_deaths as nat
                } else {
                    0nat
                }) by {
                    assert(ks@.last() == e2);
                }
                assert(e2.weapons@.len() == 1);
                assert(e2.weapons@.last().0@ == weapon@);
                assert(pair_count(e2.weapons@, weapon@) == pair_count(
                    e2.weapons@.drop_last(),
                    weapon@,
                ) + 1);
                assert(pair_count(e2.weapons@.drop_last(), weapon@) == 0) by {
                    assert(e2.weapons@.drop_last() =~= Seq::<(String, u64)>::empty());
                }
                assert(pair_total(e2.weapons@) == pair_total(e2.weapons@.drop_last())
                    + e2.weapons@.last().1 as nat);
                assert(e2.weapons@.drop_last() =~= Seq::<(String, u64)>::empty());
                assert(pair_total(e2.weapons@) == 1);
                assert(wf_killer_entry(e2));
                assert forall|j: int| 0 <= j < ks@.len() implies wf_killer_entry(
                    #[trigger] ks@[j],
                ) by {
                    if j < ks@.len() - 1 {
                        assert(ks@[j] == before[j]);
                    } else {
                        assert(ks@[j] == e2);
                    }
                }
                assert forall|kn: Seq<char>, wn: Seq<char>| kn != killer@ implies #[trigger
                ] kw_count(ks@, kn, wn) == kw_count(old(ks)@, kn, wn) by {}
                assert forall|wn: Seq<char>| wn != weapon@ implies #[trigger] kw_count(
                    ks@,
                    killer@,
                    wn,
                ) == kw_count(old(ks)@, killer@, wn) by {
                    lemma_k_absent(old(ks)@, killer@, wn);
                    lemma_pair_absent(e2.weapons@.drop_last(), wn);
                }
            }
        },
    }
}

/// An aggregate with nothing in it.
pub fn new_aggregate() -> (r: Aggregate)
    ensures
        wf_aggregate(r),
        r.record_count == 0,
        r.weapons@.len() == 0,
        r.killers@.len() == 0,
{
    Aggregate { record_count: 0, weapons: Vec::new(), killers: Vec::new() }
}

/// Books one event: the row count, the event's weapon and its killer each
/// grow by exactly this event's contribution.
pub fn apply_event(agg: &mut Aggregate, ev: &KillEvent)
    requires
        wf_aggregate(*old(agg)),
        old(agg).record_count < u64::MAX,
        ev.distance_hundredths <= DIST_LIMIT,
    ensures
        wf_aggregate(*final(agg)),
        final(agg).record_count == old(agg).record_count + 1,
        w_kills(final(agg).weapons@, ev.weapon@) == w_kills(old(agg).weapons@, ev.weapon@) + 1,
        w_dist(final(agg).weapons@, ev.weapon@) == w_dist(old(agg).weapons@, ev.weapon@)
            + ev.distance_hundredths,
        forall|n: Seq<char>|
            n != ev.weapon@ ==> #[trigger] w_kills(final(agg).weapons@, n) == w_kills(
                old(agg).weapons@,
                n,
            ) && w_dist(final(agg).weapons@, n) == w_dist(old(agg).weapons@, n),
        k_kills(final(agg).killers@, ev.killer@) == k_kills(old(agg).killers@, ev.killer@) + 1,
        kw_count(final(agg).killers@, ev.killer@, ev.weapon@) == kw_count(
            old(agg).killers@,
            ev.killer@,
            ev.weapon@,
        ) + 1,
        forall|kn: Seq<char>, wn: Seq<char>|
            kn != ev.killer@ ==> #[trigger] kw_count(final(agg).killers@, kn, wn) == kw_count(
                old(agg).killers@,
                kn,
                wn,
            ),
        forall|kn: Seq<char>|
            kn != ev.killer@ ==> #[trigger] k_kills(final(agg).killers@, kn) == k_kills(
                old(agg).killers@,
                kn,
            ),
        forall|wn: Seq<char>|
            wn != ev.weapon@ ==> #[trigger] kw_count(final(agg).killers@, ev.killer@, wn)
                == kw_count(old(agg).killers@, ev.killer@, wn),
{
    add_weapon_event(&mut agg.weapons, &ev.weapon, ev.distance_hundredths);
    add_killer_event(&mut agg.killers, &ev.killer, &ev.weapon);
    agg.record_count = agg.record_count + 1;
}

// ---------------------------------------------------------------------
// Aggregating the rows of one file
// ---------------------------------------------------------------------

/// Every row holds its required fields.
pub open spec fn rows_ok(rows: Seq<Seq<Seq<char>>>) -> bool {
    forall|i: int| 0 <= i < rows.len() ==> row_ok(#[trigger] rows[i])
}

/// Kills the rows give to weapon `name`.
pub open spec fn rw_kills(rows: Seq<Seq<Seq<char>>>, name: Seq<char>) -> nat
    decreases rows.len(),
{
    if rows.len() == 0 {
        0
    } else {
        rw_kills(rows.drop_last(), name) + if row_ok(rows.last()) && rows.last()[0] == name {
            1nat
        } else {
            0nat
        }
    }
}

/// Distance sum the rows give to weapon `name`.
pub open spec fn rw_dist(rows: Seq<Seq<Seq<char>>>, name: Seq<char>) -> nat
    decreases rows.len(),
{
    if rows.len() == 0 {
        0
    } else {
        rw_dist(rows.drop_last(), name) + if row_ok(rows.last()) && rows.last()[0] == name {
            spec_row_distance(rows.last())
        } else {
            0nat
        }
    }
}

/// Kills the rows give to killer `name`.
pub open spec fn rk_kills(rows: Seq<Seq<Seq<char>>>, name: Seq<char>) -> nat
    decreases rows.len(),
{
    if rows.len() == 0 {
        0
    } else {
        rk_kills(rows.drop_last(), name) + if row_ok(rows.last()) && rows.last()[1] == name {
            1nat
        } else {
            0nat
        }
    }
}

/// Kills the rows give to killer `killer` with weapon `weapon`.
pub open spec fn rkw_count(rows: Seq<Seq<Seq<char>>>, killer: Seq<char>, weapon: Seq<char>) -> nat
    decreases rows.len(),
{
    if rows.len() == 0 {
        0
    } else {
        rkw_count(rows.drop_last(), killer, weapon) + if row_ok(rows.last()) && rows.last()[1]
            == killer && rows.last()[0] == weapon {
            1nat
        } else {
            0nat
        }
    }
}

/// Aggregates the data rows of one file. Succeeds exactly when every row
/// holds its required fields, and then returns the aggregate whose sums
/// are the rows' sums; fails with the parse error otherwise.
pub fn aggregate_rows(rows: &Vec<Vec<String>>) -> (r: Result<Aggregate, PipelineError>)
    ensures
        r is Ok <==> rows_ok(rows.deep_view()),
        r matches Ok(a) ==> {
            &&& wf_aggregate(a)
            &&& a.record_count == rows@.len()
            &&& forall|n: Seq<char>|
                #[trigger] w_kills(a.weapons@, n) == rw_kills(rows.deep_view(), n)
            &&& forall|n: Seq<char>| #[trigger] w_dist(a.weapons@, n) == rw_dist(rows.deep_view(), n)
            &&& forall|n: Seq<char>|
                #[trigger] k_kills(a.killers@, n) == rk_kills(rows.deep_view(), n)
            &&& forall|kn: Seq<char>, wn: Seq<char>|
                #[trigger] kw_count(a.killers@, kn, wn) == rkw_count(rows.deep_view(), kn, wn)
        },
        r matches Err(e) ==> e == PipelineError::Parse,
{
    let ghost deep = rows.deep_view();
    let mut agg = new_aggregate();
    let mut i: usize = 0;
    proof {
        assert(deep.take(0) =~= Seq::<Seq<Seq<char>>>::empty());
    }
    while i < rows.len()
        invariant
            i <= rows@.len(),
            deep == rows.deep_view(),
            deep.len() == rows@.len(),
            wf_aggregate(agg),
            agg.record_count == i,
            forall|j: int| 0 <= j < i ==> row_ok(#[trigger] deep[j]),
            forall|n: Seq<char>| #[trigger] w_kills(agg.weapons@, n) == rw_kills(deep.take(i as int), n),
            forall|n: Seq<char>| #[trigger] w_dist(agg.weapons@, n) == rw_dist(deep.take(i as int), n),
            forall|n: Seq<char>| #[trigger] k_kills(agg.killers@, n) == rk_kills(deep.take(i as int), n),
            forall|kn: Seq<char>, wn: Seq<char>|
                #[trigger] kw_count(agg.killers@, kn, wn) == rkw_count(deep.take(i as int), kn, wn),
        decreases rows@.len() - i,
    {
        let row = &rows[i];
        proof {
            assert(deep[i as int] == rows@[i as int].deep_view());
        }
        let ev = match extract_event(row) {
            Ok(ev) => ev,
            Err(e) => {
                proof {
                    assert(!row_ok(deep[i as int]));
                }
                return Err(e);
            },
        };
        let ghost pre = agg;
        apply_event(&mut agg, &ev);
        i = i + 1;
        proof {
            let tk = deep.take(i as int);
            assert(tk.drop_last() =~= deep.take(i - 1));
            assert(tk.last() == deep[i - 1]);
            assert forall|n: Seq<char>| true implies #[trigger] w_kills(agg.weapons@, n) == rw_kills(
                tk,
                n,
            ) by {
                if n != ev.weapon@ {
                    assert(w_kills(agg.weapons@, n) == w_kills(pre.weapons@, n));
                }
            }
            assert forall|n: Seq<char>| true implies #[trigger] w_dist(agg.weapons@, n) == rw_dist(
                tk,
                n,
            ) by {
                if n != ev.weapon@ {
                    assert(w_kills(agg.weapons@, n) == w_kills(pre.weapons@, n));
                    assert(w_dist(agg.weapons@, n) == w_dist(pre.weapons@, n));
                }
            }
            assert forall|n: Seq<char>| true implies #[trigger] k_kills(agg.killers@, n) == rk_kills(
                tk,
                n,
            ) by {
                if n != ev.killer@ {
                    assert(k_kills(agg.killers@, n) == k_kills(pre.killers@, n));
                }
            }
            assert forall|kn: Seq<char>, wn: Seq<char>| true implies #[trigger] kw_count(
                agg.killers@,
                kn,
                wn,
            ) == rkw_count(tk, kn, wn) by {
                if kn != ev.killer@ {
                    assert(kw_count(agg.killers@, kn, wn) == kw_count(pre.killers@, kn, wn));
                } else if wn != ev.weapon@ {
                    assert(kw_count(agg.killers@, kn, wn) == kw_count(pre.killers@, kn, wn));
                }
            }
        }
    }
    proof {
        assert(deep.take(rows@.len() as int) =~= deep);
    }
    Ok(agg)
}

} // verus!
