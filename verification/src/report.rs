//! The final report.
//!
//! The report carries a fixed identifier, the top-ten weapon list and the
//! top-ten killer list, reshaped into the keyed entries the JSON document
//! is written from. It is produced once at the end of the pipeline and
//! read-only afterwards; serialising it to text is the caller's business.

use crate::aggregate::{wf_aggregate, Aggregate};
use crate::ranking::{
    calculate_top_killers, calculate_top_weapons, killer_views, pairs_view, spec_top_killers,
    spec_top_weapons, take_top, weapon_views, Killer, Weapon,
};
use vstd::prelude::*;

verus! {

/// The identifier stamped into every report.
pub const REPORT_ID: u32 = 94455;

/// The reported share and average distance of one weapon, in hundredths.
#[derive(Debug, PartialEq, Eq, Clone)]
pub struct WeaponStats {
    pub deaths_percentage_hundredths: u64,
    pub average_distance_hundredths: u64,
}

/// The reported kills of one killer and its weapons' usage shares, in
/// hundredths of a percent.
#[derive(Debug, PartialEq, Eq, Clone)]
pub struct KillerStats {
    pub deaths: u64,
    pub weapons_percentage: Vec<(String, u64)>,
}

/// The two ranked lists, as the ranking engine hands them over.
#[derive(Debug, PartialEq, Eq, Clone)]
pub struct Top10Results {
    pub weapons: Vec<Weapon>,
    pub killers: Vec<Killer>,
}

/// Runs the ranking engine on a merged aggregate: both reported lists,
/// each pinned to the sorted ranking of the aggregate.
pub fn calculate_top10(g: &Aggregate) -> (r: Top10Results)
    requires
        wf_aggregate(*g),
    ensures
        weapon_views(r.weapons@) == spec_top_weapons(*g),
        killer_views(r.killers@) == spec_top_killers(*g),
        r.weapons@.len() == take_top(g.weapons@.len() as int),
        r.killers@.len() == take_top(g.killers@.len() as int),
{
    let weapons = calculate_top_weapons(g);
    let killers = calculate_top_killers(g);
    Top10Results { weapons, killers }
}

/// The report: identifier, killers keyed by name, weapons keyed by name,
/// both in rank order.
#[derive(Debug, PartialEq, Eq, Clone)]
pub struct OutputJson {
    pub padron: u32,
    pub top_killers: Vec<(String, KillerStats)>,
    pub top_weapons: Vec<(String, WeaponStats)>,
}

/// Builds the report from the two ranked lists, keeping their order and
/// their values entry for entry.
pub fn create_output_json(top_weapons: &Vec<Weapon>, top_killers: &Vec<Killer>) -> (r: OutputJson)
    ensures
        r.padron == REPORT_ID,
        r.top_weapons@.len() == top_weapons@.len(),
        forall|i: int|
            0 <= i < top_weapons@.len() ==> {
                &&& (#[trigger] r.top_weapons@[i]).0@ == weapon_views(top_weapons@)[i].name
                &&& r.top_weapons@[i].1.deaths_percentage_hundredths as nat == weapon_views(
                    top_weapons@,
                )[i].pct
                &&& r.top_weapons@[i].1.average_distance_hundredths as nat == weapon_views(
                    top_weapons@,
                )[i].avg
            },
        r.top_killers@.len() == top_killers@.len(),
        forall|i: int|
            0 <= i < top_killers@.len() ==> {
                &&& (#[trigger] r.top_killers@[i]).0@ == killer_views(top_killers@)[i].name
                &&& r.top_killers@[i].1.deaths as nat == killer_views(top_killers@)[i].deaths
                &&& pairs_view(r.top_killers@[i].1.weapons_percentage@) == killer_views(
                    top_killers@,
                )[i].weapons
            },
{
    let mut killers: Vec<(String, KillerStats)> = Vec::new();
    let mut i: usize = 0;
    while i < top_killers.len()
        invariant
            i <= top_killers@.len(),
            killers@.len() == i,
            forall|j: int|
                0 <= j < i ==> {
                    &&& (#[trigger] killers@[j]).0@ == killer_views(top_killers@)[j].name
                    &&& killers@[j].1.deaths as nat == killer_views(top_killers@)[j].deaths
                    &&& pairs_view(killers@[j].1.weapons_percentage@) == killer_views(
                        top_killers@,
                    )[j].weapons
                },
        decreases top_killers@.len() - i,
    {
        let k = &top_killers[i];
        let mut shares: Vec<(String, u64)> = Vec::new();
        let mut j: usize = 0;
        while j < k.weapons.len()
            invariant
                j <= k.weapons@.len(),
                shares@.len() == j,
                forall|t: int| 0 <= t < j ==> #[trigger] pairs_view(shares@)[t] == pairs_view(
                    k.weapons@,
                )[t],
            decreases k.weapons@.len() - j,
        {
            let ghost pre = shares@;
            let cell = (k.weapons[j].0.clone(), k.weapons[j].1);
            let ghost cv = (cell.0@, cell.1 as nat);
            shares.push(cell);
            j = j + 1;
            proof {
                assert forall|t: int| 0 <= t < j implies #[trigger] pairs_view(shares@)[t]
                    == pairs_view(k.weapons@)[t] by {
                    if t < j - 1 {
                        assert(shares@[t] == pre[t]);
                        assert(pairs_view(shares@)[t] == pairs_view(pre)[t]);
                    } else {
                        assert(pairs_view(shares@)[t] == cv);
                        assert(pairs_view(k.weapons@)[t] == cv);
                    }
                }
            }
        }
        proof {
            assert(pairs_view(shares@) =~= pairs_view(k.weapons@));
        }
        let ghost pre = killers@;
        killers.push((k.name.clone(), KillerStats { deaths: k.deaths, weapons_percentage: shares }));
        i = i + 1;
        proof {
            assert forall|j2: int| 0 <= j2 < i implies {
                &&& (#[trigger] killers@[j2]).0@ == killer_views(top_killers@)[j2].name
                &&& killers@[j2].1.deaths as nat == killer_views(top_killers@)[j2].deaths
                &&& pairs_view(killers@[j2].1.weapons_percentage@) == killer_views(
                    top_killers@,
                )[j2].weapons
            } by {
                if j2 < i - 1 {
                    assert(killers@[j2] == pre[j2]);
                    assert(pairs_view(killers@[j2].1.weapons_percentage@) == pairs_view(
                        pre[j2].1.weapons_percentage@,
                    ));
                }
            }
        }
    }
    let mut weapons: Vec<(String, WeaponStats)> = Vec::new();
    let mut w: usize = 0;
    while w < top_weapons.len()
        invariant
            w <= top_weapons@.len(),
            weapons@.len() == w,
            forall|j: int|
                0 <= j < w ==> {
                    &&& (#[trigger] weapons@[j]).0@ == weapon_views(top_weapons@)[j].name
                    &&& weapons@[j].1.deaths_percentage_hundredths as nat == weapon_views(
                        top_weapons@,
                    )[j].pct
                    &&& weapons@[j].1.average_distance_hundredths as nat == weapon_views(
                        top_weapons@,
                    )[j].avg
                },
        decreases top_weapons@.len() - w,
    {
        let entry = &top_weapons[w];
        let ghost pre = weapons@;
        weapons.push(
            (
                entry.name.clone(),
                WeaponStats {
                    deaths_percentage_hundredths: entry.deaths_percentage_hundredths,
                    average_distance_hundredths: entry.average_distance_hundredths,
                },
            ),
        );
        w = w + 1;
        proof {
            assert forall|j: int| 0 <= j < w implies {
                &&& (#[trigger] weapons@[j]).0@ == weapon_views(top_weapons@)[j].name
                &&& weapons@[j].1.deaths_percentage_hundredths as nat == weapon_views(
                    top_weapons@,
                )[j].pct
                &&& weapons@[j].1.average_distance_hundredths as nat == weapon_views(
                    top_weapons@,
                )[j].avg
            } by {
                if j < w - 1 {
                    assert(weapons@[j] == pre[j]);
                }
            }
        }
    }
    OutputJson { padron: REPORT_ID, top_killers: killers, top_weapons: weapons }
}

} // verus!
