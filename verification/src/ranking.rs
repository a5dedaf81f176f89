//! Ranking the merged statistics.
//!
//! From a global aggregate the engine derives the ranked weapon list and
//! the ranked killer list: sorted by kill count descending, ties broken by
//! name ascending (exact, case-sensitive), truncated to the top ten; each
//! killer carries its three most-used weapons with usage shares. All
//! percentages are rounded to two decimals and held in hundredths of a
//! percent. The contracts pin each result to a sort (`Seq::sort_by`) under
//! a total order, so ranking is a function of the aggregate alone: no
//! container iteration order can leak into the output.

use crate::aggregate::{
    lemma_w_entry_le_total, w_total, wf_aggregate, Aggregate, RowKiller, RowWeapon,
};
use crate::text::{
    lemma_lex_asymmetric, lemma_lex_connected, lemma_lex_transitive, lex_lt, str_lt,
};
use vstd::prelude::*;
use vstd::relations::{sorted_by, total_ordering};
use vstd::seq_lib::lemma_sorted_unique;

verus! {

broadcast use vstd::seq_lib::group_to_multiset_ensures, vstd::multiset::group_multiset_axioms;

/// One ranked weapon: kills, share of all deaths, and average kill
/// distance, the shares and distances in hundredths.
#[derive(Debug, PartialEq, Eq, Clone)]
pub struct Weapon {
    pub name: String,
    pub amount_deaths: u64,
    pub deaths_percentage_hundredths: u64,
    pub average_distance_hundredths: u64,
}

/// One ranked killer: kills and the most-used weapons with their usage
/// share in hundredths of a percent, at most three.
#[derive(Debug, PartialEq, Eq, Clone)]
pub struct Killer {
    pub name: String,
    pub deaths: u64,
    pub weapons: Vec<(String, u64)>,
}

// ---------------------------------------------------------------------
// Mathematical views of the ranked entries
// ---------------------------------------------------------------------

/// Value of a ranked weapon.
#[verifier::ext_equal]
pub struct WeaponView {
    pub name: Seq<char>,
    pub deaths: nat,
    pub pct: nat,
    pub avg: nat,
}

/// Value of a ranked killer.
#[verifier::ext_equal]
pub struct KillerView {
    pub name: Seq<char>,
    pub deaths: nat,
    pub weapons: Seq<(Seq<char>, nat)>,
}

/// The view of a ranked weapon entry.
pub open spec fn weapon_view(w: Weapon) -> WeaponView {
    WeaponView {
        name: w.name@,
        deaths: w.amount_deaths as nat,
        pct: w.deaths_percentage_hundredths as nat,
        avg: w.average_distance_hundredths as nat,
    }
}

/// The view of one killer's per-weapon list.
pub open spec fn pairs_view(s: Seq<(String, u64)>) -> Seq<(Seq<char>, nat)> {
    s.map_values(|p: (String, u64)| (p.0@, p.1 as nat))
}

/// The view of a ranked killer entry.
pub open spec fn killer_view(k: Killer) -> KillerView {
    KillerView { name: k.name@, deaths: k.deaths as nat, weapons: pairs_view(k.weapons@) }
}

// ---------------------------------------------------------------------
// Rounding to two decimals
// ---------------------------------------------------------------------

/// `a / b` rounded half up.
pub open spec fn rounded_div(a: nat, b: nat) -> nat
    recommends
        b > 0,
{
    (2 * a + b) / (2 * b)
}

/// The rounded quotient of bounded values, executable.
fn rounded_div_exec(a: u128, b: u128) -> (r: u128)
    requires
        b >= 1,
        2 * (a as int) + b <= u128::MAX as int,
        2 * (b as int) <= u128::MAX as int,
    ensures
        r == rounded_div(a as nat, b as nat),
{
    (2 * a + b) / (2 * b)
}

/// A rounded share of a whole never passes the whole's share.
proof fn lemma_rounded_div_le(a: nat, b: nat, m: nat)
    requires
        b > 0,
        a <= b * m,
    ensures
        rounded_div(a, b) <= m,
{
    assert((2 * a + b) / (2 * b) <= m) by (nonlinear_arith)
        requires
            b > 0,
            a <= b * m,
    ;
}

// ---------------------------------------------------------------------
// The ranking orders
// ---------------------------------------------------------------------

/// Weapon order: kills descending, then name ascending; the remaining
/// fields close the order so that it is total.
pub open spec fn weapon_leq(a: WeaponView, b: WeaponView) -> bool {
    if a.deaths != b.deaths {
        a.deaths > b.deaths
    } else if a.name != b.name {
        lex_lt(a.name, b.name)
    } else if a.pct != b.pct {
        a.pct < b.pct
    } else {
        a.avg <= b.avg
    }
}

/// The weapon order as a function value.
pub open spec fn weapon_leq_fn() -> spec_fn(WeaponView, WeaponView) -> bool {
    |a: WeaponView, b: WeaponView| weapon_leq(a, b)
}

/// Per-weapon usage order within a killer: count descending, then name
/// ascending.
pub open spec fn pair_rank_leq(a: (Seq<char>, nat), b: (Seq<char>, nat)) -> bool {
    if a.1 != b.1 {
        a.1 > b.1
    } else if a.0 != b.0 {
        lex_lt(a.0, b.0)
    } else {
        true
    }
}

/// The per-weapon usage order as a function value.
pub open spec fn pair_rank_leq_fn() -> spec_fn((Seq<char>, nat), (Seq<char>, nat)) -> bool {
    |a: (Seq<char>, nat), b: (Seq<char>, nat)| pair_rank_leq(a, b)
}

/// Strict part of the per-weapon order.
pub open spec fn pair_lt(a: (Seq<char>, nat), b: (Seq<char>, nat)) -> bool {
    pair_rank_leq(a, b) && a != b
}

/// Lexicographic order on per-weapon lists, closing the killer order.
pub open spec fn pair_seq_lt(a: Seq<(Seq<char>, nat)>, b: Seq<(Seq<char>, nat)>) -> bool
    decreases a.len(),
{
    if b.len() == 0 {
        false
    } else if a.len() == 0 {
        true
    } else if pair_lt(a[0], b[0]) {
        true
    } else if a[0] == b[0] {
        pair_seq_lt(a.drop_first(), b.drop_first())
    } else {
        false
    }
}

/// Killer order: kills descending, then name ascending; the per-weapon
/// lists close the order so that it is total.
pub open spec fn killer_leq(a: KillerView, b: KillerView) -> bool {
    if a.deaths != b.deaths {
        a.deaths > b.deaths
    } else if a.name != b.name {
        lex_lt(a.name, b.name)
    } else if a.weapons != b.weapons {
        pair_seq_lt(a.weapons, b.weapons)
    } else {
        true
    }
}

/// The killer order as a function value.
pub open spec fn killer_leq_fn() -> spec_fn(KillerView, KillerView) -> bool {
    |a: KillerView, b: KillerView| killer_leq(a, b)
}

// ---------------------------------------------------------------------
// The orders are total
// ---------------------------------------------------------------------

/// The weapon order is a total order.
pub proof fn lemma_weapon_leq_total()
    ensures
        total_ordering(weapon_leq_fn()),
        forall|a: WeaponView, b: WeaponView| #[trigger] weapon_leq(a, b) || weapon_leq(b, a),
        forall|a: WeaponView, b: WeaponView, c: WeaponView|
            #[trigger] weapon_leq(a, b) && #[trigger] weapon_leq(b, c) ==> weapon_leq(a, c),
{
    let leq = weapon_leq_fn();
    assert forall|a: WeaponView, b: WeaponView| #[trigger] weapon_leq(a, b) || weapon_leq(
        b,
        a,
    ) by {
        if a.name != b.name {
            lemma_lex_connected(a.name, b.name);
        }
    }
    assert forall|a: WeaponView, b: WeaponView| weapon_leq(a, b) && weapon_leq(b, a) implies a
        == b by {
        lemma_lex_asymmetric(a.name, b.name);
        assert(a =~= b);
    }
    assert forall|a: WeaponView, b: WeaponView, c: WeaponView|
        #[trigger] weapon_leq(a, b) && #[trigger] weapon_leq(b, c) implies weapon_leq(a, c) by {
        if a.deaths == b.deaths && b.deaths == c.deaths && a.name != b.name && b.name != c.name
            && a.name != c.name {
            lemma_lex_transitive(a.name, b.name, c.name);
        }
        if a.deaths == b.deaths && b.deaths == c.deaths && a.name != b.name && b.name != c.name
            && a.name == c.name {
            lemma_lex_asymmetric(a.name, b.name);
        }
    }
    assert(reflexive_weapon());
    assert forall|x: WeaponView| #[trigger] leq(x, x) by {
        assert(weapon_leq(x, x));
    }
    assert forall|x: WeaponView, y: WeaponView| #[trigger] leq(x, y) && #[trigger] leq(
        y,
        x,
    ) implies x == y by {
        assert(weapon_leq(x, y) && weapon_leq(y, x));
    }
    assert forall|x: WeaponView, y: WeaponView, z: WeaponView|
        #[trigger] leq(x, y) && #[trigger] leq(y, z) implies leq(x, z) by {
        assert(weapon_leq(x, y) && weapon_leq(y, z));
        assert(weapon_leq(x, z));
    }
    assert forall|x: WeaponView, y: WeaponView| #[trigger] leq(x, y) || #[trigger] leq(y, x) by {
        assert(weapon_leq(x, y) || weapon_leq(y, x));
    }
}

/// Reflexivity of the weapon order, spelled out.
spec fn reflexive_weapon() -> bool {
    forall|x: WeaponView| #[trigger] weapon_leq(x, x)
}

/// The per-weapon usage order is a total order.
pub proof fn lemma_pair_rank_leq_total()
    ensures
        total_ordering(pair_rank_leq_fn()),
        forall|a: (Seq<char>, nat), b: (Seq<char>, nat)|
            #[trigger] pair_rank_leq(a, b) || pair_rank_leq(b, a),
        forall|a: (Seq<char>, nat), b: (Seq<char>, nat), c: (Seq<char>, nat)|
            #[trigger] pair_rank_leq(a, b) && #[trigger] pair_rank_leq(b, c) ==> pair_rank_leq(
                a,
                c,
            ),
        forall|a: (Seq<char>, nat), b: (Seq<char>, nat)|
            #[trigger] pair_rank_leq(a, b) && #[trigger] pair_rank_leq(b, a) ==> a == b,
{
    let leq = pair_rank_leq_fn();
    assert forall|a: (Seq<char>, nat), b: (Seq<char>, nat)| #[trigger] pair_rank_leq(a, b)
        || pair_rank_leq(b, a) by {
        if a.0 != b.0 {
            lemma_lex_connected(a.0, b.0);
        }
    }
    assert forall|a: (Seq<char>, nat), b: (Seq<char>, nat)|
        #[trigger] pair_rank_leq(a, b) && #[trigger] pair_rank_leq(b, a) implies a == b by {
        lemma_lex_asymmetric(a.0, b.0);
    }
    assert forall|a: (Seq<char>, nat), b: (Seq<char>, nat), c: (Seq<char>, nat)|
        #[trigger] pair_rank_leq(a, b) && #[trigger] pair_rank_leq(b, c) implies pair_rank_leq(
        a,
        c,
    ) by {
        if a.1 == b.1 && b.1 == c.1 && a.0 != b.0 && b.0 != c.0 && a.0 != c.0 {
            lemma_lex_transitive(a.0, b.0, c.0);
        }
        if a.1 == b.1 && b.1 == c.1 && a.0 != b.0 && b.0 != c.0 && a.0 == c.0 {
            lemma_lex_asymmetric(a.0, b.0);
        }
    }
    assert forall|x: (Seq<char>, nat)| #[trigger] leq(x, x) by {
        assert(pair_rank_leq(x, x));
    }
    assert forall|x: (Seq<char>, nat), y: (Seq<char>, nat)| #[trigger] leq(x, y) && #[trigger] leq(
        y,
        x,
    ) implies x == y by {
        assert(pair_rank_leq(x, y) && pair_rank_leq(y, x));
    }
    assert forall|x: (Seq<char>, nat), y: (Seq<char>, nat), z: (Seq<char>, nat)|
        #[trigger] leq(x, y) && #[trigger] leq(y, z) implies leq(x, z) by {
        assert(pair_rank_leq(x, y) && pair_rank_leq(y, z));
        assert(pair_rank_leq(x, z));
    }
    assert forall|x: (Seq<char>, nat), y: (Seq<char>, nat)| #[trigger] leq(x, y) || #[trigger] leq(
        y,
        x,
    ) by {
        assert(pair_rank_leq(x, y) || pair_rank_leq(y, x));
    }
}

/// The list order never holds both ways.
proof fn lemma_pair_seq_asymmetric(a: Seq<(Seq<char>, nat)>, b: Seq<(Seq<char>, nat)>)
    ensures
        !(pair_seq_lt(a, b) && pair_seq_lt(b, a)),
    decreases a.len(),
{
    lemma_pair_rank_leq_total();
    if a.len() > 0 && b.len() > 0 && a[0] == b[0] {
        lemma_pair_seq_asymmetric(a.drop_first(), b.drop_first());
    }
}

/// Distinct lists are ordered one way or the other.
proof fn lemma_pair_seq_connected(a: Seq<(Seq<char>, nat)>, b: Seq<(Seq<char>, nat)>)
    ensures
        pair_seq_lt(a, b) || pair_seq_lt(b, a) || a == b,
    decreases a.len(),
{
    lemma_pair_rank_leq_total();
    if a.len() == 0 && b.len() == 0 {
        assert(a =~= b);
    }
    if a.len() > 0 && b.len() > 0 {
        if a[0] == b[0] {
            lemma_pair_seq_connected(a.drop_first(), b.drop_first());
            if a.drop_first() == b.drop_first() {
                assert(a.len() == b.len()) by {
                    assert(a.drop_first().len() == b.drop_first().len());
                }
                assert forall|i: int| 0 <= i < a.len() implies a[i] == b[i] by {
                    if i > 0 {
                        assert(a[i] == a.drop_first()[i - 1]);
                        assert(b[i] == b.drop_first()[i - 1]);
                    }
                }
                assert(a =~= b);
            }
        } else {
            assert(pair_lt(a[0], b[0]) || pair_lt(b[0], a[0]));
        }
    }
}

/// The list order is transitive.
proof fn lemma_pair_seq_transitive(
    a: Seq<(Seq<char>, nat)>,
    b: Seq<(Seq<char>, nat)>,
    c: Seq<(Seq<char>, nat)>,
)
    requires
        pair_seq_lt(a, b),
        pair_seq_lt(b, c),
    ensures
        pair_seq_lt(a, c),
    decreases a.len(),
{
    lemma_pair_rank_leq_total();
    if a.len() > 0 && b.len() > 0 && c.len() > 0 {
        if a[0] == b[0] && b[0] == c[0] {
            lemma_pair_seq_transitive(a.drop_first(), b.drop_first(), c.drop_first());
        }
    }
}

/// The killer order is a total order.
pub proof fn lemma_killer_leq_total()
    ensures
        total_ordering(killer_leq_fn()),
        forall|a: KillerView, b: KillerView| #[trigger] killer_leq(a, b) || killer_leq(b, a),
        forall|a: KillerView, b: KillerView, c: KillerView|
            #[trigger] killer_leq(a, b) && #[trigger] killer_leq(b, c) ==> killer_leq(a, c),
{
    let leq = killer_leq_fn();
    assert forall|a: KillerView, b: KillerView| #[trigger] killer_leq(a, b) || killer_leq(
        b,
        a,
    ) by {
        if a.name != b.name {
            lemma_lex_connected(a.name, b.name);
        } else if a.weapons != b.weapons {
            lemma_pair_seq_connected(a.weapons, b.weapons);
        }
    }
    assert forall|a: KillerView, b: KillerView| killer_leq(a, b) && killer_leq(b, a) implies a
        == b by {
        lemma_lex_asymmetric(a.name, b.name);
        lemma_pair_seq_asymmetric(a.weapons, b.weapons);
        assert(a =~= b);
    }
    assert forall|a: KillerView, b: KillerView, c: KillerView|
        #[trigger] killer_leq(a, b) && #[trigger] killer_leq(b, c) implies killer_leq(a, c) by {
        if a.deaths == b.deaths && b.deaths == c.deaths {
            if a.name != b.name && b.name != c.name && a.name != c.name {
                lemma_lex_transitive(a.name, b.name, c.name);
            } else if a.name != b.name && b.name != c.name && a.name == c.name {
                lemma_lex_asymmetric(a.name, b.name);
            } else if a.name == b.name && b.name == c.name {
                if a.weapons != b.weapons && b.weapons != c.weapons && a.weapons != c.weapons {
                    lemma_pair_seq_transitive(a.weapons, b.weapons, c.weapons);
                } else if a.weapons != b.weapons && b.weapons != c.weapons && a.weapons
                    == c.weapons {
                    lemma_pair_seq_asymmetric(a.weapons, b.weapons);
                }
            }
        }
    }
    assert forall|x: KillerView| #[trigger] leq(x, x) by {
        assert(killer_leq(x, x));
    }
    assert forall|x: KillerView, y: KillerView| #[trigger] leq(x, y) && #[trigger] leq(
        y,
        x,
    ) implies x == y by {
        assert(killer_leq(x, y) && killer_leq(y, x));
    }
    assert forall|x: KillerView, y: KillerView, z: KillerView|
        #[trigger] leq(x, y) && #[trigger] leq(y, z) implies leq(x, z) by {
        assert(killer_leq(x, y) && killer_leq(y, z));
        assert(killer_leq(x, z));
    }
    assert forall|x: KillerView, y: KillerView| #[trigger] leq(x, y) || #[trigger] leq(y, x) by {
        assert(killer_leq(x, y) || killer_leq(y, x));
    }
}


// ---------------------------------------------------------------------
// Sorting ranked weapons
// ---------------------------------------------------------------------

/// Views of a ranked-weapon vector.
pub open spec fn weapon_views(s: Seq<Weapon>) -> Seq<WeaponView> {
    s.map_values(|w: Weapon| weapon_view(w))
}

/// Decides the weapon order on entries.
fn weapon_leq_exec(a: &Weapon, b: &Weapon) -> (r: bool)
    ensures
        r == weapon_leq(weapon_view(*a), weapon_view(*b)),
{
    if a.amount_deaths != b.amount_deaths {
        a.amount_deaths > b.amount_deaths
    } else if !(a.name == b.name) {
        str_lt(a.name.as_str(), b.name.as_str())
    } else if a.deaths_percentage_hundredths != b.deaths_percentage_hundredths {
        a.deaths_percentage_hundredths < b.deaths_percentage_hundredths
    } else {
        a.average_distance_hundredths <= b.average_distance_hundredths
    }
}

/// Sorts ranked weapons by the weapon order, by repeatedly moving a least
/// remaining entry over.
fn sort_weapons(input: Vec<Weapon>) -> (out: Vec<Weapon>)
    ensures
        sorted_by(weapon_views(out@), weapon_leq_fn()),
        weapon_views(out@).to_multiset() == weapon_views(input@).to_multiset(),
        out@.len() == input@.len(),
{
    proof {
        lemma_weapon_leq_total();
    }
    let mut rem = input;
    let ghost orig = rem@;
    let mut out: Vec<Weapon> = Vec::new();
    proof {
        assert(weapon_views(out@) =~= Seq::<WeaponView>::empty());
        assert(weapon_views(out@).to_multiset().add(weapon_views(rem@).to_multiset()) =~=
        weapon_views(orig).to_multiset());
    }
    while rem.len() > 0
        invariant
            out@.len() + rem@.len() == orig.len(),
            sorted_by(weapon_views(out@), weapon_leq_fn()),
            weapon_views(out@).to_multiset().add(weapon_views(rem@).to_multiset())
                == weapon_views(orig).to_multiset(),
            forall|i: int, j: int|
                0 <= i < out@.len() && 0 <= j < rem@.len() ==> weapon_leq(
                    #[trigger] weapon_views(out@)[i],
                    #[trigger] weapon_views(rem@)[j],
                ),
        decreases rem@.len(),
    {
        proof {
            lemma_weapon_leq_total();
        }
        let mut m: usize = 0;
        let mut t: usize = 1;
        while t < rem.len()
            invariant
                m < rem@.len(),
                t <= rem@.len(),
                rem@.len() > 0,
                forall|j: int|
                    0 <= j < t ==> weapon_leq(
                        weapon_views(rem@)[m as int],
                        #[trigger] weapon_views(rem@)[j],
                    ),
                forall|a: WeaponView, b: WeaponView| #[trigger] weapon_leq(a, b) || weapon_leq(
                    b,
                    a,
                ),
                forall|a: WeaponView, b: WeaponView, c: WeaponView|
                    #[trigger] weapon_leq(a, b) && #[trigger] weapon_leq(b, c) ==> weapon_leq(a, c),
            decreases rem@.len() - t,
        {
            if weapon_leq_exec(&rem[t], &rem[m]) {
                m = t;
            }
            t = t + 1;
        }
        let ghost rem_pre = rem@;
        let ghost out_pre = out@;
        let x = rem.remove(m);
        let ghost xv = weapon_view(x);
        out.push(x);
        proof {
            assert(weapon_views(rem@) =~= weapon_views(rem_pre).remove(m as int));
            assert(weapon_views(out@) =~= weapon_views(out_pre).push(xv));
            assert(weapon_views(rem_pre).to_multiset().count(xv) > 0) by {
                assert(weapon_views(rem_pre)[m as int] == xv);
                assert(weapon_views(rem_pre).contains(xv));
            }
            assert(weapon_views(out@).to_multiset().add(weapon_views(rem@).to_multiset()) =~=
            weapon_views(orig).to_multiset());
            assert forall|i: int, j: int|
                0 <= i < j < weapon_views(out@).len() implies weapon_leq(
                weapon_views(out@)[i],
                weapon_views(out@)[j],
            ) by {
                if j == weapon_views(out@).len() - 1 {
                    assert(weapon_views(out@)[i] == weapon_views(out_pre)[i]);
                    assert(weapon_views(out@)[j] == xv);
                    assert(xv == weapon_views(rem_pre)[m as int]);
                    assert(weapon_leq(weapon_views(out_pre)[i], weapon_views(rem_pre)[m as int]));
                } else {
                    assert(weapon_views(out@)[i] == weapon_views(out_pre)[i]);
                    assert(weapon_views(out@)[j] == weapon_views(out_pre)[j]);
                    assert((weapon_leq_fn())(weapon_views(out_pre)[i], weapon_views(out_pre)[j]));
                }
            }
            assert(sorted_by(weapon_views(out@), weapon_leq_fn()));
            assert forall|i: int, j: int|
                0 <= i < out@.len() && 0 <= j < rem@.len() implies weapon_leq(
                #[trigger] weapon_views(out@)[i],
                #[trigger] weapon_views(rem@)[j],
            ) by {
                let jm = if j < m {
                    j
                } else {
                    j + 1
                };
                assert(weapon_views(rem@)[j] == weapon_views(rem_pre)[jm]);
                if i < out@.len() - 1 {
                    assert(weapon_views(out@)[i] == weapon_views(out_pre)[i]);
                    assert(weapon_leq(weapon_views(out_pre)[i], weapon_views(rem_pre)[jm]));
                } else {
                    assert(weapon_views(out@)[i] == xv);
                    assert(weapon_leq(weapon_views(rem_pre)[m as int], weapon_views(rem_pre)[jm]));
                }
            }
        }
    }
    proof {
        assert(weapon_views(rem@) =~= Seq::<WeaponView>::empty());
        assert(weapon_views(out@).to_multiset().add(Seq::<WeaponView>::empty().to_multiset()) =~=
        weapon_views(out@).to_multiset());
    }
    out
}

// ---------------------------------------------------------------------
// The weapon ranking
// ---------------------------------------------------------------------

/// The ranked view of one weapon entry against the total row count.
pub open spec fn spec_rank_weapon(w: RowWeapon, total: nat) -> WeaponView {
    WeaponView {
        name: w.name@,
        deaths: w.amount_deaths as nat,
        pct: rounded_div(w.amount_deaths as nat * 10000, total),
        avg: rounded_div(w.distance_hundredths as nat, w.amount_deaths as nat),
    }
}

/// All of the aggregate's weapon entries, ranked but unsorted.
pub open spec fn spec_weapon_entries(g: Aggregate) -> Seq<WeaponView> {
    g.weapons@.map_values(|w: RowWeapon| spec_rank_weapon(w, g.record_count as nat))
}

/// The fully sorted weapon ranking of the aggregate.
pub open spec fn spec_ranked_weapons(g: Aggregate) -> Seq<WeaponView> {
    spec_weapon_entries(g).sort_by(weapon_leq_fn())
}

/// How much of a ranking is reported.
pub open spec fn take_top(len: int) -> int {
    if len < 10 {
        len
    } else {
        10
    }
}

/// The reported weapon ranking: the first ten of the sorted ranking.
pub open spec fn spec_top_weapons(g: Aggregate) -> Seq<WeaponView> {
    spec_ranked_weapons(g).take(take_top(spec_ranked_weapons(g).len() as int))
}

/// Computes the ranked weapon list: every weapon's death share and average
/// distance, sorted by kills descending with the name as tie-break, cut to
/// the top ten.
pub fn calculate_top_weapons(g: &Aggregate) -> (r: Vec<Weapon>)
    requires
        wf_aggregate(*g),
    ensures
        weapon_views(r@) == spec_top_weapons(*g),
        r@.len() == take_top(g.weapons@.len() as int),
{
    let mut entries: Vec<Weapon> = Vec::new();
    let mut i: usize = 0;
    proof {
        assert(weapon_views(entries@) =~= spec_weapon_entries(*g).take(0));
    }
    while i < g.weapons.len()
        invariant
            wf_aggregate(*g),
            i <= g.weapons@.len(),
            entries@.len() == i,
            weapon_views(entries@) == spec_weapon_entries(*g).take(i as int),
        decreases g.weapons@.len() - i,
    {
        let w = &g.weapons[i];
        proof {
            lemma_w_entry_le_total(g.weapons@, i as int);
            assert(wf_aggregate(*g));
            assert(crate::aggregate::wf_weapon_entry(g.weapons@[i as int]));
        }
        let pct128 = rounded_div_exec(w.amount_deaths as u128 * 10000, g.record_count as u128);
        proof {
            lemma_rounded_div_le(
                w.amount_deaths as nat * 10000,
                g.record_count as nat,
                10000,
            );
            assert(w.amount_deaths as nat * 10000 <= g.record_count as nat * 10000)
                by (nonlinear_arith)
                requires
                    w.amount_deaths as nat <= g.record_count as nat,
            ;
        }
        let avg128 = rounded_div_exec(w.distance_hundredths, w.amount_deaths as u128);
        proof {
            lemma_rounded_div_le(
                w.distance_hundredths as nat,
                w.amount_deaths as nat,
                crate::dist::DIST_LIMIT as nat,
            );
        }
        let entry = Weapon {
            name: w.name.clone(),
            amount_deaths: w.amount_deaths,
            deaths_percentage_hundredths: pct128 as u64,
            average_distance_hundredths: avg128 as u64,
        };
        let ghost pre = entries@;
        entries.push(entry);
        i = i + 1;
        proof {
            assert(weapon_views(entries@) =~= spec_weapon_entries(*g).take(i as int)) by {
                assert(weapon_views(entries@).len() == i);
                assert forall|j: int| 0 <= j < i implies weapon_views(entries@)[j]
                    == spec_weapon_entries(*g)[j] by {
                    if j < i - 1 {
                        assert(entries@[j] == pre[j]);
                        assert(weapon_views(pre)[j] == spec_weapon_entries(*g).take(i - 1)[j]);
                    } else {
                        assert(entries@[j] == entry);
                        assert(weapon_view(entry) == spec_rank_weapon(
                            g.weapons@[j],
                            g.record_count as nat,
                        ));
                    }
                }
            }
        }
    }
    proof {
        assert(spec_weapon_entries(*g).take(i as int) =~= spec_weapon_entries(*g));
    }
    let mut sorted = sort_weapons(entries);
    proof {
        lemma_weapon_leq_total();
        spec_weapon_entries(*g).lemma_sort_by_ensures(weapon_leq_fn());
        lemma_sorted_unique(weapon_views(sorted@), spec_ranked_weapons(*g), weapon_leq_fn());
        assert(weapon_views(sorted@) == spec_ranked_weapons(*g));
    }
    let ghost full = sorted@;
    sorted.truncate(10);
    proof {
        if full.len() > 10 {
            assert(weapon_views(sorted@) =~= spec_ranked_weapons(*g).take(10));
        } else {
            assert(sorted@ == full);
            assert(weapon_views(sorted@) =~= spec_ranked_weapons(*g).take(
                spec_ranked_weapons(*g).len() as int,
            ));
        }
    }
    sorted
}


// ---------------------------------------------------------------------
// Sorting one killer's per-weapon counts
// ---------------------------------------------------------------------

/// Decides the per-weapon usage order on entries.
fn pair_leq_exec(a: &(String, u64), b: &(String, u64)) -> (r: bool)
    ensures
        r == pair_rank_leq((a.0@, a.1 as nat), (b.0@, b.1 as nat)),
{
    if a.1 != b.1 {
        a.1 > b.1
    } else if !(a.0 == b.0) {
        str_lt(a.0.as_str(), b.0.as_str())
    } else {
        true
    }
}

/// A fresh copy of a per-weapon list with the same view.
fn copy_pairs(v: &Vec<(String, u64)>) -> (r: Vec<(String, u64)>)
    ensures
        pairs_view(r@) == pairs_view(v@),
{
    let mut r: Vec<(String, u64)> = Vec::new();
    let mut i: usize = 0;
    while i < v.len()
        invariant
            i <= v@.len(),
            r@.len() == i,
            forall|j: int| 0 <= j < i ==> pairs_view(r@)[j] == pairs_view(v@)[j],
        decreases v@.len() - i,
    {
        let ghost pre = r@;
        r.push((v[i].0.clone(), v[i].1));
        proof {
            assert forall|j: int| 0 <= j < i + 1 implies pairs_view(r@)[j] == pairs_view(
                v@,
            )[j] by {
                if j < i {
                    assert(r@[j] == pre[j]);
                }
            }
        }
        i = i + 1;
    }
    proof {
        assert(pairs_view(r@) =~= pairs_view(v@));
    }
    r
}

/// Sorts a per-weapon list by the usage order.
fn sort_pairs(input: Vec<(String, u64)>) -> (out: Vec<(String, u64)>)
    ensures
        sorted_by(pairs_view(out@), pair_rank_leq_fn()),
        pairs_view(out@).to_multiset() == pairs_view(input@).to_multiset(),
        out@.len() == input@.len(),
{
    proof {
        lemma_pair_rank_leq_total();
    }
    let mut rem = input;
    let ghost orig = rem@;
    let mut out: Vec<(String, u64)> = Vec::new();
    proof {
        assert(pairs_view(out@) =~= Seq::<(Seq<char>, nat)>::empty());
        assert(pairs_view(out@).to_multiset().add(pairs_view(rem@).to_multiset()) =~= pairs_view(
            orig,
        ).to_multiset());
    }
    while rem.len() > 0
        invariant
            out@.len() + rem@.len() == orig.len(),
            sorted_by(pairs_view(out@), pair_rank_leq_fn()),
            pairs_view(out@).to_multiset().add(pairs_view(rem@).to_multiset()) == pairs_view(
                orig,
            ).to_multiset(),
            forall|i: int, j: int|
                0 <= i < out@.len() && 0 <= j < rem@.len() ==> pair_rank_leq(
                    #[trigger] pairs_view(out@)[i],
                    #[trigger] pairs_view(rem@)[j],
                ),
        decreases rem@.len(),
    {
        proof {
            lemma_pair_rank_leq_total();
        }
        let mut m: usize = 0;
        let mut t: usize = 1;
        while t < rem.len()
            invariant
                m < rem@.len(),
                t <= rem@.len(),
                rem@.len() > 0,
                forall|j: int|
                    0 <= j < t ==> pair_rank_leq(
                        pairs_view(rem@)[m as int],
                        #[trigger] pairs_view(rem@)[j],
                    ),
                forall|a: (Seq<char>, nat), b: (Seq<char>, nat)|
                    #[trigger] pair_rank_leq(a, b) || pair_rank_leq(b, a),
                forall|a: (Seq<char>, nat), b: (Seq<char>, nat), c: (Seq<char>, nat)|
                    #[trigger] pair_rank_leq(a, b) && #[trigger] pair_rank_leq(b, c)
                        ==> pair_rank_leq(a, c),
            decreases rem@.len() - t,
        {
            if pair_leq_exec(&rem[t], &rem[m]) {
                m = t;
            }
            t = t + 1;
        }
        let ghost rem_pre = rem@;
        let ghost out_pre = out@;
        let x = rem.remove(m);
        let ghost xv = (x.0@, x.1 as nat);
        out.push(x);
        proof {
            assert(pairs_view(rem@) =~= pairs_view(rem_pre).remove(m as int));
            assert(pairs_view(out@) =~= pairs_view(out_pre).push(xv));
            assert(pairs_view(rem_pre).to_multiset().count(xv) > 0) by {
                assert(pairs_view(rem_pre)[m as int] == xv);
                assert(pairs_view(rem_pre).contains(xv));
            }
            assert(pairs_view(out@).to_multiset().add(pairs_view(rem@).to_multiset()) =~=
            pairs_view(orig).to_multiset());
            assert forall|i: int, j: int|
                0 <= i < j < pairs_view(out@).len() implies pair_rank_leq(
                pairs_view(out@)[i],
                pairs_view(out@)[j],
            ) by {
                if j == pairs_view(out@).len() - 1 {
                    assert(pairs_view(out@)[i] == pairs_view(out_pre)[i]);
                    assert(pairs_view(out@)[j] == xv);
                    assert(xv == pairs_view(rem_pre)[m as int]);
                    assert(pair_rank_leq(pairs_view(out_pre)[i], pairs_view(rem_pre)[m as int]));
                } else {
                    assert(pairs_view(out@)[i] == pairs_view(out_pre)[i]);
                    assert(pairs_view(out@)[j] == pairs_view(out_pre)[j]);
                    assert((pair_rank_leq_fn())(pairs_view(out_pre)[i], pairs_view(out_pre)[j]));
                }
            }
            assert(sorted_by(pairs_view(out@), pair_rank_leq_fn()));
            assert forall|i: int, j: int|
                0 <= i < out@.len() && 0 <= j < rem@.len() implies pair_rank_leq(
                #[trigger] pairs_view(out@)[i],
                #[trigger] pairs_view(rem@)[j],
            ) by {
                let jm = if j < m {
                    j
                } else {
                    j + 1
                };
                assert(pairs_view(rem@)[j] == pairs_view(rem_pre)[jm]);
                if i < out@.len() - 1 {
                    assert(pairs_view(out@)[i] == pairs_view(out_pre)[i]);
                    assert(pair_rank_leq(pairs_view(out_pre)[i], pairs_view(rem_pre)[jm]));
                } else {
                    assert(pairs_view(out@)[i] == xv);
                    assert(pair_rank_leq(pairs_view(rem_pre)[m as int], pairs_view(rem_pre)[jm]));
                }
            }
        }
    }
    proof {
        assert(pairs_view(rem@) =~= Seq::<(Seq<char>, nat)>::empty());
        assert(pairs_view(out@).to_multiset().add(
            Seq::<(Seq<char>, nat)>::empty().to_multiset(),
        ) =~= pairs_view(out@).to_multiset());
    }
    out
}

// ---------------------------------------------------------------------
// Ranking one killer
// ---------------------------------------------------------------------

/// How many of a killer's weapons are reported.
pub open spec fn take_top3(len: int) -> int {
    if len < 3 {
        len
    } else {
        3
    }
}

/// The ranked view of one killer entry: its per-weapon counts sorted by
/// the usage order, the first three kept, each count turned into a usage
/// share of the killer's kills.
pub open spec fn spec_rank_killer(k: RowKiller) -> KillerView {
    let sorted = pairs_view(k.weapons@).sort_by(pair_rank_leq_fn());
    let kept = sorted.take(take_top3(sorted.len() as int));
    KillerView {
        name: k.name@,
        deaths: k.amount_deaths as nat,
        weapons: kept.map_values(
            |p: (Seq<char>, nat)| (p.0, rounded_div(p.1 * 10000, k.amount_deaths as nat)),
        ),
    }
}

/// A per-weapon count seen in the view is bounded by the list's total.
proof fn lemma_pair_view_count_bound(s: Seq<(String, u64)>, p: (Seq<char>, nat))
    requires
        pairs_view(s).contains(p),
    ensures
        p.1 <= crate::aggregate::pair_total(s),
{
    let i = choose|i: int| 0 <= i < pairs_view(s).len() && pairs_view(s)[i] == p;
    crate::aggregate::lemma_pair_entry_le_total(s, i);
}

/// Ranks one killer entry.
fn rank_one_killer(k: &RowKiller) -> (r: Killer)
    requires
        crate::aggregate::wf_killer_entry(*k),
    ensures
        killer_view(r) == spec_rank_killer(*k),
        r.weapons@.len() <= 3,
{
    let pairs = copy_pairs(&k.weapons);
    let mut sorted = sort_pairs(pairs);
    let ghost spec_sorted = pairs_view(k.weapons@).sort_by(pair_rank_leq_fn());
    proof {
        lemma_pair_rank_leq_total();
        pairs_view(k.weapons@).lemma_sort_by_ensures(pair_rank_leq_fn());
        lemma_sorted_unique(pairs_view(sorted@), spec_sorted, pair_rank_leq_fn());
        assert(pairs_view(sorted@) == spec_sorted);
    }
    let ghost full = sorted@;
    sorted.truncate(3);
    proof {
        if full.len() > 3 {
            assert(pairs_view(sorted@) =~= spec_sorted.take(3));
        } else {
            assert(sorted@ == full);
            assert(pairs_view(sorted@) =~= spec_sorted.take(spec_sorted.len() as int));
        }
    }
    let ghost kept = spec_sorted.take(take_top3(spec_sorted.len() as int));
    let mut weapons: Vec<(String, u64)> = Vec::new();
    let mut j: usize = 0;
    while j < sorted.len()
        invariant
            crate::aggregate::wf_killer_entry(*k),
            j <= sorted@.len(),
            weapons@.len() == j,
            pairs_view(sorted@) == kept,
            spec_sorted == pairs_view(k.weapons@).sort_by(pair_rank_leq_fn()),
            kept == spec_sorted.take(take_top3(spec_sorted.len() as int)),
            spec_sorted.to_multiset() == pairs_view(k.weapons@).to_multiset(),
            forall|i: int|
                0 <= i < j ==> pairs_view(weapons@)[i] == (#[trigger] kept[i].0, rounded_div(
                    kept[i].1 * 10000,
                    k.amount_deaths as nat,
                )),
        decreases sorted@.len() - j,
    {
        let cnt = sorted[j].1;
        proof {
            assert(pairs_view(sorted@)[j as int] == kept[j as int]);
            assert(kept.len() == pairs_view(sorted@).len());
            assert(j < kept.len());
            assert(take_top3(spec_sorted.len() as int) <= spec_sorted.len());
            assert(kept[j as int] == spec_sorted.take(take_top3(spec_sorted.len() as int))[j as int]);
            assert(kept[j as int] == spec_sorted[j as int]);
            assert(spec_sorted.contains(kept[j as int]));
            assert(spec_sorted.to_multiset().contains(kept[j as int]));
            assert(pairs_view(k.weapons@).to_multiset().contains(kept[j as int]));
            assert(pairs_view(k.weapons@).contains(kept[j as int]));
            lemma_pair_view_count_bound(k.weapons@, kept[j as int]);
            lemma_rounded_div_le(cnt as nat * 10000, k.amount_deaths as nat, 10000);
            assert(cnt as nat * 10000 <= k.amount_deaths as nat * 10000) by (nonlinear_arith)
                requires
                    cnt as nat <= k.amount_deaths as nat,
            ;
        }
        let pct128 = rounded_div_exec(cnt as u128 * 10000, k.amount_deaths as u128);
        let ghost pre = weapons@;
        weapons.push((sorted[j].0.clone(), pct128 as u64));
        j = j + 1;
        proof {
            assert forall|i: int|
                0 <= i < j implies pairs_view(weapons@)[i] == (#[trigger] kept[i].0, rounded_div(
                kept[i].1 * 10000,
                k.amount_deaths as nat,
            )) by {
                if i < j - 1 {
                    assert(weapons@[i] == pre[i]);
                } else {
                    assert(pairs_view(sorted@)[i] == kept[i]);
                }
            }
        }
    }
    let r = Killer { name: k.name.clone(), deaths: k.amount_deaths, weapons };
    proof {
        assert(pairs_view(r.weapons@) =~= kept.map_values(
            |p: (Seq<char>, nat)| (p.0, rounded_div(p.1 * 10000, k.amount_deaths as nat)),
        ));
        assert(killer_view(r) =~= spec_rank_killer(*k));
    }
    r
}


// ---------------------------------------------------------------------
// Sorting ranked killers
// ---------------------------------------------------------------------

/// Views of a ranked-killer vector.
pub open spec fn killer_views(s: Seq<Killer>) -> Seq<KillerView> {
    s.map_values(|k: Killer| killer_view(k))
}

/// Compares two per-weapon lists: whether their views are equal, and
/// whether the first comes strictly before the second.
fn pair_seq_cmp_exec(a: &Vec<(String, u64)>, b: &Vec<(String, u64)>) -> (r: (bool, bool))
    ensures
        r.0 == (pairs_view(a@) == pairs_view(b@)),
        r.1 == pair_seq_lt(pairs_view(a@), pairs_view(b@)),
{
    let a_len = a.len();
    let b_len = b.len();
    let mut i: usize = 0;
    proof {
        assert(pairs_view(a@).skip(0) =~= pairs_view(a@));
        assert(pairs_view(b@).skip(0) =~= pairs_view(b@));
    }
    loop
        invariant
            i <= a_len,
            i <= b_len,
            a_len == a@.len(),
            b_len == b@.len(),
            pairs_view(a@).len() == a_len,
            pairs_view(b@).len() == b_len,
            forall|k: int| 0 <= k < i ==> #[trigger] pairs_view(a@)[k] == pairs_view(b@)[k],
            pair_seq_lt(pairs_view(a@), pairs_view(b@)) == pair_seq_lt(
                pairs_view(a@).skip(i as int),
                pairs_view(b@).skip(i as int),
            ),
        ensures
            i <= a_len,
            i <= b_len,
            i == a_len || i == b_len,
            forall|k: int| 0 <= k < i ==> #[trigger] pairs_view(a@)[k] == pairs_view(b@)[k],
            pair_seq_lt(pairs_view(a@), pairs_view(b@)) == pair_seq_lt(
                pairs_view(a@).skip(i as int),
                pairs_view(b@).skip(i as int),
            ),
        decreases a_len - i,
    {
        if i == a_len || i == b_len {
            break ;
        }
        let names_eq = a[i].0 == b[i].0;
        let counts_eq = a[i].1 == b[i].1;
        proof {
            assert(pairs_view(a@)[i as int] == (a@[i as int].0@, a@[i as int].1 as nat));
            assert(pairs_view(b@)[i as int] == (b@[i as int].0@, b@[i as int].1 as nat));
            assert(pairs_view(a@).skip(i as int)[0] == pairs_view(a@)[i as int]);
            assert(pairs_view(b@).skip(i as int)[0] == pairs_view(b@)[i as int]);
        }
        if names_eq && counts_eq {
            proof {
                assert(pairs_view(a@)[i as int] == pairs_view(b@)[i as int]);
                assert(pairs_view(a@).skip(i as int).drop_first() =~= pairs_view(a@).skip(i + 1));
                assert(pairs_view(b@).skip(i as int).drop_first() =~= pairs_view(b@).skip(i + 1));
            }
            i = i + 1;
        } else {
            let lt = if a[i].1 != b[i].1 {
                a[i].1 > b[i].1
            } else {
                str_lt(a[i].0.as_str(), b[i].0.as_str())
            };
            proof {
                let pa = pairs_view(a@)[i as int];
                let pb = pairs_view(b@)[i as int];
                assert(pa != pb);
                assert(lt == pair_lt(pa, pb));
                if !lt {
                    lemma_pair_rank_leq_total();
                    assert(!pair_lt(pa, pb));
                }
                assert(pairs_view(a@) != pairs_view(b@)) by {
                    assert(pairs_view(a@)[i as int] != pairs_view(b@)[i as int]);
                }
            }
            return (false, lt);
        }
    }
    if a_len == b_len {
        proof {
            assert(pairs_view(a@) =~= pairs_view(b@));
            assert(pairs_view(a@).skip(i as int).len() == 0);
            assert(pairs_view(b@).skip(i as int).len() == 0);
        }
        (true, false)
    } else if i == a_len {
        proof {
            assert(pairs_view(a@).skip(i as int).len() == 0);
            assert(pairs_view(b@).skip(i as int).len() > 0);
            assert(pairs_view(a@).len() != pairs_view(b@).len());
        }
        (false, true)
    } else {
        proof {
            assert(pairs_view(b@).skip(i as int).len() == 0);
            assert(pairs_view(a@).len() != pairs_view(b@).len());
        }
        (false, false)
    }
}

/// Decides the killer order on entries.
fn killer_leq_exec(a: &Killer, b: &Killer) -> (r: bool)
    ensures
        r == killer_leq(killer_view(*a), killer_view(*b)),
{
    if a.deaths != b.deaths {
        a.deaths > b.deaths
    } else if !(a.name == b.name) {
        str_lt(a.name.as_str(), b.name.as_str())
    } else {
        let (eq, lt) = pair_seq_cmp_exec(&a.weapons, &b.weapons);
        if eq {
            true
        } else {
            lt
        }
    }
}

/// Sorts ranked killers by the killer order, by repeatedly moving a least
/// remaining entry over.
fn sort_killers(input: Vec<Killer>) -> (out: Vec<Killer>)
    ensures
        sorted_by(killer_views(out@), killer_leq_fn()),
        killer_views(out@).to_multiset() == killer_views(input@).to_multiset(),
        out@.len() == input@.len(),
{
    proof {
        lemma_killer_leq_total();
    }
    let mut rem = input;
    let ghost orig = rem@;
    let mut out: Vec<Killer> = Vec::new();
    proof {
        assert(killer_views(out@) =~= Seq::<KillerView>::empty());
        assert(killer_views(out@).to_multiset().add(killer_views(rem@).to_multiset()) =~=
        killer_views(orig).to_multiset());
    }
    while rem.len() > 0
        invariant
            out@.len() + rem@.len() == orig.len(),
            sorted_by(killer_views(out@), killer_leq_fn()),
            killer_views(out@).to_multiset().add(killer_views(rem@).to_multiset())
                == killer_views(orig).to_multiset(),
            forall|i: int, j: int|
                0 <= i < out@.len() && 0 <= j < rem@.len() ==> killer_leq(
                    #[trigger] killer_views(out@)[i],
                    #[trigger] killer_views(rem@)[j],
                ),
        decreases rem@.len(),
    {
        proof {
            lemma_killer_leq_total();
        }
        let mut m: usize = 0;
        let mut t: usize = 1;
        while t < rem.len()
            invariant
                m < rem@.len(),
                t <= rem@.len(),
                rem@.len() > 0,
                forall|j: int|
                    0 <= j < t ==> killer_leq(
                        killer_views(rem@)[m as int],
                        #[trigger] killer_views(rem@)[j],
                    ),
                forall|a: KillerView, b: KillerView| #[trigger] killer_leq(a, b) || killer_leq(
                    b,
                    a,
                ),
                forall|a: KillerView, b: KillerView, c: KillerView|
                    #[trigger] killer_leq(a, b) && #[trigger] killer_leq(b, c) ==> killer_leq(a, c),
            decreases rem@.len() - t,
        {
            if killer_leq_exec(&rem[t], &rem[m]) {
                m = t;
            }
            t = t + 1;
        }
        let ghost rem_pre = rem@;
        let ghost out_pre = out@;
        let x = rem.remove(m);
        let ghost xv = killer_view(x);
        out.push(x);
        proof {
            assert(killer_views(rem@) =~= killer_views(rem_pre).remove(m as int));
            assert(killer_views(out@) =~= killer_views(out_pre).push(xv));
            assert(killer_views(rem_pre).to_multiset().count(xv) > 0) by {
                assert(killer_views(rem_pre)[m as int] == xv);
                assert(killer_views(rem_pre).contains(xv));
            }
            assert(killer_views(out@).to_multiset().add(killer_views(rem@).to_multiset()) =~=
            killer_views(orig).to_multiset());
            assert forall|i: int, j: int|
                0 <= i < j < killer_views(out@).len() implies killer_leq(
                killer_views(out@)[i],
                killer_views(out@)[j],
            ) by {
                if j == killer_views(out@).len() - 1 {
                    assert(killer_views(out@)[i] == killer_views(out_pre)[i]);
                    assert(killer_views(out@)[j] == xv);
                    assert(xv == killer_views(rem_pre)[m as int]);
                    assert(killer_leq(killer_views(out_pre)[i], killer_views(rem_pre)[m as int]));
                } else {
                    assert(killer_views(out@)[i] == killer_views(out_pre)[i]);
                    assert(killer_views(out@)[j] == killer_views(out_pre)[j]);
                    assert((killer_leq_fn())(killer_views(out_pre)[i], killer_views(out_pre)[j]));
                }
            }
            assert(sorted_by(killer_views(out@), killer_leq_fn()));
            assert forall|i: int, j: int|
                0 <= i < out@.len() && 0 <= j < rem@.len() implies killer_leq(
                #[trigger] killer_views(out@)[i],
                #[trigger] killer_views(rem@)[j],
            ) by {
                let jm = if j < m {
                    j
                } else {
                    j + 1
                };
                assert(killer_views(rem@)[j] == killer_views(rem_pre)[jm]);
                if i < out@.len() - 1 {
                    assert(killer_views(out@)[i] == killer_views(out_pre)[i]);
                    assert(killer_leq(killer_views(out_pre)[i], killer_views(rem_pre)[jm]));
                } else {
                    assert(killer_views(out@)[i] == xv);
                    assert(killer_leq(killer_views(rem_pre)[m as int], killer_views(rem_pre)[jm]));
                }
            }
        }
    }
    proof {
        assert(killer_views(rem@) =~= Seq::<KillerView>::empty());
        assert(killer_views(out@).to_multiset().add(Seq::<KillerView>::empty().to_multiset()) =~=
        killer_views(out@).to_multiset());
    }
    out
}

// ---------------------------------------------------------------------
// The killer ranking
// ---------------------------------------------------------------------

/// All of the aggregate's killer entries, ranked but unsorted.
pub open spec fn spec_killer_entries(g: Aggregate) -> Seq<KillerView> {
    g.killers@.map_values(|k: RowKiller| spec_rank_killer(k))
}

/// The fully sorted killer ranking of the aggregate.
pub open spec fn spec_ranked_killers(g: Aggregate) -> Seq<KillerView> {
    spec_killer_entries(g).sort_by(killer_leq_fn())
}

/// The reported killer ranking: the first ten of the sorted ranking.
pub open spec fn spec_top_killers(g: Aggregate) -> Seq<KillerView> {
    spec_ranked_killers(g).take(take_top(spec_ranked_killers(g).len() as int))
}

/// Computes the ranked killer list: every killer with its three most-used
/// weapons and their usage shares, sorted by kills descending with the
/// name as tie-break, cut to the top ten.
pub fn calculate_top_killers(g: &Aggregate) -> (r: Vec<Killer>)
    requires
        wf_aggregate(*g),
    ensures
        killer_views(r@) == spec_top_killers(*g),
        r@.len() == take_top(g.killers@.len() as int),
{
    let mut entries: Vec<Killer> = Vec::new();
    let mut i: usize = 0;
    proof {
        assert(killer_views(entries@) =~= spec_killer_entries(*g).take(0));
    }
    while i < g.killers.len()
        invariant
            wf_aggregate(*g),
            i <= g.killers@.len(),
            entries@.len() == i,
            killer_views(entries@) == spec_killer_entries(*g).take(i as int),
        decreases g.killers@.len() - i,
    {
        let k = &g.killers[i];
        proof {
            assert(crate::aggregate::wf_killer_entry(g.killers@[i as int]));
        }
        let entry = rank_one_killer(k);
        let ghost pre = entries@;
        entries.push(entry);
        i = i + 1;
        proof {
            assert(killer_views(entries@) =~= spec_killer_entries(*g).take(i as int)) by {
                assert(killer_views(entries@).len() == i);
                assert forall|j: int| 0 <= j < i implies killer_views(entries@)[j]
                    == spec_killer_entries(*g)[j] by {
                    if j < i - 1 {
                        assert(entries@[j] == pre[j]);
                        assert(killer_views(pre)[j] == spec_killer_entries(*g).take(i - 1)[j]);
                    } else {
                        assert(entries@[j] == entry);
                        assert(killer_view(entry) == spec_rank_killer(g.killers@[j]));
                    }
                }
            }
        }
    }
    proof {
        assert(spec_killer_entries(*g).take(i as int) =~= spec_killer_entries(*g));
    }
    let mut sorted = sort_killers(entries);
    proof {
        lemma_killer_leq_total();
        spec_killer_entries(*g).lemma_sort_by_ensures(killer_leq_fn());
        lemma_sorted_unique(killer_views(sorted@), spec_ranked_killers(*g), killer_leq_fn());
        assert(killer_views(sorted@) == spec_ranked_killers(*g));
    }
    let ghost full = sorted@;
    sorted.truncate(10);
    proof {
        if full.len() > 10 {
            assert(killer_views(sorted@) =~= spec_ranked_killers(*g).take(10));
        } else {
            assert(sorted@ == full);
            assert(killer_views(sorted@) =~= spec_ranked_killers(*g).take(
                spec_ranked_killers(*g).len() as int,
            ));
        }
    }
    sorted
}

// ---------------------------------------------------------------------
// Laws of the ranking
// ---------------------------------------------------------------------

/// Ranking is deterministic: the reported lists are functions of the
/// aggregate alone, so ranking the same aggregate twice gives identical
/// lists, tie-break order included.
pub proof fn lemma_ranking_deterministic(
    g: Aggregate,
    w1: Seq<WeaponView>,
    w2: Seq<WeaponView>,
    k1: Seq<KillerView>,
    k2: Seq<KillerView>,
)
    requires
        w1 == spec_top_weapons(g),
        w2 == spec_top_weapons(g),
        k1 == spec_top_killers(g),
        k2 == spec_top_killers(g),
    ensures
        w1 == w2,
        k1 == k2,
{
}

/// The documented tie-break: in the sorted weapon ranking kills never
/// grow down the list, and of two entries with equal kills and distinct
/// names the lexicographically smaller name stands first.
pub proof fn lemma_weapon_tie_break(g: Aggregate, i: int, j: int)
    requires
        0 <= i < j < spec_ranked_weapons(g).len(),
    ensures
        spec_ranked_weapons(g)[i].deaths >= spec_ranked_weapons(g)[j].deaths,
        (spec_ranked_weapons(g)[i].deaths == spec_ranked_weapons(g)[j].deaths
            && spec_ranked_weapons(g)[i].name != spec_ranked_weapons(g)[j].name) ==> lex_lt(
            spec_ranked_weapons(g)[i].name,
            spec_ranked_weapons(g)[j].name,
        ),
{
    lemma_weapon_leq_total();
    spec_weapon_entries(g).lemma_sort_by_ensures(weapon_leq_fn());
    let s = spec_ranked_weapons(g);
    assert((weapon_leq_fn())(s[i], s[j]));
    assert(weapon_leq(s[i], s[j]));
}

/// The same tie-break for the killer ranking.
pub proof fn lemma_killer_tie_break(g: Aggregate, i: int, j: int)
    requires
        0 <= i < j < spec_ranked_killers(g).len(),
    ensures
        spec_ranked_killers(g)[i].deaths >= spec_ranked_killers(g)[j].deaths,
        (spec_ranked_killers(g)[i].deaths == spec_ranked_killers(g)[j].deaths
            && spec_ranked_killers(g)[i].name != spec_ranked_killers(g)[j].name) ==> lex_lt(
            spec_ranked_killers(g)[i].name,
            spec_ranked_killers(g)[j].name,
        ),
{
    lemma_killer_leq_total();
    spec_killer_entries(g).lemma_sort_by_ensures(killer_leq_fn());
    let s = spec_ranked_killers(g);
    assert((killer_leq_fn())(s[i], s[j]));
    assert(killer_leq(s[i], s[j]));
}

/// With at least one row, the weapons' kill counts sum exactly to the row
/// count, and every weapon's death share lies between zero and a hundred
/// percent.
pub proof fn lemma_percentage_bounds(g: Aggregate)
    requires
        wf_aggregate(g),
        g.record_count > 0,
    ensures
        w_total(g.weapons@) == g.record_count as nat,
        forall|i: int|
            0 <= i < spec_weapon_entries(g).len() ==> (#[trigger] spec_weapon_entries(g)[i]).pct
                <= 10000,
        forall|i: int|
            0 <= i < spec_top_weapons(g).len() ==> (#[trigger] spec_top_weapons(g)[i]).pct <= 10000,
{
    assert forall|i: int|
        0 <= i < spec_weapon_entries(g).len() implies (#[trigger] spec_weapon_entries(g)[i]).pct
        <= 10000 by {
        lemma_w_entry_le_total(g.weapons@, i);
        assert(g.weapons@[i].amount_deaths as nat * 10000 <= g.record_count as nat * 10000)
            by (nonlinear_arith)
            requires
                g.weapons@[i].amount_deaths as nat <= g.record_count as nat,
        ;
        lemma_rounded_div_le(g.weapons@[i].amount_deaths as nat * 10000, g.record_count as nat, 10000);
    }
    lemma_weapon_leq_total();
    spec_weapon_entries(g).lemma_sort_by_ensures(weapon_leq_fn());
    assert forall|i: int|
        0 <= i < spec_top_weapons(g).len() implies (#[trigger] spec_top_weapons(g)[i]).pct
        <= 10000 by {
        let v = spec_top_weapons(g)[i];
        assert(v == spec_ranked_weapons(g)[i]);
        assert(spec_ranked_weapons(g).contains(v));
        assert(spec_ranked_weapons(g).to_multiset().contains(v));
        assert(spec_weapon_entries(g).to_multiset().contains(v));
        assert(spec_weapon_entries(g).contains(v));
        let j = choose|j: int|
            0 <= j < spec_weapon_entries(g).len() && spec_weapon_entries(g)[j] == v;
        assert(spec_weapon_entries(g)[j].pct <= 10000);
    }
}

} // verus!
