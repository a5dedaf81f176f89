//! Turning one CSV row into a typed kill event.
//!
//! A row's cells are read at fixed positions: weapon name at 0, killer
//! name at 1, killer coordinates at 3 and 4, victim coordinates at 10 and
//! 11. Weapon and killer are required; a row without them is malformed.
//! Coordinates are optional: an absent or unparsable cell leaves the
//! position unknown, and an event with any unknown position contributes a
//! distance of exactly zero.

use crate::dist::{
    distance_hundredths, lemma_coord_bound, parse_coord, spec_coord, spec_distance, DIST_LIMIT,
};
use crate::PipelineError;
use vstd::prelude::*;

verus! {

/// One kill, as read from a row: who killed with what, and the rounded
/// distance between killer and victim in hundredths (zero when a
/// position is unknown).
#[derive(Debug, PartialEq, Eq, Clone)]
pub struct KillEvent {
    pub weapon: String,
    pub killer: String,
    pub distance_hundredths: u64,
}

/// The row holds its two required fields.
pub open spec fn row_ok(row: Seq<Seq<char>>) -> bool {
    row.len() >= 2
}

/// Coordinate cell `i` of the row, in hundredths, if present and readable.
pub open spec fn row_coord(row: Seq<Seq<char>>, i: int) -> Option<int> {
    if i < row.len() {
        spec_coord(row[i])
    } else {
        None
    }
}

/// The distance contribution of a row: the rounded distance when all four
/// coordinates are known, zero otherwise.
pub open spec fn spec_row_distance(row: Seq<Seq<char>>) -> nat {
    match (row_coord(row, 3), row_coord(row, 4), row_coord(row, 10), row_coord(row, 11)) {
        (Some(kx), Some(ky), Some(vx), Some(vy)) => spec_distance(kx, ky, vx, vy),
        _ => 0,
    }
}

/// Reads one coordinate cell of the row.
fn extract_coord(row: &Vec<String>, i: usize) -> (r: Option<i64>)
    ensures
        match r {
            Some(v) => row_coord(row.deep_view(), i as int) == Some(v as int),
            None => row_coord(row.deep_view(), i as int) is None,
        },
{
    if i < row.len() {
        proof {
            assert(row.deep_view()[i as int] == row@[i as int]@);
        }
        parse_coord(row[i].as_str())
    } else {
        None
    }
}

/// Extracts the kill event of one row, or fails when a required field is
/// missing.
pub fn extract_event(row: &Vec<String>) -> (r: Result<KillEvent, PipelineError>)
    ensures
        row_ok(row.deep_view()) <==> r is Ok,
        r matches Ok(ev) ==> {
            &&& ev.weapon@ == row.deep_view()[0]
            &&& ev.killer@ == row.deep_view()[1]
            &&& ev.distance_hundredths == spec_row_distance(row.deep_view())
            &&& ev.distance_hundredths <= DIST_LIMIT
        },
        r matches Err(e) ==> e == PipelineError::Parse,
{
    if row.len() < 2 {
        return Err(PipelineError::Parse);
    }
    let weapon = row[0].clone();
    let killer = row[1].clone();
    proof {
        assert(row.deep_view()[0] == row@[0]@);
        assert(row.deep_view()[1] == row@[1]@);
    }
    let kx = extract_coord(row, 3);
    let ky = extract_coord(row, 4);
    let vx = extract_coord(row, 10);
    let vy = extract_coord(row, 11);
    let distance: u64 = match (kx, ky, vx, vy) {
        (Some(kx), Some(ky), Some(vx), Some(vy)) => {
            proof {
                lemma_coord_bound(row.deep_view()[3]);
                lemma_coord_bound(row.deep_view()[4]);
                lemma_coord_bound(row.deep_view()[10]);
                lemma_coord_bound(row.deep_view()[11]);
            }
            distance_hundredths(kx, ky, vx, vy)
        },
        _ => 0,
    };
    Ok(KillEvent { weapon, killer, distance_hundredths: distance })
}

} // verus!
