//! The distance rule.
//!
//! A kill event carries optional killer and victim coordinates, written as
//! plain decimal numbers in the CSV cells. The event's distance
//! contribution is `sqrt((kx-vx)^2 + (ky-vy)^2)` rounded to two decimal
//! digits, or exactly zero when any coordinate is missing or does not
//! parse. The library holds every such quantity in hundredths, so a
//! coordinate is an integer count of hundredths and a rounded distance is
//! an integer count of hundredths as well.

use vstd::prelude::*;

verus! {

/// Largest admitted integer part of a coordinate. A cell whose integer
/// part reaches this value does not parse (the coordinate is unknown).
pub const COORD_INT_LIMIT: u64 = 1_000_000_000;

/// Upper bound of a parsed coordinate in hundredths.
pub const COORD_CENTI_LIMIT: u64 = 100_000_000_000;

/// Upper bound of one event's rounded distance in hundredths.
pub const DIST_LIMIT: u64 = 300_000_000_000;

// ---------------------------------------------------------------------
// Decimal coordinate cells
// ---------------------------------------------------------------------

/// `c` is a decimal digit.
pub open spec fn is_digit(c: char) -> bool {
    '0' <= c && c <= '9'
}

/// Numeric value of a digit; zero for any other character.
pub open spec fn digit_val(c: char) -> nat {
    if is_digit(c) {
        (c as u32 - '0' as u32) as nat
    } else {
        0
    }
}

/// Every character of `s` is a decimal digit.
pub open spec fn all_digits(s: Seq<char>) -> bool {
    forall|i: int| 0 <= i < s.len() ==> is_digit(#[trigger] s[i])
}

/// The number written by a digit sequence, most significant digit first.
pub open spec fn digits_val(s: Seq<char>) -> nat
    decreases s.len(),
{
    if s.len() == 0 {
        0
    } else {
        digits_val(s.drop_last()) * 10 + digit_val(s.last())
    }
}

/// Index of the first `'.'` in `s`, or `s.len()` if there is none.
pub open spec fn dot_idx(s: Seq<char>) -> int
    decreases s.len(),
{
    if s.len() == 0 {
        0
    } else if s[0] == '.' {
        0
    } else {
        1 + dot_idx(s.drop_first())
    }
}

/// `dot_idx` points at the first dot, or past the end when there is none.
pub proof fn lemma_dot_idx_props(s: Seq<char>)
    ensures
        0 <= dot_idx(s) <= s.len(),
        dot_idx(s) < s.len() ==> s[dot_idx(s)] == '.',
        forall|j: int| 0 <= j < dot_idx(s) ==> s[j] != '.',
    decreases s.len(),
{
    if s.len() > 0 && s[0] != '.' {
        lemma_dot_idx_props(s.drop_first());
        assert forall|j: int| 0 <= j < dot_idx(s) implies s[j] != '.' by {
            if j > 0 {
                assert(s.drop_first()[j - 1] != '.');
            }
        }
    }
}

/// Digits before the first dot.
pub open spec fn int_part(s: Seq<char>) -> Seq<char> {
    s.take(dot_idx(s))
}

/// Digits after the first dot; empty if there is no dot.
pub open spec fn frac_part(s: Seq<char>) -> Seq<char> {
    if dot_idx(s) < s.len() {
        s.skip(dot_idx(s) + 1)
    } else {
        Seq::empty()
    }
}

/// An unsigned coordinate body is well formed: digits, at most one dot,
/// at least one digit in all, and an integer part below the limit.
pub open spec fn body_ok(s: Seq<char>) -> bool {
    &&& all_digits(int_part(s))
    &&& all_digits(frac_part(s))
    &&& int_part(s).len() + frac_part(s).len() >= 1
    &&& digits_val(int_part(s)) < COORD_INT_LIMIT
}

/// `i`-th fraction digit, or zero past the written digits.
pub open spec fn frac_digit(f: Seq<char>, i: int) -> nat {
    if 0 <= i < f.len() {
        digit_val(f[i])
    } else {
        0
    }
}

/// Value of a well-formed body in hundredths, the third fraction digit
/// deciding the rounding (half away from zero).
pub open spec fn body_centi(s: Seq<char>) -> nat {
    let f = frac_part(s);
    digits_val(int_part(s)) * 100 + frac_digit(f, 0) * 10 + frac_digit(f, 1) + if frac_digit(
        f,
        2,
    ) >= 5 {
        1nat
    } else {
        0nat
    }
}

/// The cell opens with a sign.
pub open spec fn has_sign(s: Seq<char>) -> bool {
    s.len() > 0 && (s[0] == '-' || s[0] == '+')
}

/// The cell denotes a negative number.
pub open spec fn coord_neg(s: Seq<char>) -> bool {
    s.len() > 0 && s[0] == '-'
}

/// The unsigned body of the cell.
pub open spec fn coord_body(s: Seq<char>) -> Seq<char> {
    if has_sign(s) {
        s.drop_first()
    } else {
        s
    }
}

/// What a coordinate cell means: an optional sign, then a well-formed
/// body; the value is in hundredths. Anything else is an unknown
/// coordinate.
pub open spec fn spec_coord(s: Seq<char>) -> Option<int> {
    if body_ok(coord_body(s)) {
        if coord_neg(s) {
            Some(-(body_centi(coord_body(s)) as int))
        } else {
            Some(body_centi(coord_body(s)) as int)
        }
    } else {
        None
    }
}

/// A parsed coordinate is bounded by the centi limit.
pub proof fn lemma_coord_bound(s: Seq<char>)
    ensures
        spec_coord(s) matches Some(v) ==> -(COORD_CENTI_LIMIT as int) <= v
            <= COORD_CENTI_LIMIT as int,
{
}

// ---------------------------------------------------------------------
// Helper lemmas for the parser
// ---------------------------------------------------------------------

/// Appending characters never decreases the written number.
pub proof fn lemma_digits_val_take_monotone(s: Seq<char>, k: int, m: int)
    requires
        0 <= k <= m <= s.len(),
    ensures
        digits_val(s.take(k)) <= digits_val(s.take(m)),
    decreases m - k,
{
    if k < m {
        lemma_digits_val_take_monotone(s, k, m - 1);
        assert(s.take(m).drop_last() =~= s.take(m - 1));
    }
}

/// One parsing step: the number grows by a factor of ten plus the digit.
pub proof fn lemma_digits_val_step(s: Seq<char>, k: int)
    requires
        0 <= k < s.len(),
    ensures
        digits_val(s.take(k + 1)) == digits_val(s.take(k)) * 10 + digit_val(s[k]),
{
    assert(s.take(k + 1).drop_last() =~= s.take(k));
    assert(s.take(k + 1).last() == s[k]);
}

// ---------------------------------------------------------------------
// The executable parser
// ---------------------------------------------------------------------

/// Reads a coordinate cell to hundredths, `None` when the cell does not
/// hold a plain decimal number below the limit. The result follows
/// `spec_coord` exactly.
pub fn parse_coord(s: &str) -> (r: Option<i64>)
    ensures
        match r {
            Some(v) => spec_coord(s@) == Some(v as int),
            None => spec_coord(s@) is None,
        },
{
    let n = s.unicode_len();
    let mut offset: usize = 0;
    let mut neg = false;
    if n > 0 {
        let c0 = s.get_char(0);
        if c0 == '-' || c0 == '+' {
            offset = 1;
            neg = c0 == '-';
        }
    }
    let ghost t = coord_body(s@);
    proof {
        if has_sign(s@) {
            assert(t =~= s@.skip(1));
        } else {
            assert(t =~= s@.skip(0));
        }
        assert(neg == coord_neg(s@));
        assert(t.len() == n - offset);
    }
    // Integer part: digits until a dot or the end.
    let mut i: usize = offset;
    let mut acc: u64 = 0;
    while i < n
        invariant
            n == s@.len(),
            offset <= 1,
            t == coord_body(s@),
            t == s@.skip(offset as int),
            t.len() == n - offset,
            neg == coord_neg(s@),
            offset <= i <= n,
            forall|j: int| 0 <= j < i - offset ==> t[j] != '.',
            forall|j: int| 0 <= j < i - offset ==> is_digit(#[trigger] t[j]),
            acc == digits_val(t.take(i - offset)),
            acc < COORD_INT_LIMIT,
        ensures
            n == s@.len(),
            offset <= 1,
            t == coord_body(s@),
            t == s@.skip(offset as int),
            t.len() == n - offset,
            neg == coord_neg(s@),
            offset <= i <= n,
            forall|j: int| 0 <= j < i - offset ==> t[j] != '.',
            forall|j: int| 0 <= j < i - offset ==> is_digit(#[trigger] t[j]),
            acc == digits_val(t.take(i - offset)),
            acc < COORD_INT_LIMIT,
            i == n || t[i - offset] == '.',
        decreases n - i,
    {
        let c = s.get_char(i);
        proof {
            assert(t[i - offset] == s@[i as int]);
        }
        if c == '.' {
            break;
        }
        if !(c >= '0' && c <= '9') {
            proof {
                lemma_dot_idx_props(t);
                assert(dot_idx(t) > i - offset);
                assert(int_part(t)[i - offset] == t[i - offset]);
                assert(!all_digits(int_part(t)));
            }
            return None;
        }
        let d: u64 = (c as u32 - 48) as u64;
        proof {
            lemma_digits_val_step(t, i - offset);
            assert(digit_val(t[i - offset]) == d);
        }
        acc = acc * 10 + d;
        i = i + 1;
        if acc >= COORD_INT_LIMIT {
            proof {
                lemma_dot_idx_props(t);
                assert(dot_idx(t) >= i - offset);
                lemma_digits_val_take_monotone(t, i - offset, dot_idx(t));
                assert(digits_val(int_part(t)) >= COORD_INT_LIMIT);
            }
            return None;
        }
    }
    // The integer part ends here: at the end of the cell or at a dot.
    proof {
        lemma_dot_idx_props(t);
        assert(dot_idx(t) == i - offset);
        assert(int_part(t) =~= t.take(i - offset));
    }
    let int_digits = i - offset;
    let mut d1: u64 = 0;
    let mut d2: u64 = 0;
    let mut d3: u64 = 0;
    let mut frac_len: usize = 0;
    let ghost f = frac_part(t);
    if i < n {
        // A dot: every later character must be a digit.
        let fstart = i + 1;
        proof {
            assert(f =~= s@.skip(fstart as int));
            assert(f.len() == n - fstart);
        }
        let mut j = fstart;
        while j < n
            invariant
                n == s@.len(),
                offset <= 1,
                t == coord_body(s@),
                t == s@.skip(offset as int),
                t.len() == n - offset,
                neg == coord_neg(s@),
                fstart == i + 1,
                i < n,
                dot_idx(t) == i - offset,
                f == frac_part(t),
                f == s@.skip(fstart as int),
                f.len() == n - fstart,
                int_digits == i - offset,
                acc == digits_val(int_part(t)),
                acc < COORD_INT_LIMIT,
                all_digits(int_part(t)),
                fstart <= j <= n,
                forall|k: int| 0 <= k < j - fstart ==> is_digit(#[trigger] f[k]),
                d1 == frac_digit(f, 0) || (j - fstart < 1 && d1 == 0),
                d2 == frac_digit(f, 1) || (j - fstart < 2 && d2 == 0),
                d3 == frac_digit(f, 2) || (j - fstart < 3 && d3 == 0),
                j - fstart >= 1 ==> d1 == frac_digit(f, 0),
                j - fstart >= 2 ==> d2 == frac_digit(f, 1),
                j - fstart >= 3 ==> d3 == frac_digit(f, 2),
                d1 <= 9 && d2 <= 9 && d3 <= 9,
            decreases n - j,
        {
            let c = s.get_char(j);
            proof {
                assert(f[j - fstart] == s@[j as int]);
            }
            if !(c >= '0' && c <= '9') {
                proof {
                    assert(!is_digit(f[j - fstart]));
                    assert(!all_digits(frac_part(t)));
                }
                return None;
            }
            let d: u64 = (c as u32 - 48) as u64;
            proof {
                assert(digit_val(f[j - fstart]) == d);
            }
            if j == fstart {
                d1 = d;
            } else if j == fstart + 1 {
                d2 = d;
            } else if j == fstart + 2 {
                d3 = d;
            }
            j = j + 1;
        }
        frac_len = n - fstart;
    } else {
        proof {
            assert(f =~= Seq::<char>::empty());
        }
    }
    proof {
        assert(all_digits(int_part(t)));
        assert(all_digits(f));
        assert(int_part(t).len() == int_digits);
        assert(f.len() == frac_len);
        assert(digits_val(int_part(t)) == acc);
    }
    if int_digits == 0 && frac_len == 0 {
        proof {
            assert(int_part(t).len() + frac_part(t).len() == 0);
        }
        return None;
    }
    proof {
        assert(body_ok(t));
    }
    let centi: u64 = acc * 100 + d1 * 10 + d2 + if d3 >= 5 {
        1
    } else {
        0
    };
    proof {
        assert(frac_digit(f, 0) == d1 && frac_digit(f, 1) == d2 && frac_digit(f, 2) == d3);
        assert(centi == body_centi(t));
    }
    if neg {
        Some(-(centi as i64))
    } else {
        Some(centi as i64)
    }
}

// ---------------------------------------------------------------------
// Rounding a square root to hundredths
// ---------------------------------------------------------------------

/// `sqrt(x)` rounded half up to the nearest integer. With `x` a sum of
/// squares of hundredths, the result is the distance in hundredths.
pub open spec fn round_sqrt(x: nat) -> nat
    decreases x,
{
    if x == 0 {
        0
    } else {
        let p = round_sqrt((x - 1) as nat);
        if 4 * x >= (2 * p + 1) * (2 * p + 1) {
            p + 1
        } else {
            p
        }
    }
}

/// `round_sqrt(x)` is the unique `r` with `(2r-1)^2 <= 4x < (2r+1)^2`.
pub proof fn lemma_round_sqrt_bounds(x: nat)
    ensures
        4 * x < (2 * round_sqrt(x) + 1) * (2 * round_sqrt(x) + 1),
        round_sqrt(x) > 0 ==> (2 * round_sqrt(x) - 1) * (2 * round_sqrt(x) - 1) <= 4 * x,
    decreases x,
{
    if x > 0 {
        lemma_round_sqrt_bounds((x - 1) as nat);
        let p = round_sqrt((x - 1) as nat);
        let r = round_sqrt(x);
        assert(4 * ((x - 1) as nat) < (2 * p + 1) * (2 * p + 1));
        if 4 * x >= (2 * p + 1) * (2 * p + 1) {
            assert(r == p + 1);
            assert(4 * x <= 4 * (x - 1) + 4);
            assert(4 * x < (2 * p + 1) * (2 * p + 1) + 4);
            assert((2 * p + 1) * (2 * p + 1) + 4 <= (2 * p + 3) * (2 * p + 3)) by (nonlinear_arith);
            assert(2 * r + 1 == 2 * p + 3);
            assert((2 * r + 1) * (2 * r + 1) == (2 * p + 3) * (2 * p + 3)) by (nonlinear_arith)
                requires
                    2 * r + 1 == 2 * p + 3,
            ;
            assert(4 * x < (2 * r + 1) * (2 * r + 1));
            assert(2 * r - 1 == 2 * p + 1);
            assert((2 * r - 1) * (2 * r - 1) == (2 * p + 1) * (2 * p + 1)) by (nonlinear_arith)
                requires
                    2 * r - 1 == 2 * p + 1,
            ;
            assert((2 * r - 1) * (2 * r - 1) <= 4 * x);
        } else {
            assert(r == p);
            assert(4 * x < (2 * r + 1) * (2 * r + 1));
            if r > 0 {
                assert((2 * r - 1) * (2 * r - 1) <= 4 * ((x - 1) as nat));
                assert((2 * r - 1) * (2 * r - 1) <= 4 * x);
            }
        }
    } else {
        assert(round_sqrt(x) == 0);
        assert((2 * round_sqrt(x) + 1) * (2 * round_sqrt(x) + 1) == 1) by (nonlinear_arith)
            requires
                round_sqrt(x) == 0,
        ;
    }
}

/// Two values meeting the rounded-root bounds are equal.
pub proof fn lemma_round_sqrt_unique(x: nat, r1: nat, r2: nat)
    requires
        4 * x < (2 * r1 + 1) * (2 * r1 + 1),
        r1 > 0 ==> (2 * r1 - 1) * (2 * r1 - 1) <= 4 * x,
        4 * x < (2 * r2 + 1) * (2 * r2 + 1),
        r2 > 0 ==> (2 * r2 - 1) * (2 * r2 - 1) <= 4 * x,
    ensures
        r1 == r2,
{
    assert(r1 == r2) by (nonlinear_arith)
        requires
            4 * x < (2 * r1 + 1) * (2 * r1 + 1),
            r1 > 0 ==> (2 * r1 - 1) * (2 * r1 - 1) <= 4 * x,
            4 * x < (2 * r2 + 1) * (2 * r2 + 1),
            r2 > 0 ==> (2 * r2 - 1) * (2 * r2 - 1) <= 4 * x,
    ;
}

/// Floor of the square root, by bisection.
fn isqrt_floor(x: u128) -> (r: u128)
    ensures
        (r as int) * (r as int) <= x as int,
        (x as int) < ((r + 1) as int) * ((r + 1) as int),
        r < 0x1_0000_0000_0000_0000,
{
    let mut lo: u128 = 0;
    let mut hi: u128 = 0x1_0000_0000_0000_0000;
    while lo + 1 < hi
        invariant
            lo < hi <= 0x1_0000_0000_0000_0000,
            (lo as int) * (lo as int) <= x as int,
            (x as int) < (hi as int) * (hi as int),
        decreases hi - lo,
    {
        let mid = lo + (hi - lo) / 2;
        proof {
            assert((mid as int) * (mid as int) < 0x1_0000_0000_0000_0000_0000_0000_0000_0000)
                by (nonlinear_arith)
                requires
                    mid < 0x1_0000_0000_0000_0000,
            ;
        }
        if mid * mid <= x {
            lo = mid;
        } else {
            hi = mid;
        }
    }
    lo
}

/// `sqrt(x)` rounded half up, executable. `x` stays within the range a
/// coordinate pair can produce.
pub fn round_sqrt_exec(x: u128) -> (r: u64)
    requires
        x as int <= 8 * (COORD_CENTI_LIMIT as int) * (COORD_CENTI_LIMIT as int),
    ensures
        r == round_sqrt(x as nat),
        r <= DIST_LIMIT,
{
    let f = isqrt_floor(x);
    proof {
        assert((f as int) * (f as int) + f + 1 < 0x1_0000_0000_0000_0000_0000_0000_0000_0000)
            by (nonlinear_arith)
            requires
                f < 0x1_0000_0000_0000_0000,
        ;
    }
    let r128: u128 = if x >= f * f + f + 1 {
        f + 1
    } else {
        f
    };
    proof {
        lemma_round_sqrt_bounds(x as nat);
        assert(4 * (x as int) < (2 * r128 + 1) * (2 * r128 + 1) && (r128 > 0 ==> (2 * r128 - 1) * (2
            * r128 - 1) <= 4 * (x as int))) by (nonlinear_arith)
            requires
                (f as int) * (f as int) <= x as int,
                (x as int) < ((f + 1) as int) * ((f + 1) as int),
                f < 0x1_0000_0000_0000_0000,
                r128 == if (x as int) >= (f as int) * (f as int) + f + 1 {
                    (f + 1) as int
                } else {
                    f as int
                },
        ;
        lemma_round_sqrt_unique(x as nat, r128 as nat, round_sqrt(x as nat));
        assert((r128 as int) <= DIST_LIMIT as int) by (nonlinear_arith)
            requires
                r128 > 0 ==> (2 * r128 - 1) * (2 * r128 - 1) <= 4 * (x as int),
                x as int <= 8 * (COORD_CENTI_LIMIT as int) * (COORD_CENTI_LIMIT as int),
        ;
    }
    r128 as u64
}

// ---------------------------------------------------------------------
// The distance of one event
// ---------------------------------------------------------------------

/// Distance in hundredths between two points given in hundredths.
pub open spec fn spec_distance(kx: int, ky: int, vx: int, vy: int) -> nat {
    round_sqrt((((kx - vx) * (kx - vx)) + ((ky - vy) * (ky - vy))) as nat)
}

/// Computes the rounded distance between killer and victim positions.
pub fn distance_hundredths(kx: i64, ky: i64, vx: i64, vy: i64) -> (r: u64)
    requires
        -(COORD_CENTI_LIMIT as int) <= kx <= COORD_CENTI_LIMIT as int,
        -(COORD_CENTI_LIMIT as int) <= ky <= COORD_CENTI_LIMIT as int,
        -(COORD_CENTI_LIMIT as int) <= vx <= COORD_CENTI_LIMIT as int,
        -(COORD_CENTI_LIMIT as int) <= vy <= COORD_CENTI_LIMIT as int,
    ensures
        r == spec_distance(kx as int, ky as int, vx as int, vy as int),
        r <= DIST_LIMIT,
{
    let dx: i128 = kx as i128 - vx as i128;
    let dy: i128 = ky as i128 - vy as i128;
    proof {
        assert(0 <= (dx as int) * (dx as int) <= 4 * (COORD_CENTI_LIMIT as int) * (
        COORD_CENTI_LIMIT as int) && 0 <= (dy as int) * (dy as int) <= 4 * (COORD_CENTI_LIMIT as int)
            * (COORD_CENTI_LIMIT as int)) by (nonlinear_arith)
            requires
                -(2 * COORD_CENTI_LIMIT as int) <= dx as int <= 2 * COORD_CENTI_LIMIT as int,
                -(2 * COORD_CENTI_LIMIT as int) <= dy as int <= 2 * COORD_CENTI_LIMIT as int,
        ;
    }
    let sq: u128 = (dx * dx) as u128 + (dy * dy) as u128;
    round_sqrt_exec(sq)
}

} // verus!
