//! Move scores, safety checks and move categories.

use vstd::prelude::*;

use crate::float_bits;
use crate::float_bits::{coarse_of, divide_half_even, round_signed};
use crate::pruners::go::board;
use crate::pruners::go::board::{board_neighbors, flood_group, GoCell};
use crate::pruners::go::state;
use crate::pruners::go::state::{GoAction, GoState};

verus! {

/// Number of move categories.
pub const NUM_CATEGORIES: usize = 8;

/// Scores are counted in units of `2^-57`, which hold every single-precision number that
/// occurs in them.
pub const UNIT: i128 = 0x200_0000_0000_0000;

/// Half a score.
pub const HALF_UNIT: i128 = 0x100_0000_0000_0000;

/// Move categories for bandit-driven player.
#[derive(Clone, Copy, Debug, PartialEq, Eq, Structural, Hash)]
pub enum GoMoveCategory {
    /// Corner star points (4-4, 3-3).
    CornerStar,
    /// Side positions on 3rd/4th line.
    SideApproach,
    /// Center region.
    CenterControl,
    /// Moves that capture opponent stones.
    Capture,
    /// Moves that save own groups in atari.
    Defend,
    /// Moves that connect to own stones.
    Extend,
    /// Moves in large empty areas.
    Influence,
    /// Endgame pass.
    Pass,
}

impl GoMoveCategory {
    /// The category's arm.
    pub open spec fn arm(self) -> int {
        match self {
            GoMoveCategory::CornerStar => 0,
            GoMoveCategory::SideApproach => 1,
            GoMoveCategory::CenterControl => 2,
            GoMoveCategory::Capture => 3,
            GoMoveCategory::Defend => 4,
            GoMoveCategory::Extend => 5,
            GoMoveCategory::Influence => 6,
            GoMoveCategory::Pass => 7,
        }
    }

    /// Number of categories.
    pub fn count() -> (n: usize)
        ensures
            n == NUM_CATEGORIES,
    {
        NUM_CATEGORIES
    }

    /// The category's arm.
    pub fn index(&self) -> (i: usize)
        ensures
            i == self.arm(),
            i < NUM_CATEGORIES,
    {
        match self {
            GoMoveCategory::CornerStar => 0,
            GoMoveCategory::SideApproach => 1,
            GoMoveCategory::CenterControl => 2,
            GoMoveCategory::Capture => 3,
            GoMoveCategory::Defend => 4,
            GoMoveCategory::Extend => 5,
            GoMoveCategory::Influence => 6,
            GoMoveCategory::Pass => 7,
        }
    }
}

/// The distance of two integers.
pub open spec fn gap(a: int, b: int) -> int {
    if a < b {
        b - a
    } else {
        a - b
    }
}

/// The absolute value.
pub open spec fn magnitude(n: int) -> int {
    if n < 0 {
        -n
    } else {
        n
    }
}

/// `a / b` in score units, rounded to single precision.
pub open spec fn quotient(a: nat, b: nat) -> nat {
    let x = a * 0x200_0000_0000_0000nat;
    let g = float_bits::coarse(x / b);
    float_bits::round_half_even(x, b * g) * g
}

/// Twice the distance of line `x` from the middle of a board whose last line is `m`, rounded
/// to single precision at each step.
pub open spec fn offset(x: nat, m: nat) -> nat {
    float_bits::round24(
        gap(2 * float_bits::round24(x) as int, float_bits::round24(m) as int) as nat,
    )
}

/// Center proximity in score units: one at the center, zero at the corners.
pub open spec fn center_units(row: int, col: int, size: int) -> int {
    let m = (size - 1) as nat;
    if m == 0 {
        UNIT as int
    } else {
        let off = float_bits::round24(offset(row as nat, m) + offset(col as nat, m));
        float_bits::round24_signed(UNIT - quotient(off, 2 * float_bits::round24(m)))
    }
}

/// A hostile stone whose group is in atari.
pub open spec fn in_atari(b: Seq<GoCell>, size: nat, opp: GoCell, p: int) -> bool {
    b[p] == opp && board::liberties_of(b, size, p).len() == 1
}

/// The hostile groups in atari that the first `n` points of the list belong to.
pub open spec fn groups_in_atari(
    b: Seq<GoCell>,
    size: nat,
    opp: GoCell,
    list: Seq<int>,
    n: int,
) -> Set<Set<int>> {
    Set::new(
        |g: Set<int>|
            exists|i: int|
                0 <= i < n && in_atari(b, size, opp, #[trigger] list[i]) && g == board::group_of(
                    b,
                    size,
                    list[i],
                ),
    )
}

/// True on the first board line.
pub open spec fn on_edge(row: int, col: int, size: int) -> bool {
    row == 0 || row == size - 1 || col == 0 || col == size - 1
}

/// What the side to move gains in captured stones by a stone at `idx`.
pub open spec fn gain(s: &GoState, idx: int) -> int {
    let before = if s.to_play is Black {
        s.captured_black
    } else {
        s.captured_white
    };
    state::capped_sum(before, s.captures_at(idx) as int) - before
}

/// Five points more for each of `n` hostile groups in atari.
pub open spec fn with_threats(points: int, n: nat) -> int
    decreases n,
{
    if n == 0 {
        points
    } else {
        float_bits::round24_signed(with_threats(points, (n - 1) as nat) + 5 * UNIT)
    }
}

/// Ten points for each captured stone and half a point for each liberty.
pub open spec fn material(captures: nat, libs: nat) -> int {
    float_bits::round24_signed(
        float_bits::round24(10 * float_bits::round24(captures)) * UNIT + float_bits::round24(libs)
            * HALF_UNIT,
    )
}

/// The score of a move, in units of `2^-57`: ten for each captured stone, half for each
/// liberty, five for each hostile group left in atari, up to two for the center, less three on
/// an uncapturing edge move and twenty when the own group is left in atari. Every count,
/// product and sum is rounded to single precision.
pub open spec fn score(s: &GoState, row: int, col: int) -> int {
    let size = s.size as nat;
    let idx = s.index(row, col);
    let after = s.board_after(idx);
    let captures = gain(s, idx);
    let libs = board::liberties_of(after, size, idx).len();
    let list = board::neighbors(idx, size);
    let threats = groups_in_atari(after, size, s.to_play.other(), list, list.len() as int).len();
    let threatening = with_threats(material(captures as nat, libs), threats);
    let centered = float_bits::round24_signed(
        threatening + 2 * center_units(row, col, s.size as int),
    );
    let edged = if captures == 0 && on_edge(row, col, s.size as int) {
        float_bits::round24_signed(centered - 3 * UNIT)
    } else {
        centered
    };
    if libs == 1 {
        float_bits::round24_signed(edged - 20 * UNIT)
    } else {
        edged
    }
}

/// True when every neighbour is an own stone.
pub open spec fn fills_eye(b: Seq<GoCell>, size: nat, idx: int, me: GoCell) -> bool {
    let list = board::neighbors(idx, size);
    list.len() > 0 && forall|j: int| 0 <= j < list.len() ==> b[#[trigger] list[j]] == me
}

/// True when a move breaks no safety rule: it captures, or it neither leaves a group of three
/// or more stones in atari nor fills an own eye.
pub open spec fn sound_move(s: &GoState, row: int, col: int) -> bool {
    let size = s.size as nat;
    let idx = s.index(row, col);
    let after = s.board_after(idx);
    gain(s, idx) > 0 || (!(board::group_of(after, size, idx).len() >= 3 && board::liberties_of(
        after,
        size,
        idx,
    ).len() == 1) && !fills_eye(s.board@, size, idx, s.to_play))
}

/// True when a neighbour belongs to an own group with that many liberties.
pub open spec fn beside_own_group(
    b: Seq<GoCell>,
    size: nat,
    idx: int,
    me: GoCell,
    least: nat,
    most: nat,
) -> bool {
    let list = board::neighbors(idx, size);
    exists|j: int|
        0 <= j < list.len() && b[#[trigger] list[j]] == me && least <= board::liberties_of(
            b,
            size,
            list[j],
        ).len() <= most
}

/// True when a neighbour belongs to an own group with at most two liberties.
pub open spec fn defends(b: Seq<GoCell>, size: nat, idx: int, me: GoCell) -> bool {
    beside_own_group(b, size, idx, me, 0, 2)
}

/// True when a neighbour belongs to an own group in atari.
pub open spec fn saves(b: Seq<GoCell>, size: nat, idx: int, me: GoCell) -> bool {
    beside_own_group(b, size, idx, me, 1, 1)
}

/// True when a neighbour is an own stone.
pub open spec fn extends(b: Seq<GoCell>, size: nat, idx: int, me: GoCell) -> bool {
    let list = board::neighbors(idx, size);
    exists|j: int| 0 <= j < list.len() && b[#[trigger] list[j]] == me
}

/// The lines that star points lie on, for the board sizes that have them.
pub open spec fn star_line(x: int, size: int) -> bool {
    if size == 13 {
        x == 3 || x == 6 || x == 9
    } else {
        x == 3 || x == 9 || x == 15
    }
}

/// True on a star point.
pub open spec fn on_star(row: int, col: int, size: int) -> bool {
    if size == 9 {
        ((row == 2 || row == 6) && (col == 2 || col == 6)) || (row == 4 && col == 4)
    } else if size == 13 || size == 19 {
        star_line(row, size) && star_line(col, size)
    } else {
        false
    }
}

/// `a - b`, at least zero.
pub open spec fn floored(a: int, b: int) -> int {
    if a < b {
        0
    } else {
        a - b
    }
}

/// True on the third or fourth line from an edge.
pub open spec fn side_coordinate(x: int, size: int) -> bool {
    x == 2 || x == 3 || x == floored(size, 3) || x == floored(size, 4)
}

/// True within one of the middle of the board.
pub open spec fn middle_coordinate(x: int, size: int) -> bool {
    floored(size / 2, 1) <= x <= size / 2 + 1
}

/// True for a side approach: on a side line, but not in the middle of the board.
pub open spec fn on_side(row: int, col: int, size: int) -> bool {
    (side_coordinate(row, size) || side_coordinate(col, size)) && !(middle_coordinate(row, size)
        && middle_coordinate(col, size))
}

/// True when the root of `n`, rounded to single precision, is below `t / 2`: when it lies below
/// the midpoint of `t / 2` and the number just under it.
pub open spec fn root_below_half(n: nat, t: nat) -> bool {
    let fine = t * 0x100_0000;
    let mid = 2 * fine - float_bits::coarse((fine - 1) as nat);
    n * 0x10_0000_0000_0000 < mid * mid
}

/// True nearer to the center than a quarter of the board, each step rounded to single
/// precision.
pub open spec fn in_center(row: int, col: int, size: int) -> bool {
    let m = (size - 1) as nat;
    let r = offset(row as nat, m);
    let c = offset(col as nat, m);
    let squares = float_bits::round24(float_bits::round24(r * r) + float_bits::round24(c * c));
    root_below_half(squares, float_bits::round24(size as nat))
}

/// The category of a move.
pub open spec fn category(s: &GoState, row: int, col: int) -> GoMoveCategory {
    let size = s.size as nat;
    let idx = s.index(row, col);
    if gain(s, idx) > 0 {
        GoMoveCategory::Capture
    } else if saves(s.board@, size, idx, s.to_play) {
        GoMoveCategory::Defend
    } else if extends(s.board@, size, idx, s.to_play) {
        GoMoveCategory::Extend
    } else if on_star(row, col, s.size as int) {
        GoMoveCategory::CornerStar
    } else if on_side(row, col, s.size as int) {
        GoMoveCategory::SideApproach
    } else if in_center(row, col, s.size as int) {
        GoMoveCategory::CenterControl
    } else {
        GoMoveCategory::Influence
    }
}

/// Stones captured by `me` between two states (before → after).
pub fn captures_for(me: GoCell, before: &GoState, after: &GoState) -> (n: u32)
    ensures
        n == (match me {
            GoCell::Black => floored(after.captured_black as int, before.captured_black as int),
            GoCell::White => floored(after.captured_white as int, before.captured_white as int),
            GoCell::Empty => 0,
        }),
{
    match me {
        GoCell::Black => after.captured_black.saturating_sub(before.captured_black),
        GoCell::White => after.captured_white.saturating_sub(before.captured_white),
        GoCell::Empty => 0,
    }
}

/// True if (row, col) is on the first board line (edge).
pub fn is_first_line(row: usize, col: usize, size: usize) -> (b: bool)
    requires
        0 < size,
    ensures
        b == on_edge(row as int, col as int, size as int),
{
    row == 0 || row == size - 1 || col == 0 || col == size - 1
}

/// A sum rounded to single precision.
fn rounded(n: i128) -> (r: i128)
    requires
        magnitude(n as int) <= 0x800_0000_0000_0000_0000_0000_0000_0000,
    ensures
        r == float_bits::round24_signed(n as int),
        magnitude(r as int) <= magnitude(n as int) + 0x10_0000_0000_0000_0000_0000_0000,
{
    proof {
        float_bits::lemma_round24_bound(magnitude(n as int) as nat);
    }
    round_signed(n)
}

/// A count rounded to single precision.
fn rounded_count(n: u128) -> (r: u128)
    requires
        n <= 0x800_0000_0000_0000_0000_0000_0000_0000,
    ensures
        r == float_bits::round24(n as nat),
        r <= 2 * n,
{
    proof {
        float_bits::lemma_round24_bound(n as nat);
    }
    round_signed(n as i128) as u128
}

/// A side whose square fits in a `usize` has at most half its bits.
proof fn lemma_side_is_small(size: usize)
    requires
        size * size <= usize::MAX,
    ensures
        size <= 0xFFFF_FFFF,
{
    if size > 0xFFFF_FFFF {
        assert(size * size >= 0x1_0000_0000 * 0x1_0000_0000) by (nonlinear_arith)
            requires
                size >= 0x1_0000_0000,
        ;
    }
}

fn offset_of(x: usize, m: usize) -> (r: u128)
    requires
        x <= 0xFFFF_FFFF,
        m <= 0xFFFF_FFFF,
    ensures
        r == offset(x as nat, m as nat),
        r <= 0x8_0000_0000,
{
    let a: u128 = 2 * rounded_count(x as u128);
    let b: u128 = rounded_count(m as u128);
    let g: u128 = if a < b {
        b - a
    } else {
        a - b
    };
    rounded_count(g)
}

fn quotient_of(a: u128, b: u128) -> (q: u128)
    requires
        a <= 0x20_0000_0000,
        0 < b <= 0x4_0000_0000,
    ensures
        q == quotient(a as nat, b as nat),
        q <= 0x8000_0000_0000_0000_0000_0000,
{
    let x: u128 = a * 0x200_0000_0000_0000;
    let g: u128 = coarse_of(x / b);
    proof {
        let w = (x / b) as int;
        float_bits::lemma_coarse(w as nat);
        assert(0 <= w && w * b <= x) by (nonlinear_arith)
            requires
                w == x as int / b as int,
                b >= 1,
        ;
        assert(w <= x) by (nonlinear_arith)
            requires
                w * b <= x,
                b >= 1,
                w >= 0,
        ;
        assert(1 <= b * g <= 0x4_0000_0000 * 0x100_0000_0000_0000_0000_0000) by (nonlinear_arith)
            requires
                1 <= b <= 0x4_0000_0000,
                1 <= g <= 0x100_0000_0000_0000_0000_0000,
        ;
    }
    let q: u128 = divide_half_even(x, b * g);
    proof {
        let d = (b * g) as int;
        let w = x as int / d;
        assert(q <= w + 1);
        assert(w * d <= x && w * g <= x) by (nonlinear_arith)
            requires
                w == x as int / d,
                d == b * g,
                b >= 1,
                g >= 1,
                x >= 0,
        ;
        assert(0 <= q * g <= w * g + g) by (nonlinear_arith)
            requires
                0 <= q <= w + 1,
                g >= 1,
        ;
    }
    q * g
}

/// Center proximity bonus in score units: one at center, zero at corners.
pub fn center_bonus(row: usize, col: usize, size: usize) -> (units: i128)
    requires
        row < size,
        col < size,
        size * size <= usize::MAX,
    ensures
        units == center_units(row as int, col as int, size as int),
        magnitude(units as int) <= 0x20_0000_0000_0000_0000_0000_0000,
{
    let m: usize = size - 1;
    if m == 0 {
        return UNIT;
    }
    proof {
        lemma_side_is_small(size);
        float_bits::lemma_round24_bound(1);
        float_bits::law_round24_keeps_order(1, m as nat);
    }
    let off: u128 = rounded_count(offset_of(row, m) + offset_of(col, m));
    let q: u128 = quotient_of(off, 2 * rounded_count(m as u128));
    rounded(UNIT - q as i128)
}

/// One score needs no rounding.
proof fn lemma_unit_is_exact()
    ensures
        float_bits::coarse(0x200_0000_0000_0000) == 0x4_0000_0000,
        float_bits::round24_signed(UNIT as int) == UNIT,
{
    reveal_with_fuel(float_bits::coarse, 36);
    float_bits::lemma_exact(0x80_0000, 0x4_0000_0000);
}

/// A number divided by itself is one.
proof fn lemma_unit_quotient(b: nat)
    requires
        0 < b,
    ensures
        quotient(b, b) == UNIT,
{
    let x = b * 0x200_0000_0000_0000nat;
    let g = 0x4_0000_0000nat;
    lemma_unit_is_exact();
    vstd::arithmetic::div_mod::lemma_div_multiples_vanish(0x200_0000_0000_0000, b as int);
    assert(x == 0x80_0000 * (b * g)) by (nonlinear_arith)
        requires
            x == b * 0x200_0000_0000_0000nat,
            g == 0x4_0000_0000nat,
    ;
    assert(b * g > 0) by (nonlinear_arith)
        requires
            b > 0,
            g > 0,
    ;
    float_bits::lemma_exact(0x80_0000, b * g);
}

/// Nothing divided is nothing.
proof fn lemma_nothing_divided(b: nat)
    requires
        0 < b,
    ensures
        quotient(0, b) == 0,
{
    let x = 0nat * 0x200_0000_0000_0000nat;
    assert(x == 0);
    assert(x / b == 0) by (nonlinear_arith)
        requires
            x == 0,
            b > 0,
    ;
    let g = float_bits::coarse(x / b);
    assert(g == 1);
    let d = b * g;
    assert(d == b && 0 * d == 0) by (nonlinear_arith)
        requires
            g == 1,
            d == b * g,
    ;
    float_bits::lemma_exact(0, d);
    assert(float_bits::round_half_even(x, d) == 0);
}

/// The center bonus is zero in each corner and one on the middle point of an odd board.
pub proof fn law_center_bonus_ends(row: int, col: int, size: int)
    requires
        1 < size,
        row == 0 || row == size - 1 || 2 * row == size - 1 && size < 0x100_0000,
        col == 0 || col == size - 1 || 2 * col == size - 1 && size < 0x100_0000,
        2 * row == size - 1 <==> 2 * col == size - 1,
    ensures
        center_units(row, col, size) == (if 2 * row == size - 1 {
            UNIT as int
        } else {
            0
        }),
{
    let m = (size - 1) as nat;
    let top = float_bits::round24(m);
    float_bits::lemma_round24_bound(0);
    float_bits::lemma_round24_bound(1);
    float_bits::law_round24_keeps_order(1, m);
    float_bits::law_round24_is_idempotent(m);
    if 2 * row == size - 1 {
        float_bits::lemma_round24_bound(row as nat);
        float_bits::lemma_round24_bound(m);
        assert(offset(row as nat, m) == 0);
        assert(offset(col as nat, m) == 0);
        lemma_nothing_divided(2 * top);
    } else {
        assert(offset(row as nat, m) == top);
        assert(offset(col as nat, m) == top);
        float_bits::lemma_round24_of_double(top);
        lemma_unit_quotient(2 * top);
    }
    lemma_unit_is_exact();
}

/// True if (row, col) is a corner star point for the given board size.
pub fn is_star_point(row: usize, col: usize, size: usize) -> (b: bool)
    ensures
        b == on_star(row as int, col as int, size as int),
{
    match size {
        9 => ((row == 2 || row == 6) && (col == 2 || col == 6)) || (row == 4 && col == 4),
        13 => (row == 3 || row == 6 || row == 9) && (col == 3 || col == 6 || col == 9),
        19 => (row == 3 || row == 9 || row == 15) && (col == 3 || col == 9 || col == 15),
        _ => false,
    }
}

/// True if (row, col) is on the 3rd or 4th line from any edge (side approach).
pub fn is_side_line(row: usize, col: usize, size: usize) -> (b: bool)
    ensures
        b == on_side(row as int, col as int, size as int),
{
    let ls3: usize = size.saturating_sub(3);
    let ls4: usize = size.saturating_sub(4);
    let row_on: bool = row == 2 || row == 3 || row == ls3 || row == ls4;
    let col_on: bool = col == 2 || col == 3 || col == ls3 || col == ls4;
    if !row_on && !col_on {
        return false;
    }
    let c: usize = size / 2;
    let low: usize = c.saturating_sub(1);
    !(row >= low && row <= c + 1 && col >= low && col <= c + 1)
}

/// True if (row, col) is in the center region of the board.
pub fn is_center_region(row: usize, col: usize, size: usize) -> (b: bool)
    requires
        row < size,
        col < size,
        size * size <= usize::MAX,
    ensures
        b == in_center(row as int, col as int, size as int),
{
    proof {
        lemma_side_is_small(size);
        float_bits::lemma_round24_bound(1);
        float_bits::law_round24_keeps_order(1, size as nat);
    }
    let m: usize = size - 1;
    let r: u128 = offset_of(row, m);
    let c: u128 = offset_of(col, m);
    proof {
        assert(r * r <= 0x8_0000_0000 * 0x8_0000_0000) by (nonlinear_arith)
            requires
                0 <= r <= 0x8_0000_0000,
        ;
        assert(c * c <= 0x8_0000_0000 * 0x8_0000_0000) by (nonlinear_arith)
            requires
                0 <= c <= 0x8_0000_0000,
        ;
    }
    let squares: u128 = rounded_count(rounded_count(r * r) + rounded_count(c * c));
    let fine: u128 = rounded_count(size as u128) * 0x100_0000;
    let step: u128 = coarse_of(fine - 1);
    proof {
        float_bits::lemma_coarse((fine - 1) as nat);
    }
    let mid: u128 = 2 * fine - step;
    assert(mid * mid <= 0x1000_0000_0000_0000 * 0x1000_0000_0000_0000) by (nonlinear_arith)
        requires
            0 <= mid <= 0x1000_0000_0000_0000,
    ;
    squares * 0x10_0000_0000_0000 < mid * mid
}

/// On a small board the center region is that of the exact distance.
pub proof fn law_center_region_is_exact(row: int, col: int, size: int)
    requires
        0 <= row < size <= 512,
        0 <= col < size,
    ensures
        in_center(row, col, size) == ({
            let r = 2 * row - (size - 1);
            let c = 2 * col - (size - 1);
            4 * (r * r + c * c) < size * size
        }),
{
    let m = (size - 1) as nat;
    float_bits::lemma_round24_bound(row as nat);
    float_bits::lemma_round24_bound(col as nat);
    float_bits::lemma_round24_bound(m);
    float_bits::lemma_round24_bound(size as nat);
    let r = gap(2 * row, m as int);
    let c = gap(2 * col, m as int);
    float_bits::lemma_round24_bound(r as nat);
    float_bits::lemma_round24_bound(c as nat);
    assert(0 <= r * r <= 512 * 512 && r * r == (2 * row - m) * (2 * row - m)) by (nonlinear_arith)
        requires
            0 <= r <= 512,
            r == 2 * row - m || r == m - 2 * row,
    ;
    assert(0 <= c * c <= 512 * 512 && c * c == (2 * col - m) * (2 * col - m)) by (nonlinear_arith)
        requires
            0 <= c <= 512,
            c == 2 * col - m || c == m - 2 * col,
    ;
    float_bits::lemma_round24_bound((r * r) as nat);
    float_bits::lemma_round24_bound((c * c) as nat);
    let s = r * r + c * c;
    float_bits::lemma_round24_bound(s as nat);
    let fine = size * 0x100_0000;
    let step = float_bits::coarse((fine - 1) as nat) as int;
    float_bits::lemma_coarse((fine - 1) as nat);
    let mid = 2 * fine - step;
    assert(1 <= step <= 2 * size);
    assert(4 * s < size * size ==> s * 0x10_0000_0000_0000 < mid * mid) by (nonlinear_arith)
        requires
            mid == size * 0x200_0000 - step,
            1 <= step <= 2 * size,
            1 <= size <= 512,
    ;
    assert(s * 0x10_0000_0000_0000 < mid * mid ==> 4 * s < size * size) by (nonlinear_arith)
        requires
            mid == size * 0x200_0000 - step,
            1 <= step <= 2 * size,
            1 <= size <= 512,
    ;
}

/// The neighbours of a point of a board.
fn neighbors_on(b: &Vec<GoCell>, size: usize, idx: usize) -> (r: Vec<usize>)
    requires
        board::is_board(b@, size as nat),
        idx < b@.len(),
    ensures
        r@.len() == board::neighbors(idx as int, size as nat).len(),
        forall|i: int|
            0 <= i < r@.len() ==> #[trigger] r@[i] < b@.len() && r@[i] as int == board::neighbors(
                idx as int,
                size as nat,
            )[i],
{
    let total: usize = b.len();
    assert(total == size * size);
    board_neighbors(idx, size)
}

fn liberty_count(b: &Vec<GoCell>, p: usize, size: usize) -> (n: usize)
    requires
        board::is_board(b@, size as nat),
        p < b@.len(),
        !(b@[p as int] is Empty),
    ensures
        n == board::liberties_of(b@, size as nat, p as int).len(),
        n <= b@.len(),
{
    let (_group, libs) = flood_group(b.as_slice(), p, size);
    proof {
        lemma_set_on_board(board::liberties_of(b@, size as nat, p as int), b@.len());
    }
    libs.len()
}

/// A set of points has at most as many members as the board.
proof fn lemma_set_on_board(set: Set<int>, n: nat)
    requires
        forall|c: int| #[trigger] set.contains(c) ==> 0 <= c < n,
    ensures
        set.finite(),
        set.len() <= n,
{
    let all = vstd::set_lib::set_int_range(0, n as int);
    vstd::set_lib::lemma_int_range(0, n as int);
    assert(set.subset_of(all));
    vstd::set_lib::lemma_len_subset(set, all);
}

fn is_beside_own_group(s: &GoState, idx: usize, least: usize, most: usize) -> (b: bool)
    requires
        s.wf(),
        idx < s.board@.len(),
    ensures
        b == beside_own_group(
            s.board@,
            s.size as nat,
            idx as int,
            s.to_play,
            least as nat,
            most as nat,
        ),
{
    let around = neighbors_on(&s.board, s.size, idx);
    let ghost list = board::neighbors(idx as int, s.size as nat);
    let mut i: usize = 0;
    while i < around.len()
        invariant
            i <= around.len(),
            s.wf(),
            around@.len() == list.len(),
            list == board::neighbors(idx as int, s.size as nat),
            forall|j: int|
                0 <= j < around@.len() ==> #[trigger] around@[j] < s.board@.len()
                    && around@[j] as int == list[j],
            forall|j: int|
                0 <= j < i ==> !(s.board@[#[trigger] list[j]] == s.to_play && least
                    <= board::liberties_of(s.board@, s.size as nat, list[j]).len() <= most),
        decreases around.len() - i,
    {
        let n: usize = around[i];
        assert(list[i as int] == n);
        if s.board[n] == s.to_play {
            let libs: usize = liberty_count(&s.board, n, s.size);
            if least <= libs && libs <= most {
                return true;
            }
        }
        i = i + 1;
    }
    false
}

/// Check if move at `idx` is adjacent to an own group with at most two liberties (defend).
pub fn is_defend_move(s: &GoState, idx: usize) -> (b: bool)
    requires
        s.wf(),
        idx < s.board@.len(),
    ensures
        b == defends(s.board@, s.size as nat, idx as int, s.to_play),
{
    is_beside_own_group(s, idx, 0, 2)
}

/// Check if move at `idx` is adjacent to an own group in atari.
pub fn is_saving_move(s: &GoState, idx: usize) -> (b: bool)
    requires
        s.wf(),
        idx < s.board@.len(),
    ensures
        b == saves(s.board@, s.size as nat, idx as int, s.to_play),
{
    is_beside_own_group(s, idx, 1, 1)
}

fn is_extend_move(s: &GoState, idx: usize) -> (b: bool)
    requires
        s.wf(),
        idx < s.board@.len(),
    ensures
        b == extends(s.board@, s.size as nat, idx as int, s.to_play),
{
    let around = neighbors_on(&s.board, s.size, idx);
    let ghost list = board::neighbors(idx as int, s.size as nat);
    let mut i: usize = 0;
    while i < around.len()
        invariant
            i <= around.len(),
            s.wf(),
            around@.len() == list.len(),
            list == board::neighbors(idx as int, s.size as nat),
            forall|j: int|
                0 <= j < around@.len() ==> #[trigger] around@[j] < s.board@.len()
                    && around@[j] as int == list[j],
            forall|j: int| 0 <= j < i ==> s.board@[#[trigger] list[j]] != s.to_play,
        decreases around.len() - i,
    {
        let n: usize = around[i];
        assert(list[i as int] == n);
        if s.board[n] == s.to_play {
            return true;
        }
        i = i + 1;
    }
    false
}

fn fills_own_eye(s: &GoState, idx: usize) -> (b: bool)
    requires
        s.wf(),
        idx < s.board@.len(),
    ensures
        b == fills_eye(s.board@, s.size as nat, idx as int, s.to_play),
{
    let around = neighbors_on(&s.board, s.size, idx);
    let ghost list = board::neighbors(idx as int, s.size as nat);
    if around.len() == 0 {
        return false;
    }
    let mut i: usize = 0;
    while i < around.len()
        invariant
            i <= around.len(),
            s.wf(),
            around@.len() == list.len(),
            around@.len() > 0,
            list == board::neighbors(idx as int, s.size as nat),
            forall|j: int|
                0 <= j < around@.len() ==> #[trigger] around@[j] < s.board@.len()
                    && around@[j] as int == list[j],
            forall|j: int| 0 <= j < i ==> s.board@[#[trigger] list[j]] == s.to_play,
        decreases around.len() - i,
    {
        let n: usize = around[i];
        assert(list[i as int] == n);
        if s.board[n] != s.to_play {
            return false;
        }
        i = i + 1;
    }
    true
}

/// True when one of the first `n` points of `around` is in the group.
spec fn meets_first(group: Seq<usize>, around: Seq<usize>, n: int) -> bool {
    exists|j: int| 0 <= j < n && group.contains(#[trigger] around[j])
}

fn meets(group: &Vec<usize>, around: &Vec<usize>, n: usize) -> (b: bool)
    requires
        n <= around@.len(),
    ensures
        b == meets_first(group@, around@, n as int),
{
    let mut i: usize = 0;
    while i < group.len()
        invariant
            i <= group.len(),
            n <= around@.len(),
            forall|k: int, j: int|
                0 <= k < i && 0 <= j < n ==> #[trigger] group@[k] != #[trigger] around@[j],
        decreases group.len() - i,
    {
        let mut j: usize = 0;
        while j < n
            invariant
                i < group.len(),
                j <= n <= around@.len(),
                forall|m: int| 0 <= m < j ==> group@[i as int] != #[trigger] around@[m],
            decreases n - j,
        {
            if group[i] == around[j] {
                assert(group@.contains(around@[j as int]));
                return true;
            }
            j = j + 1;
        }
        i = i + 1;
    }
    false
}

/// One more point adds its group, unless the group is met already.
proof fn lemma_groups_in_atari(
    b: Seq<GoCell>,
    size: nat,
    opp: GoCell,
    list: Seq<int>,
    n: int,
)
    requires
        board::is_board(b, size),
        !(opp is Empty),
        0 <= n < list.len(),
        forall|i: int| 0 <= i < list.len() ==> 0 <= #[trigger] list[i] < b.len(),
        groups_in_atari(b, size, opp, list, n).finite(),
    ensures
        ({
            let before = groups_in_atari(b, size, opp, list, n);
            let after = groups_in_atari(b, size, opp, list, n + 1);
            let group = board::group_of(b, size, list[n]);
            let met = exists|j: int| 0 <= j < n && group.contains(#[trigger] list[j]);
            &&& after.finite()
            &&& after.len() == before.len() + (if in_atari(b, size, opp, list[n]) && !met {
                1int
            } else {
                0
            })
        }),
{
    let before = groups_in_atari(b, size, opp, list, n);
    let after = groups_in_atari(b, size, opp, list, n + 1);
    let p = list[n];
    let group = board::group_of(b, size, p);
    if !in_atari(b, size, opp, p) {
        assert(after =~= before);
    } else {
        assert(after =~= before.insert(group)) by {
            assert(after.contains(group)) by {
                assert(in_atari(b, size, opp, list[n]));
            }
            assert forall|g: Set<int>| before.contains(g) implies after.contains(g) by {
                let i = choose|i: int|
                    0 <= i < n && in_atari(b, size, opp, #[trigger] list[i]) && g
                        == board::group_of(b, size, list[i]);
                assert(in_atari(b, size, opp, list[i]));
            }
        }
        if exists|j: int| 0 <= j < n && group.contains(#[trigger] list[j]) {
            let j = choose|j: int| 0 <= j < n && group.contains(#[trigger] list[j]);
            board::law_group_is_shared(b, size, p, list[j]);
            let k = choose|k: nat| board::joined(b, size, p, list[j], k);
            board::lemma_group_color(b, size, p, list[j], k);
            assert(in_atari(b, size, opp, list[j]));
            assert(before.contains(group));
        } else {
            if before.contains(group) {
                let i = choose|i: int|
                    0 <= i < n && in_atari(b, size, opp, #[trigger] list[i]) && group
                        == board::group_of(b, size, list[i]);
                assert(board::joined(b, size, list[i], list[i], 0));
                assert(group.contains(list[i]));
            }
        }
    }
}

/// Counts the hostile groups in atari beside a point.
fn count_ataris(b: &Vec<GoCell>, size: usize, idx: usize, opp: GoCell) -> (n: usize)
    requires
        board::is_board(b@, size as nat),
        idx < b@.len(),
        !(opp is Empty),
    ensures
        ({
            let list = board::neighbors(idx as int, size as nat);
            n == groups_in_atari(b@, size as nat, opp, list, list.len() as int).len()
        }),
        n <= 4,
{
    let around = neighbors_on(b, size, idx);
    let ghost list = board::neighbors(idx as int, size as nat);
    proof {
        board::lemma_neighbors(idx as int, size as nat);
        assert(groups_in_atari(b@, size as nat, opp, list, 0) =~= Set::empty());
    }
    let mut count: usize = 0;
    let mut i: usize = 0;
    while i < around.len()
        invariant
            i <= around.len() <= 4,
            board::is_board(b@, size as nat),
            !(opp is Empty),
            around@.len() == list.len(),
            forall|j: int|
                0 <= j < around@.len() ==> #[trigger] around@[j] < b@.len() && around@[j] as int
                    == list[j],
            count <= i,
            groups_in_atari(b@, size as nat, opp, list, i as int).finite(),
            count == groups_in_atari(b@, size as nat, opp, list, i as int).len(),
        decreases around.len() - i,
    {
        let n: usize = around[i];
        assert(list[i as int] == n);
        proof {
            assert forall|j: int| 0 <= j < list.len() implies 0 <= #[trigger] list[j]
                < b@.len() by {
                assert(around@[j] < b@.len());
            }
            lemma_groups_in_atari(b@, size as nat, opp, list, i as int);
        }
        if b[n] == opp {
            let (group, libs) = flood_group(b.as_slice(), n, size);
            let met: bool = meets(&group, &around, i);
            proof {
                lemma_meets(group@, around@, list, i as int);
            }
            if libs.len() == 1 && !met {
                count = count + 1;
            }
        }
        i = i + 1;
    }
    count
}

/// A list of points meets the same points as its set.
proof fn lemma_meets(group: Seq<usize>, around: Seq<usize>, list: Seq<int>, n: int)
    requires
        0 <= n <= around.len() == list.len(),
        forall|j: int| 0 <= j < around.len() ==> #[trigger] around[j] as int == list[j],
    ensures
        meets_first(group, around, n) == (exists|j: int|
            0 <= j < n && board::points(group).contains(#[trigger] list[j])),
{
    if meets_first(group, around, n) {
        let j = choose|j: int| 0 <= j < n && group.contains(#[trigger] around[j]);
        let k = group.index_of(around[j]);
        assert(group[k] == list[j]);
        assert(board::points(group).contains(list[j]));
    }
    if exists|j: int| 0 <= j < n && board::points(group).contains(#[trigger] list[j]) {
        let j = choose|j: int| 0 <= j < n && board::points(group).contains(#[trigger] list[j]);
        let k = choose|k: int| 0 <= k < group.len() && #[trigger] group[k] == list[j];
        assert(group[k] == around[j]);
        assert(group.contains(around[j]));
    }
}

fn material_of(captures: u32, libs: usize) -> (points: i128)
    ensures
        points == material(captures as nat, libs as nat),
        magnitude(points as int) <= 0x300_0000_0000_0000_0000_0000_0000_0000,
{
    let stones: u128 = rounded_count(10 * rounded_count(captures as u128));
    let room: u128 = rounded_count(libs as u128);
    rounded(stones as i128 * UNIT + room as i128 * HALF_UNIT)
}

fn add_threats(points: i128, n: usize) -> (r: i128)
    requires
        magnitude(points as int) <= 0x300_0000_0000_0000_0000_0000_0000_0000,
        n <= 4,
    ensures
        r == with_threats(points as int, n as nat),
        magnitude(r as int) <= 0x400_0000_0000_0000_0000_0000_0000_0000,
{
    let mut r: i128 = points;
    let mut i: usize = 0;
    while i < n
        invariant
            i <= n <= 4,
            r == with_threats(points as int, i as nat),
            magnitude(r as int) <= 0x300_0000_0000_0000_0000_0000_0000_0000 + i
                * 0x20_0000_0000_0000_0000_0000_0000,
        decreases n - i,
    {
        r = rounded(r + 5 * UNIT);
        i = i + 1;
    }
    r
}

/// Greedy move score: captures, liberties, atari threats, center, edge, self-atari.
pub fn greedy_score(s: &GoState, row: usize, col: usize) -> (units: i128)
    requires
        s.wf(),
        row < s.size,
        col < s.size,
    ensures
        units == score(s, row as int, col as int),
{
    let me = s.to_play;
    let size: usize = s.size;
    let idx: usize = s.flat_index(row, col);
    let next = s.advance(&GoAction::Place(row, col));
    let captures: u32 = captures_for(me, s, &next);
    proof {
        assert(captures == gain(s, idx as int));
        state::lemma_stone_stays(s.board@, size as nat, idx as int, me);
        assert(s.board.len() == size * size);
    }
    let libs: usize = liberty_count(&next.board, idx, size);
    let threats: usize = count_ataris(&next.board, size, idx, me.opponent());
    let threatening: i128 = add_threats(material_of(captures, libs), threats);
    let centered: i128 = rounded(threatening + 2 * center_bonus(row, col, size));
    let edged: i128 = if captures == 0 && is_first_line(row, col, size) {
        rounded(centered - 3 * UNIT)
    } else {
        centered
    };
    if libs == 1 {
        rounded(edged - 20 * UNIT)
    } else {
        edged
    }
}

/// Validate a move for the safety-first player.
///
/// Returns `false` if the move violates safety rules.
pub fn validate_move(s: &GoState, row: usize, col: usize) -> (b: bool)
    requires
        s.wf(),
        row < s.size,
        col < s.size,
    ensures
        b == sound_move(s, row as int, col as int),
{
    let idx: usize = s.flat_index(row, col);
    let next = s.advance(&GoAction::Place(row, col));
    if captures_for(s.to_play, s, &next) > 0 {
        return true;
    }
    proof {
        state::lemma_stone_stays(s.board@, s.size as nat, idx as int, s.to_play);
    }
    let (group, libs) = flood_group(next.board.as_slice(), idx, s.size);
    if group.len() >= 3 && libs.len() == 1 {
        return false;
    }
    !fills_own_eye(s, idx)
}

/// Categorize a move into one of 8 bandit categories.
pub fn categorize_move(s: &GoState, row: usize, col: usize) -> (c: GoMoveCategory)
    requires
        s.wf(),
        row < s.size,
        col < s.size,
    ensures
        c == category(s, row as int, col as int),
{
    let idx: usize = s.flat_index(row, col);
    let next = s.advance(&GoAction::Place(row, col));
    if captures_for(s.to_play, s, &next) > 0 {
        return GoMoveCategory::Capture;
    }
    if is_saving_move(s, idx) {
        return GoMoveCategory::Defend;
    }
    if is_extend_move(s, idx) {
        return GoMoveCategory::Extend;
    }
    if is_star_point(row, col, s.size) {
        return GoMoveCategory::CornerStar;
    }
    if is_side_line(row, col, s.size) {
        return GoMoveCategory::SideApproach;
    }
    assert(s.board.len() == s.size * s.size);
    if is_center_region(row, col, s.size) {
        return GoMoveCategory::CenterControl;
    }
    GoMoveCategory::Influence
}

/// A move that captures nothing and leaves its own group of three or more stones with a single
/// liberty is never sound.
pub proof fn law_self_atari_is_unsound(s: &GoState, row: int, col: int)
    requires
        s.wf(),
        s.on_board(row, col),
        s.captures_at(s.index(row, col)) == 0,
        board::group_of(s.board_after(s.index(row, col)), s.size as nat, s.index(row, col)).len()
            >= 3,
        board::liberties_of(
            s.board_after(s.index(row, col)),
            s.size as nat,
            s.index(row, col),
        ).len() == 1,
    ensures
        !sound_move(s, row, col),
{
}

/// A move that captures nothing on a point whose neighbours are all own stones is never sound.
pub proof fn law_filling_an_eye_is_unsound(s: &GoState, row: int, col: int)
    requires
        s.wf(),
        s.on_board(row, col),
        s.captures_at(s.index(row, col)) == 0,
        s.size > 1,
        forall|n: int| #[trigger]
            board::neighbors(s.index(row, col), s.size as nat).contains(n) ==> s.board@[n]
                == s.to_play,
    ensures
        !sound_move(s, row, col),
{
    let idx = s.index(row, col);
    let list = board::neighbors(idx, s.size as nat);
    state::lemma_index(row, col, s.size as int);
    vstd::arithmetic::div_mod::lemma_fundamental_div_mod_converse(
        idx,
        s.size as int,
        row,
        col,
    );
    assert(list.len() > 0);
    assert forall|j: int| 0 <= j < list.len() implies s.board@[#[trigger] list[j]] == s.to_play by {
        assert(list.contains(list[j]));
    }
}

/// Every other move is sound: one that captures, as far as captures can be counted, and one that
/// neither fills an eye nor leaves a group of three or more stones in atari.
pub proof fn law_other_moves_are_sound(s: &GoState, row: int, col: int, n: int)
    requires
        s.wf(),
        s.on_board(row, col),
    ensures
        s.captures_at(s.index(row, col)) > 0 && s.captured_black < u32::MAX && s.captured_white
            < u32::MAX ==> sound_move(s, row, col),
        board::neighbors(s.index(row, col), s.size as nat).contains(n) && s.board@[n] != s.to_play
            && (board::group_of(
            s.board_after(s.index(row, col)),
            s.size as nat,
            s.index(row, col),
        ).len() < 3 || board::liberties_of(
            s.board_after(s.index(row, col)),
            s.size as nat,
            s.index(row, col),
        ).len() != 1) ==> sound_move(s, row, col),
{
    let list = board::neighbors(s.index(row, col), s.size as nat);
    if list.contains(n) && s.board@[n] != s.to_play {
        let j = choose|j: int| 0 <= j < list.len() && list[j] == n;
        assert(s.board@[list[j]] != s.to_play);
    }
}

/// What a move gains is what it takes off the board.
pub proof fn law_gain_counts_captures(s: &GoState, idx: int)
    requires
        s.captured_black + s.captures_at(idx) <= u32::MAX,
        s.captured_white + s.captures_at(idx) <= u32::MAX,
    ensures
        gain(s, idx) == s.captures_at(idx),
{
}

/// A move beside an own group of at most two liberties defends, one beside an own group in atari
/// saves, and no other move does either.
pub proof fn law_defence_helps_weak_groups(b: Seq<GoCell>, size: nat, idx: int, me: GoCell, n: int)
    requires
        board::neighbors(idx, size).contains(n),
        b[n] == me,
    ensures
        board::liberties_of(b, size, n).len() <= 2 ==> defends(b, size, idx, me),
        board::liberties_of(b, size, n).len() == 1 ==> saves(b, size, idx, me),
        (forall|x: int| #[trigger]
            board::neighbors(idx, size).contains(x) && b[x] == me ==> board::liberties_of(
                b,
                size,
                x,
            ).len() > 2) ==> !defends(b, size, idx, me),
        (forall|x: int| #[trigger]
            board::neighbors(idx, size).contains(x) && b[x] == me ==> board::liberties_of(
                b,
                size,
                x,
            ).len() != 1) ==> !saves(b, size, idx, me),
        extends(b, size, idx, me),
{
    let list = board::neighbors(idx, size);
    let j = choose|j: int| 0 <= j < list.len() && list[j] == n;
    assert(b[list[j]] == me);
    assert forall|k: int| 0 <= k < list.len() implies list.contains(#[trigger] list[k]) by {}
}

/// A move away from own stones neither defends nor saves nor extends.
pub proof fn law_lone_moves_help_no_group(b: Seq<GoCell>, size: nat, idx: int, me: GoCell)
    requires
        forall|n: int| #[trigger] board::neighbors(idx, size).contains(n) ==> b[n] != me,
    ensures
        !defends(b, size, idx, me),
        !saves(b, size, idx, me),
        !extends(b, size, idx, me),
{
    let list = board::neighbors(idx, size);
    assert forall|k: int| 0 <= k < list.len() implies list.contains(#[trigger] list[k]) by {}
}

/// The star points lie alike from all sides: on the lines a fixed distance from the edges and on
/// the middle ones, on small boards in the corners and in the middle only.
pub proof fn law_star_points(row: int, col: int, size: int)
    requires
        0 <= row < size,
        0 <= col < size,
    ensures
        on_star(row, col, size) == on_star(col, row, size),
        on_star(row, col, size) == on_star(size - 1 - row, col, size),
        on_star(row, col, size) == on_star(row, size - 1 - col, size),
        size == 13 || size == 19 ==> on_star(row, col, size) == ((row == 3 || 2 * row == size - 1
            || row == size - 4) && (col == 3 || 2 * col == size - 1 || col == size - 4)),
        size == 9 ==> on_star(row, col, size) == ((row == 2 || row == size - 3) && (col == 2 || col
            == size - 3) || 2 * row == size - 1 && 2 * col == size - 1),
        on_star(row, col, size) ==> size == 9 || size == 13 || size == 19,
{
}

/// The side lines are the third and the fourth from each edge, less the middle of the board.
pub proof fn law_side_lines(row: int, col: int, size: int)
    requires
        4 <= size,
        0 <= row < size,
        0 <= col < size,
    ensures
        on_side(row, col, size) == on_side(col, row, size),
        on_side(row, col, size) ==> row == 2 || row == 3 || size - 1 - row == 2 || size - 1 - row
            == 3 || col == 2 || col == 3 || size - 1 - col == 2 || size - 1 - col == 3,
        on_side(row, col, size) ==> gap(row, size / 2) > 1 || gap(col, size / 2) > 1,
        (gap(row, size / 2) > 1 || gap(col, size / 2) > 1) && (row == 2 || row == 3 || size - 1 - row
            == 2 || size - 1 - row == 3) ==> on_side(row, col, size),
        (gap(row, size / 2) > 1 || gap(col, size / 2) > 1) && (col == 2 || col == 3 || size - 1 - col
            == 2 || size - 1 - col == 3) ==> on_side(row, col, size),
        on_edge(row, col, size) == on_edge(col, row, size),
        on_edge(row, col, size) == on_edge(size - 1 - row, size - 1 - col, size),
        on_edge(0, col, size) && on_edge(size - 1, col, size),
        0 < row < size - 1 && 0 < col < size - 1 ==> !on_edge(row, col, size),
{
}

/// Captures come first, then saving an own group in atari, then moves beside own stones. Only a
/// move away from own stones is known by its place.
pub proof fn law_categories_have_priority(s: &GoState, row: int, col: int)
    requires
        s.wf(),
        s.on_board(row, col),
    ensures
        category(s, row, col) is Capture == (gain(s, s.index(row, col)) > 0),
        category(s, row, col) is Defend ==> saves(
            s.board@,
            s.size as nat,
            s.index(row, col),
            s.to_play,
        ),
        saves(s.board@, s.size as nat, s.index(row, col), s.to_play) ==> category(
            s,
            row,
            col,
        ) is Capture || category(s, row, col) is Defend,
        extends(s.board@, s.size as nat, s.index(row, col), s.to_play) ==> category(
            s,
            row,
            col,
        ) is Capture || category(s, row, col) is Defend || category(s, row, col) is Extend,
        category(s, row, col) is Extend ==> extends(
            s.board@,
            s.size as nat,
            s.index(row, col),
            s.to_play,
        ),
        category(s, row, col) is CornerStar ==> on_star(row, col, s.size as int),
        category(s, row, col) is SideApproach ==> on_side(row, col, s.size as int) && !on_star(
            row,
            col,
            s.size as int,
        ),
        category(s, row, col) is CenterControl ==> in_center(row, col, s.size as int) && !on_side(
            row,
            col,
            s.size as int,
        ),
        category(s, row, col) is Influence ==> !in_center(row, col, s.size as int) && !on_side(
            row,
            col,
            s.size as int,
        ) && !on_star(row, col, s.size as int),
        !(category(s, row, col) is Pass),
{
    let list = board::neighbors(s.index(row, col), s.size as nat);
    if saves(s.board@, s.size as nat, s.index(row, col), s.to_play) {
        let j = choose|j: int|
            0 <= j < list.len() && s.board@[#[trigger] list[j]] == s.to_play && 1
                <= board::liberties_of(s.board@, s.size as nat, list[j]).len() <= 1;
        assert(s.board@[list[j]] == s.to_play);
    }
}

/// The center bonus is the same from all four sides, and does not grow with the distance from the
/// center.
pub proof fn law_center_bonus_falls_outward(
    row: int,
    col: int,
    far_row: int,
    far_col: int,
    size: int,
)
    requires
        1 < size <= 0x20_0000,
        0 <= row < size,
        0 <= col < size,
        0 <= far_row < size,
        0 <= far_col < size,
    ensures
        center_units(row, col, size) == center_units(col, row, size),
        center_units(row, col, size) == center_units(size - 1 - row, col, size),
        center_units(row, col, size) == center_units(row, size - 1 - col, size),
        gap(2 * row, size - 1) + gap(2 * col, size - 1) <= gap(2 * far_row, size - 1) + gap(
            2 * far_col,
            size - 1,
        ) ==> center_units(far_row, far_col, size) <= center_units(row, col, size),
        center_units(row, col, size) <= UNIT,
{
    let m = (size - 1) as nat;
    lemma_small_offset(row, size);
    lemma_small_offset(col, size);
    lemma_small_offset(far_row, size);
    lemma_small_offset(far_col, size);
    lemma_small_offset(size - 1 - row, size);
    lemma_small_offset(size - 1 - col, size);
    let near = offset(row as nat, m) + offset(col as nat, m);
    let far = offset(far_row as nat, m) + offset(far_col as nat, m);
    float_bits::lemma_round24_bound(m);
    float_bits::lemma_round24_bound(near);
    float_bits::lemma_round24_bound(far);
    lemma_unit_is_exact();
    float_bits::law_signed_rounding_keeps_order(
        UNIT - quotient(near, 2 * m),
        UNIT as int,
    );
    if near <= far {
        lemma_quotient_keeps_order(near, far, 2 * m);
        float_bits::law_signed_rounding_keeps_order(
            UNIT - quotient(far, 2 * m),
            UNIT - quotient(near, 2 * m),
        );
    }
}

proof fn lemma_small_offset(x: int, size: int)
    requires
        1 < size <= 0x20_0000,
        0 <= x < size,
    ensures
        offset(x as nat, (size - 1) as nat) == gap(2 * x, size - 1),
{
    float_bits::lemma_round24_bound(x as nat);
    float_bits::lemma_round24_bound((size - 1) as nat);
    float_bits::lemma_round24_bound(gap(2 * x, size - 1) as nat);
}

/// A larger part has a larger quotient.
proof fn lemma_quotient_keeps_order(a: nat, b: nat, d: nat)
    requires
        a <= b,
        0 < d,
    ensures
        quotient(a, d) <= quotient(b, d),
{
    let x = a * 0x200_0000_0000_0000nat;
    let y = b * 0x200_0000_0000_0000nat;
    let g = float_bits::coarse(x / d);
    let h = float_bits::coarse(y / d);
    assert(x / d <= y / d) by (nonlinear_arith)
        requires
            x <= y,
            d > 0,
    ;
    float_bits::lemma_coarse(x / d);
    float_bits::lemma_coarse(y / d);
    float_bits::lemma_coarse_monotone(x / d, y / d);
    let p = float_bits::round_half_even(x, d * g);
    let q = float_bits::round_half_even(y, d * h);
    assert(d * g > 0 && d * h > 0) by (nonlinear_arith)
        requires
            d > 0,
            g > 0,
            h > 0,
    ;
    if g == h {
        assert(x * (d * g) <= y * (d * g)) by (nonlinear_arith)
            requires
                x <= y,
        ;
        float_bits::law_rounding_keeps_order(x, d * g, y, d * g);
        assert(p * g <= q * g) by (nonlinear_arith)
            requires
                p <= q,
        ;
    } else {
        vstd::arithmetic::div_mod::lemma_fundamental_div_mod(x as int, d as int);
        vstd::arithmetic::div_mod::lemma_fundamental_div_mod(y as int, d as int);
        let e = (x / d) as int;
        let f = (y / d) as int;
        let most = 0x100_0000nat;
        let least = 0x80_0000nat;
        assert(x * 1 <= most * (d * g)) by (nonlinear_arith)
            requires
                x == d * e + x % d,
                x % d < d,
                e + 1 <= most * g,
                d > 0,
        ;
        float_bits::law_rounding_keeps_order(x, d * g, most, 1);
        assert(float_bits::round_half_even(most, 1) == most);
        assert(least * (d * h) <= y * 1) by (nonlinear_arith)
            requires
                y == d * f + y % d,
                0 <= y % d,
                least * h <= f,
                d > 0,
        ;
        float_bits::law_rounding_keeps_order(least, 1, y, d * h);
        assert(float_bits::round_half_even(least, 1) == least);
        assert(p * g <= q * h) by (nonlinear_arith)
            requires
                p <= 0x100_0000,
                q >= 0x80_0000,
                2 * g <= h,
        ;
    }
}

/// The parts of a score, unrounded: ten for each stone taken, half for each liberty, five for each
/// hostile group left in atari, twice the center bonus, three off on an edge unless it captures,
/// twenty off where the own group is left in atari.
pub open spec fn exact_score(s: &GoState, row: int, col: int) -> int {
    let idx = s.index(row, col);
    let size = s.size as nat;
    let after = s.board_after(idx);
    let libs = board::liberties_of(after, size, idx).len() as int;
    let list = board::neighbors(idx, size);
    let threats = groups_in_atari(
        after,
        size,
        s.to_play.other(),
        list,
        list.len() as int,
    ).len() as int;
    let halves = 20 * gain(s, idx) + libs + 10 * threats - (if gain(s, idx) == 0 && (row == 0 || col
        == 0 || row + 1 == s.size || col + 1 == s.size) {
        6int
    } else {
        0
    }) - (if libs == 1 {
        40int
    } else {
        0
    });
    halves * 0x100_0000_0000_0000 + 2 * center_units(row, col, s.size as int)
}

/// A score is the sum of its parts, to within what single precision loses on their sizes.
pub proof fn law_score_adds_up(s: &GoState, row: int, col: int)
    requires
        s.wf(),
        s.on_board(row, col),
        1 < s.size <= 512,
    ensures
        ({
            let idx = s.index(row, col);
            let size = s.size as nat;
            let after = s.board_after(idx);
            let libs = board::liberties_of(after, size, idx).len() as int;
            let sizes = (20 * gain(s, idx) + libs + 100) * 0x100_0000_0000_0000;
            let off = score(s, row, col) - exact_score(s, row, col);
            &&& 0x100_0000 * off <= 32 * sizes
            &&& -0x100_0000 * off <= 32 * sizes
        }),
{
    let idx = s.index(row, col);
    let size = s.size as nat;
    state::lemma_index(row, col, s.size as int);
    let after = s.board_after(idx);
    state::lemma_stone_stays(s.board@, size, idx, s.to_play);
    let libs = board::liberties_of(after, size, idx).len();
    let captures = gain(s, idx);
    let list = board::neighbors(idx, size);
    let opp = s.to_play.other();
    let threats = groups_in_atari(after, size, opp, list, list.len() as int).len();
    assert(s.board@.len() == s.size * s.size);
    assert(s.size * s.size <= 512 * 512) by (nonlinear_arith)
        requires
            s.size <= 512,
    ;
    lemma_set_on_board(board::liberties_of(after, size, idx), s.board@.len());
    lemma_set_on_board(
        state::captured_points(s.board@, size, idx, s.to_play),
        s.board@.len(),
    );
    lemma_few_threats(after, size, opp, idx, list.len() as int);
    let n = captures as nat;
    float_bits::lemma_round24_bound(n);
    float_bits::lemma_round24_bound(10 * n);
    float_bits::lemma_round24_bound(libs);
    let sizes = (20 * captures + libs + 100) * 0x100_0000_0000_0000;
    let m0 = 10 * captures * UNIT + libs * HALF_UNIT;
    assert(m0 == (20 * captures + libs) * 0x100_0000_0000_0000);
    float_bits::law_signed_rounding_keeps_order(m0, m0);
    let m = material(n, libs);
    assert(m == float_bits::round24_signed(m0));
    lemma_threats_add_up(m, threats, sizes);
    let t = with_threats(m, threats);
    assert(3 * threats * sizes <= 12 * sizes) by (nonlinear_arith)
        requires
            threats <= 4,
            sizes >= 0,
    ;
    assert(0x100_0000 * (m - m0) <= sizes && -0x100_0000 * (m - m0) <= sizes);
    assert(0 <= t <= 2 * sizes - 10 * UNIT);
    law_center_bonus_falls_outward(row, col, row, col, s.size as int);
    lemma_center_at_least(row, col, s.size as int);
    let c0 = t + 2 * center_units(row, col, s.size as int);
    float_bits::law_signed_rounding_keeps_order(c0, c0);
    let c = float_bits::round24_signed(c0);
    assert(0x100_0000 * (c - c0) <= 2 * sizes && -0x100_0000 * (c - c0) <= 2 * sizes);
    float_bits::law_signed_rounding_keeps_order(c - 3 * UNIT, c - 3 * UNIT);
    let e = if captures == 0 && on_edge(row, col, s.size as int) {
        float_bits::round24_signed(c - 3 * UNIT)
    } else {
        c
    };
    float_bits::law_signed_rounding_keeps_order(e - 20 * UNIT, e - 20 * UNIT);
    let e0 = if captures == 0 && on_edge(row, col, s.size as int) {
        c - 3 * UNIT
    } else {
        c
    };
    assert(0x100_0000 * (e - e0) <= 4 * sizes && -0x100_0000 * (e - e0) <= 4 * sizes);
    let f = score(s, row, col);
    let f0 = if libs == 1 {
        e - 20 * UNIT
    } else {
        e
    };
    assert(0x100_0000 * (f - f0) <= 4 * sizes && -0x100_0000 * (f - f0) <= 4 * sizes);
    assert(exact_score(s, row, col) == m0 + 5 * threats * UNIT + 2 * center_units(
        row,
        col,
        s.size as int,
    ) + (e0 - c) + (f0 - e));
}

proof fn lemma_center_at_least(row: int, col: int, size: int)
    requires
        1 < size <= 512,
        0 <= row < size,
        0 <= col < size,
    ensures
        center_units(row, col, size) >= 0,
{
    law_center_bonus_falls_outward(row, col, 0, 0, size);
    law_center_bonus_ends(0, 0, size);
}

proof fn lemma_threats_add_up(m: int, n: nat, sizes: int)
    requires
        0 <= m <= sizes + sizes / 0x10_0000,
        m >= 0,
        n <= 4,
        sizes >= 100 * 0x100_0000_0000_0000,
    ensures
        ({
            let off = with_threats(m, n) - m - 5 * n * UNIT;
            &&& 0x100_0000 * off <= 3 * n * sizes
            &&& -0x100_0000 * off <= 3 * n * sizes
            &&& with_threats(m, n) >= 0
        }),
    decreases n,
{
    if n > 0 {
        lemma_threats_add_up(m, (n - 1) as nat, sizes);
        let w = with_threats(m, (n - 1) as nat) + 5 * UNIT;
        float_bits::law_signed_rounding_keeps_order(w, w);
        let k = n as int;
        assert(3 * (n - 1) * sizes + 3 * sizes == 3 * n * sizes) by (nonlinear_arith);
        assert(3 * (n - 1) * sizes <= 9 * sizes) by (nonlinear_arith)
            requires
                n <= 4,
                sizes >= 0,
        ;
    }
}

/// At most one group in atari for each neighbour.
proof fn lemma_few_threats(b: Seq<GoCell>, size: nat, opp: GoCell, idx: int, n: int)
    requires
        board::is_board(b, size),
        !(opp is Empty),
        0 <= idx < b.len(),
        0 <= n <= board::neighbors(idx, size).len(),
    ensures
        groups_in_atari(b, size, opp, board::neighbors(idx, size), n).finite(),
        groups_in_atari(b, size, opp, board::neighbors(idx, size), n).len() <= n,
        n <= 4,
    decreases n,
{
    let list = board::neighbors(idx, size);
    board::lemma_neighbors(idx, size);
    if n == 0 {
        assert(groups_in_atari(b, size, opp, list, 0) =~= Set::empty());
    } else {
        lemma_few_threats(b, size, opp, idx, n - 1);
        lemma_groups_in_atari(b, size, opp, list, n - 1);
    }
}

/// Each category has an arm of its own, and the arms are numbered in the order of the categories.
pub proof fn law_arms_are_in_order(a: GoMoveCategory, b: GoMoveCategory)
    ensures
        0 <= a.arm() < 8,
        a.arm() == b.arm() ==> a == b,
        GoMoveCategory::CornerStar.arm() < GoMoveCategory::SideApproach.arm(),
        GoMoveCategory::SideApproach.arm() < GoMoveCategory::CenterControl.arm(),
        GoMoveCategory::CenterControl.arm() < GoMoveCategory::Capture.arm(),
        GoMoveCategory::Capture.arm() < GoMoveCategory::Defend.arm(),
        GoMoveCategory::Defend.arm() < GoMoveCategory::Extend.arm(),
        GoMoveCategory::Extend.arm() < GoMoveCategory::Influence.arm(),
        GoMoveCategory::Influence.arm() < GoMoveCategory::Pass.arm(),
{
}

} // verus!
