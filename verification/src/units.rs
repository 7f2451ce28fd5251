//! The `Unit` constraint value and the saturating integer arithmetic that
//! every layout computation is built from.

use vstd::prelude::*;

verus! {

/// Saturation bound for every pixel-valued quantity (position, size, offset).
/// All computed lengths are clamped into `[-MAX_LEN, MAX_LEN]` (sizes into
/// `[0, MAX_LEN]`), which keeps every intermediate product and sum well inside
/// the `i64` range.
pub const MAX_LEN: i64 = 0x100_0000_0000;

/// Bound on percentage and stretch-weight payloads.  `MAX_LEN * MAX_FACTOR`
/// still fits comfortably in `i64`.
pub const MAX_FACTOR: i64 = 0x10_0000;

/// A single layout constraint: either unconstrained, a fixed number of pixel
/// units, a percentage of the parent's content-area dimension (in whole
/// percent), or a weighted share of the parent's free space.
#[derive(Clone, Copy, Debug, PartialEq, Eq, Structural)]
pub enum Unit {
    Auto,
    Pixels(i64),
    Percentage(i64),
    Stretch(i64),
}

/// How a container arranges its children: sequentially along the horizontal
/// axis, sequentially along the vertical axis, or on a grid of tracks.
#[derive(Clone, Copy, Debug, PartialEq, Eq, Structural)]
pub enum LayoutType {
    Row,
    Column,
    Grid,
}

/// Whether a node participates in its parent's flow (`ParentDirected`) or is
/// positioned on its own against the parent's rectangle (`SelfDirected`).
#[derive(Clone, Copy, Debug, PartialEq, Eq, Structural)]
pub enum PositionType {
    SelfDirected,
    ParentDirected,
}

/// A well-formed unit: payloads within the saturation bounds, and
/// non-negative percentages and stretch weights.
pub open spec fn unit_wf(u: Unit) -> bool {
    match u {
        Unit::Auto => true,
        Unit::Pixels(v) => -MAX_LEN <= v <= MAX_LEN,
        Unit::Percentage(p) => 0 <= p <= MAX_FACTOR,
        Unit::Stretch(w) => 0 <= w <= MAX_FACTOR,
    }
}

/// Saturate a size into `[0, MAX_LEN]`.
pub open spec fn cl_len(v: int) -> int {
    if v < 0 {
        0
    } else if v > MAX_LEN {
        MAX_LEN as int
    } else {
        v
    }
}

/// Saturate an offset or position into `[-MAX_LEN, MAX_LEN]`.
pub open spec fn cl_off(v: int) -> int {
    if v < -(MAX_LEN as int) {
        -(MAX_LEN as int)
    } else if v > MAX_LEN {
        MAX_LEN as int
    } else {
        v
    }
}

/// Clamp `v` into `[lo, hi]`; when `lo > hi` the lower bound wins.
pub open spec fn clamp2(v: int, lo: int, hi: int) -> int {
    if v < lo {
        lo
    } else if v > hi {
        hi
    } else {
        v
    }
}

/// `p` percent of the dimension `d`, truncated.  Only used with `d >= 0` and
/// `p >= 0`, where truncation and Euclidean division agree.
pub open spec fn pct_of(d: int, p: int) -> int {
    d * p / 100
}

/// The share of `free` space a stretch item of weight `w` receives when the
/// weights of all competing stretch items sum to `total`.  No free space, or
/// no weight, means no share.
pub open spec fn stretch_share(free: int, total: int, w: int) -> int {
    if free <= 0 || total <= 0 {
        0
    } else {
        free * w / total
    }
}

/// Executable saturation into `[0, MAX_LEN]`.
pub fn clamp_len(v: i64) -> (r: i64)
    ensures
        r as int == cl_len(v as int),
{
    if v < 0 {
        0
    } else if v > MAX_LEN {
        MAX_LEN
    } else {
        v
    }
}

/// Executable saturation into `[-MAX_LEN, MAX_LEN]`.
pub fn clamp_off(v: i64) -> (r: i64)
    ensures
        r as int == cl_off(v as int),
{
    if v < -MAX_LEN {
        -MAX_LEN
    } else if v > MAX_LEN {
        MAX_LEN
    } else {
        v
    }
}

/// Executable clamp into `[lo, hi]` with the lower bound winning.
pub fn clamp_between(v: i64, lo: i64, hi: i64) -> (r: i64)
    ensures
        r as int == clamp2(v as int, lo as int, hi as int),
{
    if v < lo {
        lo
    } else if v > hi {
        hi
    } else {
        v
    }
}

/// Executable percentage, saturated to a size.
pub fn pct_len(d: i64, p: i64) -> (r: i64)
    requires
        0 <= d <= MAX_LEN,
        0 <= p <= MAX_FACTOR,
    ensures
        r as int == cl_len(pct_of(d as int, p as int)),
{
    assert(0 <= d as int * p as int <= 0x1000_0000_0000_0000) by (nonlinear_arith)
        requires
            0 <= d <= 0x100_0000_0000,
            0 <= p <= 0x10_0000,
    ;
    clamp_len(d * p / 100)
}

/// Executable stretch share, saturated to a size.
pub fn share_len(free: i64, total: i64, w: i64) -> (r: i64)
    requires
        -2 * MAX_LEN <= free <= 2 * MAX_LEN,
        0 <= total <= MAX_LEN,
        0 <= w <= MAX_FACTOR,
    ensures
        r as int == cl_len(stretch_share(free as int, total as int, w as int)),
{
    if free <= 0 || total <= 0 {
        0
    } else {
        assert(0 <= free as int * w as int <= 0x2000_0000_0000_0000) by (nonlinear_arith)
            requires
                0 < free <= 0x200_0000_0000,
                0 <= w <= 0x10_0000,
        ;
        clamp_len(free * w / total)
    }
}

} // verus!
