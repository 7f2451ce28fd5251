//! The layout solver: a bottom-up measurement pass and a top-down placement
//! pass over a well-formed tree, filling the cache with a rectangle for
//! every node.
//!
//! Every executable step mirrors a specification function; the top-level
//! [`layout`] call guarantees that each node's cache entry equals the
//! mathematical model of the algorithm, which depends only on the tree, the
//! styles, the intrinsic content sizes and the viewport — never on earlier
//! cache contents.

use vstd::prelude::*;
use crate::cache::{CacheEntry, LayoutCache};
use crate::geom::{Rect, RectM, Size, Space, SpaceM};
use crate::style::{Style, StyleMap};
use crate::tree::{as_ints, Tree};
use crate::units::{
    cl_len,
    cl_off,
    clamp2,
    clamp_between,
    clamp_len,
    clamp_off,
    pct_len,
    pct_of,
    share_len,
    stretch_share,
    unit_wf,
    LayoutType,
    PositionType,
    Unit,
    MAX_FACTOR,
    MAX_LEN,
};

verus! {

/// Optional externally measured intrinsic content sizes (for example a
/// measured text block), keyed by node identity.  Consulted only when a
/// node's size constraint is `Auto`.
pub struct ContentMap {
    pub sizes: Vec<Option<Size>>,
}

impl ContentMap {
    /// The measurement recorded for node `x`, if any.
    pub open spec fn spec_get(self, x: int) -> Option<Size> {
        if 0 <= x < self.sizes@.len() {
            self.sizes@[x]
        } else {
            None
        }
    }

    /// All recorded measurements are sizes within the saturation bounds.
    pub open spec fn wf(self) -> bool {
        forall|x: int|
            0 <= x < self.sizes@.len() ==> match #[trigger] self.sizes@[x] {
                Some(sz) => 0 <= sz.width <= MAX_LEN && 0 <= sz.height <= MAX_LEN,
                None => true,
            }
    }

    /// An empty content map for `n` nodes.
    pub fn new(n: usize) -> (r: ContentMap)
        ensures
            r.wf(),
            r.sizes@.len() == n,
            forall|x: int| r.spec_get(x) is None,
    {
        let mut v: Vec<Option<Size>> = Vec::new();
        while v.len() < n
            invariant
                v@.len() <= n,
                forall|i: int| 0 <= i < v@.len() ==> v@[i] is None,
            decreases n - v.len(),
        {
            v.push(None);
        }
        ContentMap { sizes: v }
    }

    /// Read the measured content size of node `x`.
    pub fn get(&self, x: usize) -> (r: Option<Size>)
        ensures
            r == self.spec_get(x as int),
    {
        if x < self.sizes.len() {
            self.sizes[x]
        } else {
            None
        }
    }

    /// Record the measured content size of node `x`.
    pub fn set(&mut self, x: usize, sz: Size)
        requires
            old(self).wf(),
            x < old(self).sizes@.len(),
            0 <= sz.width <= MAX_LEN,
            0 <= sz.height <= MAX_LEN,
        ensures
            final(self).wf(),
            final(self).sizes@.len() == old(self).sizes@.len(),
            final(self).spec_get(x as int) == Some(sz),
            forall|y: int| y != x ==> final(self).spec_get(y) == old(self).spec_get(y),
    {
        self.sizes.set(x, Some(sz));
    }
}

/// A resolved constraint item: either a fixed number of pixel units or an
/// unresolved stretch weight.
pub ghost enum ResUnit {
    Fix(int),
    Str(int),
}

/// Resolve an offset unit (a `left`/`right`/`top`/`bottom` edge or a gap)
/// against content dimension `d`.  `Auto` defers to the container's
/// matching child-inset unit; an `Auto` inset means zero.
pub open spec fn res_off(u: Unit, inh: Unit, d: int) -> ResUnit {
    let eff = match u {
        Unit::Auto => inh,
        _ => u,
    };
    match eff {
        Unit::Auto => ResUnit::Fix(0),
        Unit::Pixels(v) => ResUnit::Fix(cl_off(v as int)),
        Unit::Percentage(p) => ResUnit::Fix(cl_off(pct_of(d, p as int))),
        Unit::Stretch(w) => ResUnit::Str(w as int),
    }
}

/// Resolve a size unit against content dimension `d`; `Auto` falls back to
/// the measurement-pass size `meas`.
pub open spec fn res_size(u: Unit, d: int, meas: int) -> ResUnit {
    match u {
        Unit::Auto => ResUnit::Fix(meas),
        Unit::Pixels(v) => ResUnit::Fix(cl_len(v as int)),
        Unit::Percentage(p) => ResUnit::Fix(cl_len(pct_of(d, p as int))),
        Unit::Stretch(w) => ResUnit::Str(w as int),
    }
}

/// Lower clamp bound for an offset: only fixed units constrain, everything
/// else leaves the range open.
pub open spec fn res_min_off(u: Unit, d: int) -> int {
    match u {
        Unit::Pixels(v) => cl_off(v as int),
        Unit::Percentage(p) => cl_off(pct_of(d, p as int)),
        _ => -(MAX_LEN as int),
    }
}

/// Upper clamp bound for an offset.
pub open spec fn res_max_off(u: Unit, d: int) -> int {
    match u {
        Unit::Pixels(v) => cl_off(v as int),
        Unit::Percentage(p) => cl_off(pct_of(d, p as int)),
        _ => MAX_LEN as int,
    }
}

/// Lower clamp bound for a size.
pub open spec fn res_min_len(u: Unit, d: int) -> int {
    match u {
        Unit::Pixels(v) => cl_len(v as int),
        Unit::Percentage(p) => cl_len(pct_of(d, p as int)),
        _ => 0,
    }
}

/// Upper clamp bound for a size.
pub open spec fn res_max_len(u: Unit, d: int) -> int {
    match u {
        Unit::Pixels(v) => cl_len(v as int),
        Unit::Percentage(p) => cl_len(pct_of(d, p as int)),
        _ => MAX_LEN as int,
    }
}

/// The fixed contribution of an item to space accounting: its clamped
/// value, or zero while a stretch item is still unresolved.
pub open spec fn item_fix(r: ResUnit, minv: int, maxv: int) -> int {
    match r {
        ResUnit::Fix(v) => clamp2(v, minv, maxv),
        ResUnit::Str(_) => 0,
    }
}

/// The stretch weight of an item; zero for fixed items.
pub open spec fn item_w(r: ResUnit) -> int {
    match r {
        ResUnit::Fix(_) => 0,
        ResUnit::Str(w) => w,
    }
}

/// The final value of an item once the container's free space and stretch
/// weight sum are known.
pub open spec fn fin_item(r: ResUnit, minv: int, maxv: int, free: int, ss: int) -> int {
    match r {
        ResUnit::Fix(v) => clamp2(v, minv, maxv),
        ResUnit::Str(w) => clamp2(cl_len(stretch_share(free, ss, w)), minv, maxv),
    }
}

/// A border width: fixed units only, anything else collapses to zero.
pub open spec fn res_border(u: Unit, d: int) -> int {
    match u {
        Unit::Pixels(v) => cl_len(v as int),
        Unit::Percentage(p) => cl_len(pct_of(d, p as int)),
        _ => 0,
    }
}

/// The fixed part of an inter-child gap (stretch gaps count as zero here
/// and are resolved with the container's free space).
pub open spec fn gap_used(u: Unit, d: int) -> int {
    match u {
        Unit::Pixels(v) => cl_len(v as int),
        Unit::Percentage(p) => cl_len(pct_of(d, p as int)),
        _ => 0,
    }
}

/// The stretch weight of an inter-child gap.
pub open spec fn gap_w(u: Unit) -> int {
    match u {
        Unit::Stretch(w) => w as int,
        _ => 0,
    }
}

/// The final pixel value of an inter-child gap.
pub open spec fn gap_fin(u: Unit, d: int, free: int, ss: int) -> int {
    match u {
        Unit::Stretch(w) => cl_len(stretch_share(free, ss, w as int)),
        _ => gap_used(u, d),
    }
}

/// One axis of a style: the before-offset, size and after-offset units
/// with their clamp bounds, plus the container insets inherited by `Auto`
/// offsets.
#[derive(Clone, Copy, Debug)]
pub struct Axis {
    pub before: Unit,
    pub size: Unit,
    pub after: Unit,
    pub min_before: Unit,
    pub max_before: Unit,
    pub min_size: Unit,
    pub max_size: Unit,
    pub min_after: Unit,
    pub max_after: Unit,
    pub inh_before: Unit,
    pub inh_after: Unit,
}

/// A style's horizontal (`horiz`) or vertical axis, with the container
/// insets `inh_b`/`inh_a` for `Auto` offsets.
pub open spec fn ax_of(st: Style, inh_b: Unit, inh_a: Unit, horiz: bool) -> Axis {
    if horiz {
        Axis {
            before: st.left,
            size: st.width,
            after: st.right,
            min_before: st.min_left,
            max_before: st.max_left,
            min_size: st.min_width,
            max_size: st.max_width,
            min_after: st.min_right,
            max_after: st.max_right,
            inh_before: inh_b,
            inh_after: inh_a,
        }
    } else {
        Axis {
            before: st.top,
            size: st.height,
            after: st.bottom,
            min_before: st.min_top,
            max_before: st.max_top,
            min_size: st.min_height,
            max_size: st.max_height,
            min_after: st.min_bottom,
            max_after: st.max_bottom,
            inh_before: inh_b,
            inh_after: inh_a,
        }
    }
}

/// An axis is well-formed when all its units are.
pub open spec fn axis_wf(a: Axis) -> bool {
    &&& unit_wf(a.before)
    &&& unit_wf(a.size)
    &&& unit_wf(a.after)
    &&& unit_wf(a.min_before)
    &&& unit_wf(a.max_before)
    &&& unit_wf(a.min_size)
    &&& unit_wf(a.max_size)
    &&& unit_wf(a.min_after)
    &&& unit_wf(a.max_after)
    &&& unit_wf(a.inh_before)
    &&& unit_wf(a.inh_after)
}

/// Sum of the fixed contributions of an axis triple (before + size +
/// after) to the container's used space.
#[verifier::opaque]
pub open spec fn ax_fix(a: Axis, meas: int, d: int) -> int {
    item_fix(res_off(a.before, a.inh_before, d), res_min_off(a.min_before, d), res_max_off(
        a.max_before,
        d,
    )) + item_fix(res_size(a.size, d, meas), res_min_len(a.min_size, d), res_max_len(
        a.max_size,
        d,
    )) + item_fix(res_off(a.after, a.inh_after, d), res_min_off(a.min_after, d), res_max_off(
        a.max_after,
        d,
    ))
}

/// Sum of the stretch weights of an axis triple.
#[verifier::opaque]
pub open spec fn ax_w(a: Axis) -> int {
    item_w(res_off(a.before, a.inh_before, 0)) + item_w(res_size(a.size, 0, 0)) + item_w(
        res_off(a.after, a.inh_after, 0),
    )
}

/// A fully resolved axis triple, in pixel units.
pub ghost struct TripleM {
    pub before: int,
    pub size: int,
    pub after: int,
}

/// The placed triple of an axis, given the free space and stretch weight
/// sum it competes in.
#[verifier::opaque]
pub open spec fn ax_triple(a: Axis, meas: int, d: int, free: int, ss: int) -> TripleM {
    TripleM {
        before: fin_item(
            res_off(a.before, a.inh_before, d),
            res_min_off(a.min_before, d),
            res_max_off(a.max_before, d),
            free,
            ss,
        ),
        size: fin_item(
            res_size(a.size, d, meas),
            res_min_len(a.min_size, d),
            res_max_len(a.max_size, d),
            free,
            ss,
        ),
        after: fin_item(
            res_off(a.after, a.inh_after, d),
            res_min_off(a.min_after, d),
            res_max_off(a.max_after, d),
            free,
            ss,
        ),
    }
}

/// A triple resolved alone against its container (used for the cross axis
/// of flow children and for both axes of self-directed children): the
/// child's own stretch items compete for what its own fixed items leave of
/// `d`.
#[verifier::opaque]
pub open spec fn ax_solo(a: Axis, meas: int, d: int) -> TripleM {
    ax_triple(a, meas, d, cl_off(d - ax_fix(a, meas, d)), ax_w(a))
}

// ---------------------------------------------------------------------
// Executable mirrors of the resolution helpers.
// ---------------------------------------------------------------------

/// Executable [`res_min_off`].
fn ex_res_min_off(u: Unit, d: i64) -> (r: i64)
    requires
        unit_wf(u),
        0 <= d <= MAX_LEN,
    ensures
        r as int == res_min_off(u, d as int),
        -MAX_LEN <= r <= MAX_LEN,
{
    match u {
        Unit::Pixels(v) => clamp_off(v),
        Unit::Percentage(p) => pct_len(d, p),
        _ => -MAX_LEN,
    }
}

/// Executable [`res_max_off`].
fn ex_res_max_off(u: Unit, d: i64) -> (r: i64)
    requires
        unit_wf(u),
        0 <= d <= MAX_LEN,
    ensures
        r as int == res_max_off(u, d as int),
        -MAX_LEN <= r <= MAX_LEN,
{
    match u {
        Unit::Pixels(v) => clamp_off(v),
        Unit::Percentage(p) => pct_len(d, p),
        _ => MAX_LEN,
    }
}

/// Executable [`res_min_len`].
fn ex_res_min_len(u: Unit, d: i64) -> (r: i64)
    requires
        unit_wf(u),
        0 <= d <= MAX_LEN,
    ensures
        r as int == res_min_len(u, d as int),
        0 <= r <= MAX_LEN,
{
    match u {
        Unit::Pixels(v) => clamp_len(v),
        Unit::Percentage(p) => pct_len(d, p),
        _ => 0,
    }
}

/// Executable [`res_max_len`].
fn ex_res_max_len(u: Unit, d: i64) -> (r: i64)
    requires
        unit_wf(u),
        0 <= d <= MAX_LEN,
    ensures
        r as int == res_max_len(u, d as int),
        0 <= r <= MAX_LEN,
{
    match u {
        Unit::Pixels(v) => clamp_len(v),
        Unit::Percentage(p) => pct_len(d, p),
        _ => MAX_LEN,
    }
}

/// Executable fixed part of an offset item.
fn ex_fix_off(u: Unit, inh: Unit, d: i64, minu: Unit, maxu: Unit) -> (r: i64)
    requires
        unit_wf(u),
        unit_wf(inh),
        unit_wf(minu),
        unit_wf(maxu),
        0 <= d <= MAX_LEN,
    ensures
        r as int == item_fix(
            res_off(u, inh, d as int),
            res_min_off(minu, d as int),
            res_max_off(maxu, d as int),
        ),
        -MAX_LEN <= r <= MAX_LEN,
{
    let lo = ex_res_min_off(minu, d);
    let hi = ex_res_max_off(maxu, d);
    let eff = match u {
        Unit::Auto => inh,
        _ => u,
    };
    match eff {
        Unit::Auto => clamp_between(0, lo, hi),
        Unit::Pixels(v) => clamp_between(clamp_off(v), lo, hi),
        Unit::Percentage(p) => clamp_between(pct_len(d, p), lo, hi),
        Unit::Stretch(_) => 0,
    }
}

/// Executable fixed part of a size item.
fn ex_fix_len(u: Unit, d: i64, meas: i64, minu: Unit, maxu: Unit) -> (r: i64)
    requires
        unit_wf(u),
        unit_wf(minu),
        unit_wf(maxu),
        0 <= d <= MAX_LEN,
        0 <= meas <= MAX_LEN,
    ensures
        r as int == item_fix(
            res_size(u, d as int, meas as int),
            res_min_len(minu, d as int),
            res_max_len(maxu, d as int),
        ),
        -MAX_LEN <= r <= MAX_LEN,
{
    let lo = ex_res_min_len(minu, d);
    let hi = ex_res_max_len(maxu, d);
    match u {
        Unit::Auto => clamp_between(meas, lo, hi),
        Unit::Pixels(v) => clamp_between(clamp_len(v), lo, hi),
        Unit::Percentage(p) => clamp_between(pct_len(d, p), lo, hi),
        Unit::Stretch(_) => 0,
    }
}

/// Executable final value of an offset item.
fn ex_fin_off(u: Unit, inh: Unit, d: i64, minu: Unit, maxu: Unit, free: i64, ss: i64) -> (r: i64)
    requires
        unit_wf(u),
        unit_wf(inh),
        unit_wf(minu),
        unit_wf(maxu),
        0 <= d <= MAX_LEN,
        -MAX_LEN <= free <= MAX_LEN,
        0 <= ss <= MAX_LEN,
    ensures
        r as int == fin_item(
            res_off(u, inh, d as int),
            res_min_off(minu, d as int),
            res_max_off(maxu, d as int),
            free as int,
            ss as int,
        ),
        -MAX_LEN <= r <= MAX_LEN,
{
    let lo = ex_res_min_off(minu, d);
    let hi = ex_res_max_off(maxu, d);
    let eff = match u {
        Unit::Auto => inh,
        _ => u,
    };
    match eff {
        Unit::Auto => clamp_between(0, lo, hi),
        Unit::Pixels(v) => clamp_between(clamp_off(v), lo, hi),
        Unit::Percentage(p) => clamp_between(pct_len(d, p), lo, hi),
        Unit::Stretch(w) => clamp_between(share_len(free, ss, w), lo, hi),
    }
}

/// Executable final value of a size item.
fn ex_fin_len(u: Unit, d: i64, meas: i64, minu: Unit, maxu: Unit, free: i64, ss: i64) -> (r: i64)
    requires
        unit_wf(u),
        unit_wf(minu),
        unit_wf(maxu),
        0 <= d <= MAX_LEN,
        0 <= meas <= MAX_LEN,
        -MAX_LEN <= free <= MAX_LEN,
        0 <= ss <= MAX_LEN,
    ensures
        r as int == fin_item(
            res_size(u, d as int, meas as int),
            res_min_len(minu, d as int),
            res_max_len(maxu, d as int),
            free as int,
            ss as int,
        ),
        0 <= r <= MAX_LEN,
{
    let lo = ex_res_min_len(minu, d);
    let hi = ex_res_max_len(maxu, d);
    match u {
        Unit::Auto => clamp_between(meas, lo, hi),
        Unit::Pixels(v) => clamp_between(clamp_len(v), lo, hi),
        Unit::Percentage(p) => clamp_between(pct_len(d, p), lo, hi),
        Unit::Stretch(w) => clamp_between(share_len(free, ss, w), lo, hi),
    }
}

/// Executable stretch weight of an offset item.
fn ex_off_w(u: Unit, inh: Unit) -> (r: i64)
    requires
        unit_wf(u),
        unit_wf(inh),
    ensures
        r as int == item_w(res_off(u, inh, 0)),
        r as int == item_w(res_off(u, inh, 1)),
        0 <= r <= MAX_FACTOR,
{
    let eff = match u {
        Unit::Auto => inh,
        _ => u,
    };
    match eff {
        Unit::Stretch(w) => w,
        _ => 0,
    }
}

/// Executable stretch weight of a size item.
fn ex_size_w(u: Unit) -> (r: i64)
    requires
        unit_wf(u),
    ensures
        r as int == item_w(res_size(u, 0, 0)),
        0 <= r <= MAX_FACTOR,
{
    match u {
        Unit::Stretch(w) => w,
        _ => 0,
    }
}

/// Executable [`res_border`].
fn ex_border(u: Unit, d: i64) -> (r: i64)
    requires
        unit_wf(u),
        0 <= d <= MAX_LEN,
    ensures
        r as int == res_border(u, d as int),
        0 <= r <= MAX_LEN,
{
    match u {
        Unit::Pixels(v) => clamp_len(v),
        Unit::Percentage(p) => pct_len(d, p),
        _ => 0,
    }
}

/// Executable [`gap_used`].
fn ex_gap_used(u: Unit, d: i64) -> (r: i64)
    requires
        unit_wf(u),
        0 <= d <= MAX_LEN,
    ensures
        r as int == gap_used(u, d as int),
        0 <= r <= MAX_LEN,
{
    match u {
        Unit::Pixels(v) => clamp_len(v),
        Unit::Percentage(p) => pct_len(d, p),
        _ => 0,
    }
}

/// Executable [`gap_w`].
fn ex_gap_w(u: Unit) -> (r: i64)
    requires
        unit_wf(u),
    ensures
        r as int == gap_w(u),
        0 <= r <= MAX_FACTOR,
{
    match u {
        Unit::Stretch(w) => w,
        _ => 0,
    }
}

/// Executable [`gap_fin`].
fn ex_gap_fin(u: Unit, d: i64, free: i64, ss: i64) -> (r: i64)
    requires
        unit_wf(u),
        0 <= d <= MAX_LEN,
        -MAX_LEN <= free <= MAX_LEN,
        0 <= ss <= MAX_LEN,
    ensures
        r as int == gap_fin(u, d as int, free as int, ss as int),
        0 <= r <= MAX_LEN,
{
    match u {
        Unit::Stretch(w) => share_len(free, ss, w),
        _ => ex_gap_used(u, d),
    }
}

/// The horizontal or vertical [`Axis`] of a style, executably.
fn ex_ax_of(st: &Style, inh_b: Unit, inh_a: Unit, horiz: bool) -> (a: Axis)
    ensures
        a == ax_of(*st, inh_b, inh_a, horiz),
{
    if horiz {
        Axis {
            before: st.left,
            size: st.width,
            after: st.right,
            min_before: st.min_left,
            max_before: st.max_left,
            min_size: st.min_width,
            max_size: st.max_width,
            min_after: st.min_right,
            max_after: st.max_right,
            inh_before: inh_b,
            inh_after: inh_a,
        }
    } else {
        Axis {
            before: st.top,
            size: st.height,
            after: st.bottom,
            min_before: st.min_top,
            max_before: st.max_top,
            min_size: st.min_height,
            max_size: st.max_height,
            min_after: st.min_bottom,
            max_after: st.max_bottom,
            inh_before: inh_b,
            inh_after: inh_a,
        }
    }
}

/// Executable [`ax_fix`].
fn ex_ax_fix(a: Axis, meas: i64, d: i64) -> (r: i64)
    requires
        axis_wf(a),
        0 <= d <= MAX_LEN,
        0 <= meas <= MAX_LEN,
    ensures
        r as int == ax_fix(a, meas as int, d as int),
        -3 * MAX_LEN <= r <= 3 * MAX_LEN,
{
    proof {
        reveal(ax_fix);
    }
    let b = ex_fix_off(a.before, a.inh_before, d, a.min_before, a.max_before);
    let s = ex_fix_len(a.size, d, meas, a.min_size, a.max_size);
    let e = ex_fix_off(a.after, a.inh_after, d, a.min_after, a.max_after);
    b + s + e
}

/// Executable [`ax_w`].
fn ex_ax_w(a: Axis) -> (r: i64)
    requires
        axis_wf(a),
    ensures
        r as int == ax_w(a),
        0 <= r <= 3 * MAX_FACTOR,
{
    proof {
        reveal(ax_w);
    }
    let b = ex_off_w(a.before, a.inh_before);
    let s = ex_size_w(a.size);
    let e = ex_off_w(a.after, a.inh_after);
    b + s + e
}

/// Executable [`ax_triple`], returned as (before, size, after).
fn ex_ax_triple(a: Axis, meas: i64, d: i64, free: i64, ss: i64) -> (r: (i64, i64, i64))
    requires
        axis_wf(a),
        0 <= d <= MAX_LEN,
        0 <= meas <= MAX_LEN,
        -MAX_LEN <= free <= MAX_LEN,
        0 <= ss <= MAX_LEN,
    ensures
        r.0 as int == ax_triple(a, meas as int, d as int, free as int, ss as int).before,
        r.1 as int == ax_triple(a, meas as int, d as int, free as int, ss as int).size,
        r.2 as int == ax_triple(a, meas as int, d as int, free as int, ss as int).after,
        -MAX_LEN <= r.0 <= MAX_LEN,
        0 <= r.1 <= MAX_LEN,
        -MAX_LEN <= r.2 <= MAX_LEN,
{
    proof {
        reveal(ax_triple);
    }
    let b = ex_fin_off(a.before, a.inh_before, d, a.min_before, a.max_before, free, ss);
    let s = ex_fin_len(a.size, d, meas, a.min_size, a.max_size, free, ss);
    let e = ex_fin_off(a.after, a.inh_after, d, a.min_after, a.max_after, free, ss);
    (b, s, e)
}

// ---------------------------------------------------------------------
// Measurement pass: bottom-up intrinsic sizes and child aggregates.
// ---------------------------------------------------------------------

/// The measured (desired) size of a node, before placement.
pub ghost struct MeasM {
    pub width: int,
    pub height: int,
}

/// Aggregated child measurements of a container.
pub ghost struct AggM {
    pub width_sum: int,
    pub width_max: int,
    pub height_sum: int,
    pub height_max: int,
    pub row_max: int,
    pub col_max: int,
}

pub open spec fn zero_agg() -> AggM {
    AggM { width_sum: 0, width_max: 0, height_sum: 0, height_max: 0, row_max: 0, col_max: 0 }
}

/// A node participates in its parent's flow: it has a style and is
/// parent-directed.  Nodes without a style record are kept out of flow and
/// pinned, zero-sized, at the parent's origin.
pub open spec fn in_flow(s: StyleMap, j: int) -> bool {
    match s.spec_get(j) {
        Some(st) => st.position_type == PositionType::ParentDirected,
        None => false,
    }
}

/// What an `Auto` width falls back to: a row sums child widths, every
/// other layout takes the widest child.
pub open spec fn auto_w(lt: LayoutType, ag: AggM) -> int {
    match lt {
        LayoutType::Row => ag.width_sum,
        _ => ag.width_max,
    }
}

/// What an `Auto` height falls back to: a column sums child heights,
/// every other layout takes the tallest child.
pub open spec fn auto_h(lt: LayoutType, ag: AggM) -> int {
    match lt {
        LayoutType::Column => ag.height_sum,
        _ => ag.height_max,
    }
}

/// One axis of the measurement pass: fixed pixels are taken literally,
/// `Auto` takes the externally measured content size or the child
/// aggregate, percentages and stretch stay unresolved (zero) until
/// placement.  The result is clamped by the min/max units resolved
/// against a zero-sized parent (fixed pixels only).
pub open spec fn meas_axis(u: Unit, minu: Unit, maxu: Unit, content: Option<int>, fb: int) -> int {
    let v = match u {
        Unit::Pixels(px) => cl_len(px as int),
        Unit::Auto => match content {
            Some(c) => cl_len(c),
            None => fb,
        },
        _ => 0,
    };
    clamp2(v, res_min_len(minu, 0), res_max_len(maxu, 0))
}

/// The measured size of node `x`: its style's size constraints combined
/// with the external content measurement and its children's aggregates.
/// A node without a style measures zero.
pub open spec fn spec_measured(t: Tree, s: StyleMap, m: ContentMap, x: int) -> MeasM
    decreases t.n() - x, 0int,
{
    if t.valid(x) {
        match s.spec_get(x) {
            Some(st) => {
                let ag = match t.fc_of(x) {
                    Some(c) => if x < c < t.n() {
                        spec_agg(t, s, m, c)
                    } else {
                        zero_agg()
                    },
                    None => zero_agg(),
                };
                let cw = match m.spec_get(x) {
                    Some(sz) => Some(sz.width as int),
                    None => None,
                };
                let ch = match m.spec_get(x) {
                    Some(sz) => Some(sz.height as int),
                    None => None,
                };
                MeasM {
                    width: meas_axis(st.width, st.min_width, st.max_width, cw, auto_w(
                        st.layout_type,
                        ag,
                    )),
                    height: meas_axis(st.height, st.min_height, st.max_height, ch, auto_h(
                        st.layout_type,
                        ag,
                    )),
                }
            },
            None => MeasM { width: 0, height: 0 },
        }
    } else {
        MeasM { width: 0, height: 0 }
    }
}

/// The measured-size aggregates over the sibling chain starting at `j`:
/// flow members contribute their measured sizes (saturating sums, plain
/// maxima) and their declared grid track extents.
pub open spec fn spec_agg(t: Tree, s: StyleMap, m: ContentMap, j: int) -> AggM
    decreases t.n() - j, 1int,
{
    if t.valid(j) {
        let rest = match t.ns_of(j) {
            Some(nx) => if j < nx < t.n() {
                spec_agg(t, s, m, nx)
            } else {
                zero_agg()
            },
            None => zero_agg(),
        };
        if in_flow(s, j) {
            let sz = spec_measured(t, s, m, j);
            let st = s.spec_get(j).unwrap();
            AggM {
                width_sum: cl_len(rest.width_sum + sz.width),
                width_max: if sz.width > rest.width_max {
                    sz.width
                } else {
                    rest.width_max
                },
                height_sum: cl_len(rest.height_sum + sz.height),
                height_max: if sz.height > rest.height_max {
                    sz.height
                } else {
                    rest.height_max
                },
                row_max: if st.row_index + st.row_span > rest.row_max {
                    st.row_index + st.row_span
                } else {
                    rest.row_max
                },
                col_max: if st.col_index + st.col_span > rest.col_max {
                    st.col_index + st.col_span
                } else {
                    rest.col_max
                },
            }
        } else {
            rest
        }
    } else {
        zero_agg()
    }
}

/// The child aggregates of container `p` (its first child's chain).
pub open spec fn spec_agg_of(t: Tree, s: StyleMap, m: ContentMap, p: int) -> AggM {
    match t.fc_of(p) {
        Some(c) => if p < c < t.n() {
            spec_agg(t, s, m, c)
        } else {
            zero_agg()
        },
        None => zero_agg(),
    }
}

/// Measured sizes stay within the saturation bounds.
pub proof fn lemma_meas_bounds(t: Tree, s: StyleMap, m: ContentMap, x: int)
    requires
        s.wf(),
    ensures
        0 <= spec_measured(t, s, m, x).width <= MAX_LEN,
        0 <= spec_measured(t, s, m, x).height <= MAX_LEN,
    decreases t.n() - x, 0int,
{
    if t.valid(x) {
        match t.fc_of(x) {
            Some(c) => {
                if x < c < t.n() {
                    lemma_agg_bounds(t, s, m, c);
                }
            },
            None => {},
        }
    }
}

/// Child aggregates stay within the saturation bounds.
pub proof fn lemma_agg_bounds(t: Tree, s: StyleMap, m: ContentMap, j: int)
    requires
        s.wf(),
    ensures
        0 <= spec_agg(t, s, m, j).width_sum <= MAX_LEN,
        0 <= spec_agg(t, s, m, j).width_max <= MAX_LEN,
        0 <= spec_agg(t, s, m, j).height_sum <= MAX_LEN,
        0 <= spec_agg(t, s, m, j).height_max <= MAX_LEN,
        0 <= spec_agg(t, s, m, j).row_max <= 2 * MAX_FACTOR,
        0 <= spec_agg(t, s, m, j).col_max <= 2 * MAX_FACTOR,
    decreases t.n() - j, 1int,
{
    if t.valid(j) {
        match t.ns_of(j) {
            Some(nx) => {
                if j < nx < t.n() {
                    lemma_agg_bounds(t, s, m, nx);
                }
            },
            None => {},
        }
        if in_flow(s, j) {
            lemma_meas_bounds(t, s, m, j);
        }
    }
}

/// The bounds of [`spec_agg_of`], for use at call sites.
pub proof fn lemma_agg_of_bounds(t: Tree, s: StyleMap, m: ContentMap, p: int)
    requires
        s.wf(),
    ensures
        0 <= spec_agg_of(t, s, m, p).width_sum <= MAX_LEN,
        0 <= spec_agg_of(t, s, m, p).width_max <= MAX_LEN,
        0 <= spec_agg_of(t, s, m, p).height_sum <= MAX_LEN,
        0 <= spec_agg_of(t, s, m, p).height_max <= MAX_LEN,
        0 <= spec_agg_of(t, s, m, p).row_max <= 2 * MAX_FACTOR,
        0 <= spec_agg_of(t, s, m, p).col_max <= 2 * MAX_FACTOR,
{
    match t.fc_of(p) {
        Some(c) => {
            if p < c < t.n() {
                lemma_agg_bounds(t, s, m, c);
            }
        },
        None => {},
    }
}

/// The measurement-pass facts about one cache entry: the working size and
/// the aggregate scalars match the model.
#[verifier::opaque]
pub open spec fn meas_matches(t: Tree, s: StyleMap, m: ContentMap, e: CacheEntry, x: int) -> bool {
    &&& e.size.width as int == spec_measured(t, s, m, x).width
    &&& e.size.height as int == spec_measured(t, s, m, x).height
    &&& e.child_width_sum as int == spec_agg_of(t, s, m, x).width_sum
    &&& e.child_width_max as int == spec_agg_of(t, s, m, x).width_max
    &&& e.child_height_sum as int == spec_agg_of(t, s, m, x).height_sum
    &&& e.child_height_max as int == spec_agg_of(t, s, m, x).height_max
    &&& e.grid_row_max as int == spec_agg_of(t, s, m, x).row_max
    &&& e.grid_col_max as int == spec_agg_of(t, s, m, x).col_max
}

/// Executable [`meas_axis`].
fn ex_meas_axis(u: Unit, minu: Unit, maxu: Unit, content: Option<i64>, fb: i64) -> (r: i64)
    requires
        unit_wf(u),
        unit_wf(minu),
        unit_wf(maxu),
        0 <= fb <= MAX_LEN,
    ensures
        r as int == meas_axis(
            u,
            minu,
            maxu,
            (match content {
                Some(c) => Some(c as int),
                None => None,
            }),
            fb as int,
        ),
        0 <= r <= MAX_LEN,
{
    let lo = ex_res_min_len(minu, 0);
    let hi = ex_res_max_len(maxu, 0);
    let v: i64 = match u {
        Unit::Pixels(px) => clamp_len(px),
        Unit::Auto => match content {
            Some(c) => clamp_len(c),
            None => fb,
        },
        _ => 0,
    };
    clamp_between(v, lo, hi)
}

/// The bottom-up measurement of the subtree under `i`: children first,
/// then `i`'s aggregates and working size.  Entries outside the subtree
/// are untouched; entries inside keep everything but their measurement
/// fields.
#[verifier::rlimit(100)]
#[verifier::spinoff_prover]
fn measure_rec(cache: &mut LayoutCache, t: &Tree, s: &StyleMap, m: &ContentMap, i: usize)
    requires
        t.wf(),
        s.wf(),
        m.wf(),
        t.valid(i as int),
        forall|x: int| t.subtree(i as int).contains(x) ==> old(cache).registered(x),
    ensures
        final(cache).entries@.len() == old(cache).entries@.len(),
        forall|x: int| final(cache).registered(x) == old(cache).registered(x),
        forall|x: int|
            0 <= x < old(cache).entries@.len() && !t.subtree(i as int).contains(x) ==> final(cache).entries@[x] == old(cache).entries@[x],
        forall|x: int|
            t.subtree(i as int).contains(x) ==> meas_matches(
                *t,
                *s,
                *m,
                final(cache).entry_of(x),
                x,
            ),
    decreases t.n() - i,
{
    proof {
        t.lemma_subtree_bounds(i as int);
        t.lemma_children_valid(i as int);
    }
    let cs = t.child_iter(i);
    let mut k: usize = 0;
    while k < cs.len()
        invariant
            t.wf(),
            s.wf(),
            m.wf(),
            t.valid(i as int),
            as_ints(cs@) == t.children_of(i as int),
            forall|kk: int| 0 <= kk < cs@.len() ==> (#[trigger] cs@[kk] as int) < t.n(),
            k <= cs@.len(),
            cache.entries@.len() == old(cache).entries@.len(),
            forall|x: int| cache.registered(x) == old(cache).registered(x),
            forall|x: int|
                0 <= x < old(cache).entries@.len() && !t.subtree(i as int).contains(x)
                    ==> cache.entries@[x] == old(cache).entries@[x],
            forall|x: int| t.subtree(i as int).contains(x) ==> old(cache).registered(x),
            forall|tt: int|
                0 <= tt < k ==> (forall|x: int|
                    t.subtree(#[trigger] cs@[tt] as int).contains(x) ==> meas_matches(
                        *t,
                        *s,
                        *m,
                        cache.entry_of(x),
                        x,
                    )),
        decreases cs@.len() - k,
    {
        let c = cs[k];
        proof {
            assert(t.children_of(i as int)[k as int] == c as int);
            assert(t.children_of(i as int).contains(c as int));
            t.lemma_children_valid(i as int);
            t.lemma_child_subtree_in_parent(i as int, c as int);
            t.lemma_subtree_bounds(c as int);
        }
        let ghost pre = *cache;
        measure_rec(cache, t, s, m, c);
        proof {
            assert forall|x: int|
                0 <= x < old(cache).entries@.len() && !t.subtree(i as int).contains(
                    x,
                ) implies cache.entries@[x] == old(cache).entries@[x] by {
                if t.subtree(c as int).contains(x) {
                    assert(t.subtree(i as int).contains(x));
                } else {
                    assert(cache.entries@[x] == pre.entries@[x]);
                }
            }
            assert forall|tt: int, x: int|
                #![trigger t.subtree(cs@[tt] as int).contains(x)]
                0 <= tt < k + 1 && t.subtree(cs@[tt] as int).contains(
                    x,
                ) implies meas_matches(*t, *s, *m, cache.entry_of(x), x) by {
                if tt == k {
                } else {
                    if t.subtree(c as int).contains(x) {
                    } else {
                        assert(t.children_of(i as int)[tt] == cs@[tt] as int);
                        assert(t.children_of(i as int).contains(cs@[tt] as int));
                        t.lemma_child_subtree_in_parent(i as int, cs@[tt] as int);
                        assert(t.subtree(i as int).contains(x));
                        assert(pre.registered(x));
                        assert(cache.entries@[x] == pre.entries@[x]);
                        assert(cache.entry_of(x) == pre.entry_of(x));
                    }
                }
            }
        }
        k = k + 1;
    }
    proof {
        reveal(meas_matches);
        assert forall|kk: int| 0 <= kk < cs@.len() implies {
            &&& cache.entry_of(#[trigger] cs@[kk] as int).size.width as int == spec_measured(
                *t,
                *s,
                *m,
                cs@[kk] as int,
            ).width
            &&& cache.entry_of(cs@[kk] as int).size.height as int == spec_measured(
                *t,
                *s,
                *m,
                cs@[kk] as int,
            ).height
        } by {
            assert(t.children_of(i as int)[kk] == cs@[kk] as int);
            t.lemma_subtree_contains_root(cs@[kk] as int);
        }
        assert(t.subtree(i as int).contains(i as int)) by {
            t.lemma_subtree_bounds(i as int);
        }
    }
    let ghost pre2 = *cache;
    measure_node(cache, t, s, m, i, &cs);
    proof {
        assert forall|x: int| t.subtree(i as int).contains(x) implies meas_matches(
            *t,
            *s,
            *m,
            cache.entry_of(x),
            x,
        ) by {
            if x != i {
                t.lemma_subtree_member(i as int, x);
                let kk = choose|kk: int|
                    0 <= kk < t.children_of(i as int).len() && t.subtree(
                        #[trigger] t.children_of(i as int)[kk],
                    ).contains(x);
                assert(cs@[kk] as int == t.children_of(i as int)[kk]);
                t.lemma_subtree_bounds(t.children_of(i as int)[kk]);
                assert(x != i as int);
                assert(pre2.registered(x));
                assert(cache.entries@[x] == pre2.entries@[x]);
                assert(cache.entry_of(x) == pre2.entry_of(x));
            }
        }
    }
}

/// The children vector of a node is linked by next-sibling edges and ends
/// the chain.
proof fn lemma_children_linkage(t: Tree, i: int, cs: Seq<usize>)
    requires
        t.wf(),
        t.valid(i),
        as_ints(cs) == t.children_of(i),
    ensures
        forall|kk: int|
            #![trigger t.ns_of(cs[kk] as int)]
            0 <= kk < cs.len() - 1 ==> t.ns_of(cs[kk] as int) == Some(cs[kk + 1] as int),
        cs.len() > 0 ==> t.ns_of(cs[cs.len() - 1] as int) is None,
        forall|kk: int|
            0 <= kk < cs.len() ==> t.children_of(i)[kk] == (#[trigger] cs[kk]) as int,
{
    assert(t.children_of(i).len() == cs.len());
    assert forall|kk: int| 0 <= kk < cs.len() implies t.children_of(i)[kk] == (
    #[trigger] cs[kk]) as int by {
        assert(as_ints(cs)[kk] == cs[kk] as int);
    }
    if cs.len() > 0 {
        match t.fc_of(i) {
            Some(c0) => {
                t.lemma_chain(c0);
                assert forall|kk: int| 0 <= kk < cs.len() - 1 implies t.ns_of(cs[kk] as int)
                    == Some(cs[kk + 1] as int) by {
                    assert(t.sib_chain(c0)[kk] == cs[kk] as int);
                    assert(t.sib_chain(c0)[kk + 1] == cs[kk + 1] as int);
                }
                assert(t.sib_chain(c0).last() == cs[cs.len() - 1] as int);
            },
            None => {
                assert(false);
            },
        }
    }
}

/// The measurement fold over the children of `i`: sums and maxima of the
/// children's measured sizes and grid extents, mirroring the chain
/// recursion from the back of the chain forward.
#[verifier::rlimit(100)]
#[verifier::spinoff_prover]
fn measure_fold(cache: &LayoutCache, t: &Tree, s: &StyleMap, m: &ContentMap, i: usize, cs: &Vec<
    usize,
>) -> (r: (i64, i64, i64, i64, i64, i64))
    requires
        t.wf(),
        s.wf(),
        m.wf(),
        t.valid(i as int),
        as_ints(cs@) == t.children_of(i as int),
        forall|kk: int| 0 <= kk < cs@.len() ==> (#[trigger] cs@[kk] as int) < t.n(),
        forall|kk: int|
            0 <= kk < cs@.len() ==> cache.entry_of(#[trigger] cs@[kk] as int).size.width as int
                == spec_measured(*t, *s, *m, cs@[kk] as int).width,
        forall|kk: int|
            0 <= kk < cs@.len() ==> cache.entry_of(#[trigger] cs@[kk] as int).size.height as int
                == spec_measured(*t, *s, *m, cs@[kk] as int).height,
    ensures
        r.0 as int == spec_agg_of(*t, *s, *m, i as int).width_sum,
        r.1 as int == spec_agg_of(*t, *s, *m, i as int).width_max,
        r.2 as int == spec_agg_of(*t, *s, *m, i as int).height_sum,
        r.3 as int == spec_agg_of(*t, *s, *m, i as int).height_max,
        r.4 as int == spec_agg_of(*t, *s, *m, i as int).row_max,
        r.5 as int == spec_agg_of(*t, *s, *m, i as int).col_max,
        0 <= r.0 <= MAX_LEN,
        0 <= r.1 <= MAX_LEN,
        0 <= r.2 <= MAX_LEN,
        0 <= r.3 <= MAX_LEN,
        0 <= r.4 <= 2 * MAX_FACTOR,
        0 <= r.5 <= 2 * MAX_FACTOR,
{
    // fold the children's measured sizes into the aggregates, from the
    // back of the chain forward, mirroring the chain recursion
    let mut ws: i64 = 0;
    let mut wm: i64 = 0;
    let mut hs: i64 = 0;
    let mut hm: i64 = 0;
    let mut rm: i64 = 0;
    let mut cm: i64 = 0;
    let mut k2: usize = cs.len();
    proof {
        lemma_children_linkage(*t, i as int, cs@);
        lemma_agg_of_bounds(*t, *s, *m, i as int);
    }
    while k2 > 0
        invariant
            t.wf(),
            s.wf(),
            m.wf(),
            t.valid(i as int),
            as_ints(cs@) == t.children_of(i as int),
            forall|kk: int| 0 <= kk < cs@.len() ==> (#[trigger] cs@[kk] as int) < t.n(),
            k2 <= cs@.len(),
            forall|kk: int|
                0 <= kk < cs@.len() ==> cache.entry_of(
                    #[trigger] cs@[kk] as int,
                ).size.width as int == spec_measured(*t, *s, *m, cs@[kk] as int).width,
            forall|kk: int|
                0 <= kk < cs@.len() ==> cache.entry_of(
                    #[trigger] cs@[kk] as int,
                ).size.height as int == spec_measured(*t, *s, *m, cs@[kk] as int).height,
            forall|kk: int|
                #![trigger t.ns_of(cs@[kk] as int)]
                0 <= kk < cs@.len() - 1 ==> t.ns_of(cs@[kk] as int) == Some(
                    cs@[kk + 1] as int,
                ),
            cs@.len() > 0 ==> t.ns_of(cs@[cs@.len() - 1] as int) is None,
            ({
                let target = if k2 < cs@.len() {
                    spec_agg(*t, *s, *m, cs@[k2 as int] as int)
                } else {
                    zero_agg()
                };
                ws as int == target.width_sum && wm as int == target.width_max && hs as int
                    == target.height_sum && hm as int == target.height_max && rm as int
                    == target.row_max && cm as int == target.col_max
            }),
        decreases k2,
    {
        k2 = k2 - 1;
        let c = cs[k2];
        proof {
            assert(t.children_of(i as int)[k2 as int] == c as int);
            lemma_meas_bounds(*t, *s, *m, c as int);
            lemma_agg_bounds(
                *t,
                *s,
                *m,
                (if k2 as int + 1 < cs@.len() {
                    cs@[k2 as int + 1] as int
                } else {
                    t.n()
                }),
            );
        }
        match s.get(c) {
            Some(st) => {
                if match st.position_type {
                    PositionType::ParentDirected => true,
                    PositionType::SelfDirected => false,
                } {
                    let e = cache.get_entry(c);
                    let sw = e.size.width;
                    let sh = e.size.height;
                    proof {
                        assert(sw as int == spec_measured(*t, *s, *m, c as int).width);
                        assert(0 <= sw <= MAX_LEN && 0 <= sh <= MAX_LEN);
                        assert(st.row_index <= MAX_FACTOR && st.row_span <= MAX_FACTOR);
                        assert(st.col_index <= MAX_FACTOR && st.col_span <= MAX_FACTOR);
                    }
                    ws = clamp_len(ws + sw);
                    if sw > wm {
                        wm = sw;
                    }
                    hs = clamp_len(hs + sh);
                    if sh > hm {
                        hm = sh;
                    }
                    let re: i64 = st.row_index as i64 + st.row_span as i64;
                    if re > rm {
                        rm = re;
                    }
                    let ce: i64 = st.col_index as i64 + st.col_span as i64;
                    if ce > cm {
                        cm = ce;
                    }
                }
            },
            None => {},
        }
    }
    proof {
        if cs@.len() > 0 {
            assert(t.children_of(i as int)[0] == cs@[0] as int);
            assert(spec_agg_of(*t, *s, *m, i as int) == spec_agg(*t, *s, *m, cs@[0] as int));
        } else {
            match t.fc_of(i as int) {
                Some(c0) => {
                    t.lemma_chain(c0);
                    assert(false);
                },
                None => {},
            }
        }
    }
    (ws, wm, hs, hm, rm, cm)
}

/// The measurement work of a single node, its children already measured:
/// fold their sizes into the aggregates, resolve the node's own working
/// size, and store both.  Only the node's own entry changes.
#[verifier::rlimit(100)]
#[verifier::spinoff_prover]
fn measure_node(cache: &mut LayoutCache, t: &Tree, s: &StyleMap, m: &ContentMap, i: usize, cs: &Vec<
    usize,
>)
    requires
        t.wf(),
        s.wf(),
        m.wf(),
        t.valid(i as int),
        as_ints(cs@) == t.children_of(i as int),
        forall|kk: int| 0 <= kk < cs@.len() ==> (#[trigger] cs@[kk] as int) < t.n(),
        forall|kk: int|
            0 <= kk < cs@.len() ==> old(cache).entry_of(
                #[trigger] cs@[kk] as int,
            ).size.width as int == spec_measured(*t, *s, *m, cs@[kk] as int).width,
        forall|kk: int|
            0 <= kk < cs@.len() ==> old(cache).entry_of(
                #[trigger] cs@[kk] as int,
            ).size.height as int == spec_measured(*t, *s, *m, cs@[kk] as int).height,
        old(cache).registered(i as int),
    ensures
        final(cache).entries@.len() == old(cache).entries@.len(),
        forall|x: int| final(cache).registered(x) == old(cache).registered(x),
        forall|y: int|
            0 <= y < old(cache).entries@.len() && y != i ==> final(cache).entries@[y] == old(cache).entries@[y],
        meas_matches(*t, *s, *m, final(cache).entry_of(i as int), i as int),
{
    let (ws, wm, hs, hm, rm, cm) = measure_fold(cache, t, s, m, i, cs);
    let ghost ag = spec_agg_of(*t, *s, *m, i as int);
    let mut mw: i64 = 0;
    let mut mh: i64 = 0;
    match s.get(i) {
        Some(st) => {
            let fw: i64 = match st.layout_type {
                LayoutType::Row => ws,
                _ => wm,
            };
            let fh: i64 = match st.layout_type {
                LayoutType::Column => hs,
                _ => hm,
            };
            let cont = match m.get(i) {
                Some(sz) => Some(sz.width),
                None => None,
            };
            let conth = match m.get(i) {
                Some(sz) => Some(sz.height),
                None => None,
            };
            proof {
                assert(fw as int == auto_w(st.layout_type, ag));
                assert(fh as int == auto_h(st.layout_type, ag));
            }
            mw = ex_meas_axis(st.width, st.min_width, st.max_width, cont, fw);
            mh = ex_meas_axis(st.height, st.min_height, st.max_height, conth, fh);
            proof {
                assert(mw as int == spec_measured(*t, *s, *m, i as int).width);
                assert(mh as int == spec_measured(*t, *s, *m, i as int).height);
            }
        },
        None => {
            proof {
                assert(spec_measured(*t, *s, *m, i as int).width == 0);
            }
        },
    }
    let e = cache.get_entry(i);
    cache.set_entry(
        i,
        CacheEntry {
            size: Size { width: mw, height: mh },
            child_width_sum: ws,
            child_width_max: wm,
            child_height_sum: hs,
            child_height_max: hm,
            grid_row_max: rm,
            grid_col_max: cm,
            ..e
        },
    );
    proof {
        reveal(meas_matches);
        assert(cache.registered(i as int));
        assert(meas_matches(*t, *s, *m, cache.entry_of(i as int), i as int));
    }
}

// ---------------------------------------------------------------------
// Placement pass: the mathematical model.
// ---------------------------------------------------------------------

/// Some later member of `j`'s sibling chain participates in flow (so a gap
/// follows a flow child at `j`).
pub open spec fn flow_after(t: Tree, s: StyleMap, j: int) -> bool
    decreases t.n() - j,
{
    match t.ns_of(j) {
        Some(nx) => if j < nx < t.n() {
            in_flow(s, nx) || flow_after(t, s, nx)
        } else {
            false
        },
        None => false,
    }
}

/// The measured main-axis size of node `j`.
pub open spec fn meas_of(t: Tree, s: StyleMap, m: ContentMap, j: int, horiz: bool) -> int {
    if horiz {
        spec_measured(t, s, m, j).width
    } else {
        spec_measured(t, s, m, j).height
    }
}

/// Main-axis space already spoken for from `j`'s chain position on: the
/// fixed parts of the flow members' triples plus the fixed inter-child
/// gaps.
pub open spec fn used_from(
    t: Tree,
    s: StyleMap,
    m: ContentMap,
    j: int,
    d: int,
    inh_b: Unit,
    inh_a: Unit,
    gap: Unit,
    horiz: bool,
) -> int
    decreases t.n() - j,
{
    if t.valid(j) {
        let rest = match t.ns_of(j) {
            Some(nx) => if j < nx < t.n() {
                used_from(t, s, m, nx, d, inh_b, inh_a, gap, horiz)
            } else {
                0
            },
            None => 0,
        };
        if in_flow(s, j) {
            let st = s.spec_get(j).unwrap();
            let a = ax_of(st, inh_b, inh_a, horiz);
            cl_off(
                ax_fix(a, meas_of(t, s, m, j, horiz), d) + (if flow_after(t, s, j) {
                    gap_used(gap, d)
                } else {
                    0
                }) + rest,
            )
        } else {
            rest
        }
    } else {
        0
    }
}

/// The stretch weights competing for the container's main-axis free space
/// from `j`'s chain position on.
pub open spec fn wsum_from(
    t: Tree,
    s: StyleMap,
    j: int,
    inh_b: Unit,
    inh_a: Unit,
    gap: Unit,
    horiz: bool,
) -> int
    decreases t.n() - j,
{
    if t.valid(j) {
        let rest = match t.ns_of(j) {
            Some(nx) => if j < nx < t.n() {
                wsum_from(t, s, nx, inh_b, inh_a, gap, horiz)
            } else {
                0
            },
            None => 0,
        };
        if in_flow(s, j) {
            let st = s.spec_get(j).unwrap();
            let a = ax_of(st, inh_b, inh_a, horiz);
            cl_len(
                ax_w(a) + (if flow_after(t, s, j) {
                    gap_w(gap)
                } else {
                    0
                }) + rest,
            )
        } else {
            rest
        }
    } else {
        0
    }
}

/// The container insets an `Auto` edge inherits: before/after on the
/// horizontal or vertical axis.
pub open spec fn inh_of(pst: Option<Style>, horiz: bool, before: bool) -> Unit {
    match pst {
        Some(st) => if horiz {
            if before {
                st.child_left
            } else {
                st.child_right
            }
        } else {
            if before {
                st.child_top
            } else {
                st.child_bottom
            }
        },
        None => Unit::Auto,
    }
}

/// The inter-child gap of a container along an axis: `col_between`
/// separates horizontally adjacent children, `row_between` vertically
/// adjacent ones.
pub open spec fn gap_of(pst: Option<Style>, horiz: bool) -> Unit {
    match pst {
        Some(st) => if horiz {
            st.col_between
        } else {
            st.row_between
        },
        None => Unit::Auto,
    }
}

/// A container without a style record lays its children out as a row.
pub open spec fn layout_of(pst: Option<Style>) -> LayoutType {
    match pst {
        Some(st) => st.layout_type,
        None => LayoutType::Row,
    }
}

/// A content box: the container's rectangle inset by its border on all
/// four sides.
pub ghost struct BoxM {
    pub cx: int,
    pub cy: int,
    pub cw: int,
    pub ch: int,
}

pub open spec fn content_box(pst: Option<Style>, pr: RectM) -> BoxM {
    let bu = match pst {
        Some(st) => st.border,
        None => Unit::Auto,
    };
    let bw = res_border(bu, pr.width);
    let bh = res_border(bu, pr.height);
    BoxM {
        cx: cl_off(pr.posx + bw),
        cy: cl_off(pr.posy + bh),
        cw: cl_len(pr.width - 2 * bw),
        ch: cl_len(pr.height - 2 * bh),
    }
}

/// The main-axis space used by the flow children of `p`, against content
/// dimension `d`.
pub open spec fn flow_used(t: Tree, s: StyleMap, m: ContentMap, p: int, d: int, horiz: bool) -> int {
    let pst = s.spec_get(p);
    match t.fc_of(p) {
        Some(c) => if p < c < t.n() {
            used_from(
                t,
                s,
                m,
                c,
                d,
                inh_of(pst, horiz, true),
                inh_of(pst, horiz, false),
                gap_of(pst, horiz),
                horiz,
            )
        } else {
            0
        },
        None => 0,
    }
}

/// The main-axis free space of flow container `p`.
pub open spec fn flow_free(t: Tree, s: StyleMap, m: ContentMap, p: int, d: int, horiz: bool) -> int {
    cl_off(d - flow_used(t, s, m, p, d, horiz))
}

/// The main-axis stretch weight sum of flow container `p`.
pub open spec fn flow_wsum(t: Tree, s: StyleMap, p: int, horiz: bool) -> int {
    let pst = s.spec_get(p);
    match t.fc_of(p) {
        Some(c) => if p < c < t.n() {
            wsum_from(
                t,
                s,
                c,
                inh_of(pst, horiz, true),
                inh_of(pst, horiz, false),
                gap_of(pst, horiz),
                horiz,
            )
        } else {
            0
        },
        None => 0,
    }
}

/// The flow cursor just before the `k`-th child of the chain `ch` is
/// placed: `start` advanced by every earlier flow child's placed triple
/// and following gap.
#[verifier::opaque]
pub open spec fn cursor_at(
    t: Tree,
    s: StyleMap,
    m: ContentMap,
    ch: Seq<int>,
    k: int,
    start: int,
    d: int,
    inh_b: Unit,
    inh_a: Unit,
    gap: Unit,
    horiz: bool,
    free: int,
    ss: int,
) -> int
    decreases k,
{
    if k <= 0 {
        start
    } else {
        let prev = cursor_at(t, s, m, ch, k - 1, start, d, inh_b, inh_a, gap, horiz, free, ss);
        let j = ch[k - 1];
        if in_flow(s, j) {
            let st = s.spec_get(j).unwrap();
            let a = ax_of(st, inh_b, inh_a, horiz);
            let tr = ax_triple(a, meas_of(t, s, m, j, horiz), d, free, ss);
            cl_off(
                prev + tr.before + tr.size + tr.after + (if flow_after(t, s, j) {
                    gap_fin(gap, d, free, ss)
                } else {
                    0
                }),
            )
        } else {
            prev
        }
    }
}

pub proof fn lemma_cursor_bounds(
    t: Tree,
    s: StyleMap,
    m: ContentMap,
    ch: Seq<int>,
    k: int,
    start: int,
    d: int,
    inh_b: Unit,
    inh_a: Unit,
    gap: Unit,
    horiz: bool,
    free: int,
    ss: int,
)
    requires
        -MAX_LEN <= start <= MAX_LEN,
    ensures
        -MAX_LEN <= cursor_at(t, s, m, ch, k, start, d, inh_b, inh_a, gap, horiz, free, ss)
            <= MAX_LEN,
    decreases k,
{
    reveal(cursor_at);
    if k > 0 {
        lemma_cursor_bounds(t, s, m, ch, k - 1, start, d, inh_b, inh_a, gap, horiz, free, ss);
    }
}

/// The first flow member of the chain starting at `j`.
pub open spec fn first_flow(t: Tree, s: StyleMap, j: int) -> Option<int>
    decreases t.n() - j,
{
    if t.valid(j) {
        if in_flow(s, j) {
            Some(j)
        } else {
            match t.ns_of(j) {
                Some(nx) => if j < nx < t.n() {
                    first_flow(t, s, nx)
                } else {
                    None
                },
                None => None,
            }
        }
    } else {
        None
    }
}

/// The last flow member of the chain starting at `j`.
pub open spec fn last_flow(t: Tree, s: StyleMap, j: int) -> Option<int>
    decreases t.n() - j,
{
    if t.valid(j) {
        let rest = match t.ns_of(j) {
            Some(nx) => if j < nx < t.n() {
                last_flow(t, s, nx)
            } else {
                None
            },
            None => None,
        };
        match rest {
            Some(x) => Some(x),
            None => if in_flow(s, j) {
                Some(j)
            } else {
                None
            },
        }
    } else {
        None
    }
}

/// `x` is the first flow child of its parent.
pub open spec fn is_first_flow(t: Tree, s: StyleMap, x: int) -> bool {
    match t.parent_of(x) {
        Some(p) => match t.fc_of(p) {
            Some(c) => if p < c < t.n() {
                first_flow(t, s, c) == Some(x)
            } else {
                false
            },
            None => false,
        },
        None => false,
    }
}

/// `x` is the last flow child of its parent.
pub open spec fn is_last_flow(t: Tree, s: StyleMap, x: int) -> bool {
    match t.parent_of(x) {
        Some(p) => match t.fc_of(p) {
            Some(c) => if p < c < t.n() {
                last_flow(t, s, c) == Some(x)
            } else {
                false
            },
            None => false,
        },
        None => false,
    }
}

// --- grid tracks ---

/// The declared track units of a grid container along an axis (columns
/// for the horizontal axis, rows for the vertical one); an empty or
/// missing declaration means one implicit stretch track.
pub open spec fn track_units(pst: Option<Style>, horiz: bool) -> Seq<Unit> {
    match pst {
        Some(st) => {
            let us = if horiz {
                st.grid_cols@
            } else {
                st.grid_rows@
            };
            if us.len() == 0 {
                seq![Unit::Stretch(1)]
            } else {
                us
            }
        },
        None => seq![Unit::Stretch(1)],
    }
}

/// Sum of the fixed track sizes among the first `k` tracks.
pub open spec fn tracks_fix(us: Seq<Unit>, d: int, k: int) -> int
    decreases k,
{
    if k <= 0 {
        0
    } else {
        cl_len(tracks_fix(us, d, k - 1) + gap_used(us[k - 1], d))
    }
}

/// Sum of the stretch weights among the first `k` tracks.
pub open spec fn tracks_w(us: Seq<Unit>, k: int) -> int
    decreases k,
{
    if k <= 0 {
        0
    } else {
        cl_len(tracks_w(us, k - 1) + gap_w(us[k - 1]))
    }
}

/// The free space the stretch tracks of a grid axis share: the content
/// dimension minus the fixed tracks and the inter-track gaps.
pub open spec fn grid_free(us: Seq<Unit>, d: int, g: int) -> int {
    cl_off(d - tracks_fix(us, d, us.len() as int) - (us.len() - 1) * g)
}

/// The resolved pixel size of one track.
pub open spec fn track_size(u: Unit, d: int, free: int, ss: int) -> int {
    match u {
        Unit::Pixels(v) => cl_len(v as int),
        Unit::Percentage(p) => cl_len(pct_of(d, p as int)),
        Unit::Stretch(w) => cl_len(stretch_share(free, ss, w as int)),
        Unit::Auto => 0,
    }
}

/// The offset of track `k`'s start from the content origin.
pub open spec fn track_pos(us: Seq<Unit>, d: int, g: int, free: int, ss: int, k: int) -> int
    decreases k,
{
    if k <= 0 {
        0
    } else {
        cl_off(track_pos(us, d, g, free, ss, k - 1) + track_size(us[k - 1], d, free, ss) + g)
    }
}

/// The extent of the track span `[i0, i1)`, including the gaps between
/// the spanned tracks.
pub open spec fn span_size(
    us: Seq<Unit>,
    d: int,
    g: int,
    free: int,
    ss: int,
    i0: int,
    i1: int,
) -> int
    decreases i1 - i0,
{
    if i1 <= i0 {
        0
    } else {
        cl_len(
            span_size(us, d, g, free, ss, i0, i1 - 1) + track_size(us[i1 - 1], d, free, ss) + (
            if i1 - 1 > i0 {
                g
            } else {
                0
            }),
        )
    }
}

// --- the placed rectangle and spacing of every node ---

/// What placement computes for one node.
pub ghost struct PlacedM {
    pub rect: RectM,
    pub space: SpaceM,
}

/// The viewport rectangle, saturated into range.
pub open spec fn norm_rect(vp: RectM) -> RectM {
    RectM {
        posx: cl_off(vp.posx),
        posy: cl_off(vp.posy),
        width: cl_len(vp.width),
        height: cl_len(vp.height),
    }
}

/// One grid axis of a child: position and size from its clamped track
/// span, plus its own fixed offset.
pub open spec fn grid_axis(
    st: Style,
    us: Seq<Unit>,
    origin: int,
    d: int,
    g: int,
    idx: int,
    span: int,
    a: Axis,
) -> (int, int) {
    let free = grid_free(us, d, g);
    let ss = tracks_w(us, us.len() as int);
    let i0 = if idx < us.len() {
        idx
    } else {
        us.len() as int
    };
    let want = if span >= 1 {
        span
    } else {
        1
    };
    let i1 = if i0 + want < us.len() {
        i0 + want
    } else {
        us.len() as int
    };
    let off = item_fix(
        res_off(a.before, a.inh_before, d),
        res_min_off(a.min_before, d),
        res_max_off(a.max_before, d),
    );
    let pos = cl_off(origin + track_pos(us, d, g, free, ss, i0) + off);
    let size = clamp2(
        span_size(us, d, g, free, ss, i0, i1),
        res_min_len(a.min_size, d),
        res_max_len(a.max_size, d),
    );
    (pos, size)
}

/// Where a child of container `p` (placed at `pr`) ends up.  This is the
/// heart of the placement pass; `spec_placed` threads it down the tree.
#[verifier::opaque]
pub open spec fn place_in(
    t: Tree,
    s: StyleMap,
    m: ContentMap,
    pr: RectM,
    p: int,
    x: int,
) -> PlacedM {
    let pst = s.spec_get(p);
    let cb = content_box(pst, pr);
    match s.spec_get(x) {
        None => PlacedM { rect: RectM::zero_at(pr.posx, pr.posy), space: SpaceM::zero() },
        Some(st) => {
            let ah = ax_of(st, inh_of(pst, true, true), inh_of(pst, true, false), true);
            let av = ax_of(st, inh_of(pst, false, true), inh_of(pst, false, false), false);
            let mw = meas_of(t, s, m, x, true);
            let mh = meas_of(t, s, m, x, false);
            if st.position_type == PositionType::SelfDirected {
                let th = ax_solo(ah, mw, cb.cw);
                let tv = ax_solo(av, mh, cb.ch);
                PlacedM {
                    rect: RectM {
                        posx: cl_off(pr.posx + th.before),
                        posy: cl_off(pr.posy + tv.before),
                        width: th.size,
                        height: tv.size,
                    },
                    space: SpaceM {
                        left: th.before,
                        right: th.after,
                        top: tv.before,
                        bottom: tv.after,
                    },
                }
            } else {
                match layout_of(pst) {
                    LayoutType::Row => {
                        let free = flow_free(t, s, m, p, cb.cw, true);
                        let ss = flow_wsum(t, s, p, true);
                        let th = ax_triple(ah, mw, cb.cw, free, ss);
                        let tv = ax_solo(av, mh, cb.ch);
                        let ch = t.children_of(p);
                        let base = cursor_at(
                            t,
                            s,
                            m,
                            ch,
                            ch.index_of(x),
                            cb.cx,
                            cb.cw,
                            inh_of(pst, true, true),
                            inh_of(pst, true, false),
                            gap_of(pst, true),
                            true,
                            free,
                            ss,
                        );
                        PlacedM {
                            rect: RectM {
                                posx: cl_off(base + th.before),
                                posy: cl_off(cb.cy + tv.before),
                                width: th.size,
                                height: tv.size,
                            },
                            space: SpaceM {
                                left: th.before,
                                right: th.after,
                                top: tv.before,
                                bottom: tv.after,
                            },
                        }
                    },
                    LayoutType::Column => {
                        let free = flow_free(t, s, m, p, cb.ch, false);
                        let ss = flow_wsum(t, s, p, false);
                        let tv = ax_triple(av, mh, cb.ch, free, ss);
                        let th = ax_solo(ah, mw, cb.cw);
                        let ch = t.children_of(p);
                        let base = cursor_at(
                            t,
                            s,
                            m,
                            ch,
                            ch.index_of(x),
                            cb.cy,
                            cb.ch,
                            inh_of(pst, false, true),
                            inh_of(pst, false, false),
                            gap_of(pst, false),
                            false,
                            free,
                            ss,
                        );
                        PlacedM {
                            rect: RectM {
                                posx: cl_off(cb.cx + th.before),
                                posy: cl_off(base + tv.before),
                                width: th.size,
                                height: tv.size,
                            },
                            space: SpaceM {
                                left: th.before,
                                right: th.after,
                                top: tv.before,
                                bottom: tv.after,
                            },
                        }
                    },
                    LayoutType::Grid => {
                        let cols = track_units(pst, true);
                        let rows = track_units(pst, false);
                        let gx = gap_used(gap_of(pst, true), cb.cw);
                        let gy = gap_used(gap_of(pst, false), cb.ch);
                        let hx = grid_axis(
                            st,
                            cols,
                            cb.cx,
                            cb.cw,
                            gx,
                            st.col_index as int,
                            st.col_span as int,
                            ah,
                        );
                        let vx = grid_axis(
                            st,
                            rows,
                            cb.cy,
                            cb.ch,
                            gy,
                            st.row_index as int,
                            st.row_span as int,
                            av,
                        );
                        PlacedM {
                            rect: RectM {
                                posx: hx.0,
                                posy: vx.0,
                                width: hx.1,
                                height: vx.1,
                            },
                            space: SpaceM {
                                left: item_fix(
                                    res_off(ah.before, ah.inh_before, cb.cw),
                                    res_min_off(ah.min_before, cb.cw),
                                    res_max_off(ah.max_before, cb.cw),
                                ),
                                right: 0,
                                top: item_fix(
                                    res_off(av.before, av.inh_before, cb.ch),
                                    res_min_off(av.min_before, cb.ch),
                                    res_max_off(av.max_before, cb.ch),
                                ),
                                bottom: 0,
                            },
                        }
                    },
                }
            }
        },
    }
}

/// The rectangle and spacing of every node: the root is pinned to the
/// viewport; every other placed node follows from its parent's placement.
/// A node with no parent edge (and which is not the root) is never placed
/// and stays at the zero default.
#[verifier::opaque]
pub open spec fn spec_placed(t: Tree, s: StyleMap, m: ContentMap, vp: RectM, x: int) -> PlacedM
    decreases x,
{
    if !t.valid(x) {
        PlacedM { rect: RectM::zero_at(0, 0), space: SpaceM::zero() }
    } else if x == t.root as int {
        PlacedM { rect: norm_rect(vp), space: SpaceM::zero() }
    } else {
        match t.parent_of(x) {
            Some(p) => if 0 <= p < x {
                place_in(t, s, m, spec_placed(t, s, m, vp, p).rect, p, x)
            } else {
                PlacedM { rect: RectM::zero_at(0, 0), space: SpaceM::zero() }
            },
            None => PlacedM { rect: RectM::zero_at(0, 0), space: SpaceM::zero() },
        }
    }
}

/// The per-container stretch statistics the placement pass records: for a
/// flow container the main-axis free space and weight sum (in the slots of
/// its axis), for a grid container the per-axis track statistics.
#[verifier::opaque]
pub open spec fn stats_of(t: Tree, s: StyleMap, m: ContentMap, vp: RectM, p: int) -> (
    int,
    int,
    int,
    int,
) {
    let pst = s.spec_get(p);
    let cb = content_box(pst, spec_placed(t, s, m, vp, p).rect);
    match layout_of(pst) {
        LayoutType::Row => (flow_free(t, s, m, p, cb.cw, true), flow_wsum(t, s, p, true), 0, 0),
        LayoutType::Column => (0, 0, flow_free(t, s, m, p, cb.ch, false), flow_wsum(
            t,
            s,
            p,
            false,
        )),
        LayoutType::Grid => {
            let cols = track_units(pst, true);
            let rows = track_units(pst, false);
            let gx = gap_used(gap_of(pst, true), cb.cw);
            let gy = gap_used(gap_of(pst, false), cb.ch);
            (grid_free(cols, cb.cw, gx), tracks_w(cols, cols.len() as int), grid_free(
                rows,
                cb.ch,
                gy,
            ), tracks_w(rows, rows.len() as int))
        },
    }
}

/// The placement-pass facts about one cache entry: rectangle, spacing,
/// stack flags and the container's stretch statistics all match the model.
#[verifier::opaque]
pub open spec fn place_matches(
    t: Tree,
    s: StyleMap,
    m: ContentMap,
    vp: RectM,
    e: CacheEntry,
    x: int,
) -> bool {
    &&& e.rect@ == spec_placed(t, s, m, vp, x).rect
    &&& e.space@ == spec_placed(t, s, m, vp, x).space
    &&& e.stack_first_child == is_first_flow(t, s, x)
    &&& e.stack_last_child == is_last_flow(t, s, x)
    &&& e.horizontal_free_space as int == stats_of(t, s, m, vp, x).0
    &&& e.horizontal_stretch_sum as int == stats_of(t, s, m, vp, x).1
    &&& e.vertical_free_space as int == stats_of(t, s, m, vp, x).2
    &&& e.vertical_stretch_sum as int == stats_of(t, s, m, vp, x).3
}

/// Structure of `last_flow`: it returns a flow member of the chain, it is
/// `Some` whenever the chain head is in flow, `flow_after` matches the
/// suffix having a flow member, and the chain's last flow member is `j`
/// itself exactly when nothing follows it in flow.
pub proof fn lemma_last_flow_props(t: Tree, s: StyleMap, j: int)
    requires
        t.edges_wf(),
        t.valid(j),
    ensures
        match last_flow(t, s, j) {
            Some(x) => j <= x < t.n() && in_flow(s, x),
            None => true,
        },
        in_flow(s, j) ==> last_flow(t, s, j) is Some,
        flow_after(t, s, j) == match t.ns_of(j) {
            Some(nx) => j < nx < t.n() && last_flow(t, s, nx) is Some,
            None => false,
        },
        in_flow(s, j) ==> (flow_after(t, s, j) <==> last_flow(t, s, j) != Some(j)),
    decreases t.n() - j,
{
    match t.ns_of(j) {
        Some(nx) => {
            if j < nx < t.n() {
                lemma_last_flow_props(t, s, nx);
            }
        },
        None => {},
    }
}

/// If `c` is a flow member of the chain headed by `j`, the chain's last
/// flow member is `c` exactly when no flow member follows `c`.
pub proof fn lemma_last_flow_at(t: Tree, s: StyleMap, j: int, c: int)
    requires
        t.edges_wf(),
        t.valid(j),
        t.sib_chain(j).contains(c),
        in_flow(s, c),
    ensures
        (last_flow(t, s, j) == Some(c)) <==> !flow_after(t, s, c),
        last_flow(t, s, j) is Some,
    decreases t.n() - j,
{
    t.lemma_chain(j);
    lemma_last_flow_props(t, s, j);
    if c == j {
        match t.ns_of(j) {
            Some(nx) => {
                if j < nx < t.n() {
                    lemma_last_flow_props(t, s, nx);
                }
            },
            None => {},
        }
    } else {
        match t.ns_of(j) {
            Some(nx) => {
                let k = choose|k: int| 0 <= k < t.sib_chain(j).len() && t.sib_chain(j)[k] == c;
                assert(t.sib_chain(j) == seq![j] + t.sib_chain(nx));
                assert(t.sib_chain(nx)[k - 1] == c);
                assert(t.sib_chain(nx).contains(c));
                t.lemma_chain(nx);
                lemma_last_flow_at(t, s, nx, c);
                lemma_last_flow_props(t, s, nx);
            },
            None => {
                assert(t.sib_chain(j) == seq![j]);
                assert(false);
            },
        }
    }
}

/// The first flow member of the chain starting at `j`, executably.
fn ex_first_flow(t: &Tree, s: &StyleMap, j: usize) -> (r: Option<usize>)
    requires
        t.wf(),
        t.valid(j as int),
    ensures
        match r {
            Some(x) => first_flow(*t, *s, j as int) == Some(x as int),
            None => first_flow(*t, *s, j as int) is None,
        },
{
    let mut cur: usize = j;
    let mut res: Option<usize> = None;
    loop
        invariant_except_break
            t.wf(),
            t.valid(cur as int),
            first_flow(*t, *s, j as int) == first_flow(*t, *s, cur as int),
        ensures
            match res {
                Some(x) => first_flow(*t, *s, j as int) == Some(x as int),
                None => first_flow(*t, *s, j as int) is None,
            },
        decreases t.n() - cur,
    {
        let fl = match s.get(cur) {
            Some(st) => match st.position_type {
                PositionType::ParentDirected => true,
                PositionType::SelfDirected => false,
            },
            None => false,
        };
        if fl {
            res = Some(cur);
            break ;
        }
        match t.get_next_sibling(cur) {
            Some(nx) => {
                cur = nx;
            },
            None => {
                res = None;
                break ;
            },
        }
    }
    res
}

/// The last flow member of the chain starting at `j`, executably.
fn ex_last_flow(t: &Tree, s: &StyleMap, j: usize) -> (r: Option<usize>)
    requires
        t.wf(),
        t.valid(j as int),
    ensures
        match r {
            Some(x) => last_flow(*t, *s, j as int) == Some(x as int),
            None => last_flow(*t, *s, j as int) is None,
        },
{
    let mut cur: usize = j;
    let mut best: Option<usize> = None;
    loop
        invariant_except_break
            t.wf(),
            t.valid(cur as int),
            last_flow(*t, *s, j as int) == (match last_flow(*t, *s, cur as int) {
                Some(x) => Some(x),
                None => match best {
                    Some(b) => Some(b as int),
                    None => None,
                },
            }),
        ensures
            match best {
                Some(x) => last_flow(*t, *s, j as int) == Some(x as int),
                None => last_flow(*t, *s, j as int) is None,
            },
        decreases t.n() - cur,
    {
        let fl = match s.get(cur) {
            Some(st) => match st.position_type {
                PositionType::ParentDirected => true,
                PositionType::SelfDirected => false,
            },
            None => false,
        };
        if fl {
            best = Some(cur);
        }
        match t.get_next_sibling(cur) {
            Some(nx) => {
                cur = nx;
            },
            None => {
                break ;
            },
        }
    }
    best
}

/// The main-axis accounting of a flow container: the space used by fixed
/// items and gaps, and the stretch weight sum, over the child vector `cs`.
#[verifier::rlimit(100)]
#[verifier::spinoff_prover]
fn flow_accounting(
    cache: &LayoutCache,
    t: &Tree,
    s: &StyleMap,
    m: &ContentMap,
    p: usize,
    cs: &Vec<usize>,
    d: i64,
    inh_b: Unit,
    inh_a: Unit,
    gap: Unit,
    horiz: bool,
) -> (r: (i64, i64))
    requires
        t.wf(),
        s.wf(),
        m.wf(),
        t.valid(p as int),
        as_ints(cs@) == t.children_of(p as int),
        forall|kk: int| 0 <= kk < cs@.len() ==> (#[trigger] cs@[kk] as int) < t.n(),
        unit_wf(inh_b),
        unit_wf(inh_a),
        unit_wf(gap),
        0 <= d <= MAX_LEN,
        forall|kk: int|
            0 <= kk < cs@.len() ==> cache.entry_of(#[trigger] cs@[kk] as int).size.width as int
                == spec_measured(*t, *s, *m, cs@[kk] as int).width,
        forall|kk: int|
            0 <= kk < cs@.len() ==> cache.entry_of(#[trigger] cs@[kk] as int).size.height as int
                == spec_measured(*t, *s, *m, cs@[kk] as int).height,
    ensures
        r.0 as int == (if cs@.len() > 0 {
            used_from(*t, *s, *m, cs@[0] as int, d as int, inh_b, inh_a, gap, horiz)
        } else {
            0
        }),
        r.1 as int == (if cs@.len() > 0 {
            wsum_from(*t, *s, cs@[0] as int, inh_b, inh_a, gap, horiz)
        } else {
            0
        }),
        -MAX_LEN <= r.0 <= MAX_LEN,
        0 <= r.1 <= MAX_LEN,
{
    let mut u: i64 = 0;
    let mut w: i64 = 0;
    let mut anyflow: bool = false;
    let mut k2: usize = cs.len();
    proof {
        lemma_children_linkage(*t, p as int, cs@);
    }
    while k2 > 0
        invariant
            t.wf(),
            s.wf(),
            m.wf(),
            t.valid(p as int),
            as_ints(cs@) == t.children_of(p as int),
            forall|kk: int| 0 <= kk < cs@.len() ==> (#[trigger] cs@[kk] as int) < t.n(),
            unit_wf(inh_b),
            unit_wf(inh_a),
            unit_wf(gap),
            0 <= d <= MAX_LEN,
            forall|kk: int|
                0 <= kk < cs@.len() ==> cache.entry_of(
                    #[trigger] cs@[kk] as int,
                ).size.width as int == spec_measured(*t, *s, *m, cs@[kk] as int).width,
            forall|kk: int|
                0 <= kk < cs@.len() ==> cache.entry_of(
                    #[trigger] cs@[kk] as int,
                ).size.height as int == spec_measured(*t, *s, *m, cs@[kk] as int).height,
            forall|kk: int|
                #![trigger t.ns_of(cs@[kk] as int)]
                0 <= kk < cs@.len() - 1 ==> t.ns_of(cs@[kk] as int) == Some(cs@[kk + 1] as int),
            cs@.len() > 0 ==> t.ns_of(cs@[cs@.len() - 1] as int) is None,
            k2 <= cs@.len(),
            -MAX_LEN <= u <= MAX_LEN,
            0 <= w <= MAX_LEN,
            u as int == (if k2 < cs@.len() {
                used_from(*t, *s, *m, cs@[k2 as int] as int, d as int, inh_b, inh_a, gap, horiz)
            } else {
                0
            }),
            w as int == (if k2 < cs@.len() {
                wsum_from(*t, *s, cs@[k2 as int] as int, inh_b, inh_a, gap, horiz)
            } else {
                0
            }),
            anyflow == (if k2 < cs@.len() {
                in_flow(*s, cs@[k2 as int] as int) || flow_after(*t, *s, cs@[k2 as int] as int)
            } else {
                false
            }),
        decreases k2,
    {
        k2 = k2 - 1;
        let c = cs[k2];
        proof {
            assert(t.children_of(p as int)[k2 as int] == c as int);
            lemma_meas_bounds(*t, *s, *m, c as int);
            if k2 as int + 1 < cs@.len() {
                assert(t.ns_of(c as int) == Some(cs@[k2 as int + 1] as int));
            } else {
                assert(t.ns_of(c as int) is None);
            }
        }
        let mut fl = false;
        match s.get(c) {
            Some(st) => {
                match st.position_type {
                    PositionType::ParentDirected => {
                        let a = ex_ax_of(st, inh_b, inh_a, horiz);
                        proof {
                            assert(axis_wf(a));
                        }
                        let e = cache.get_entry(c);
                        let meas: i64 = if horiz {
                            e.size.width
                        } else {
                            e.size.height
                        };
                        let fixc = ex_ax_fix(a, meas, d);
                        let gt: i64 = if anyflow {
                            ex_gap_used(gap, d)
                        } else {
                            0
                        };
                        u = clamp_off(fixc + gt + u);
                        let wc = ex_ax_w(a);
                        let gw: i64 = if anyflow {
                            ex_gap_w(gap)
                        } else {
                            0
                        };
                        w = clamp_len(wc + gw + w);
                        fl = true;
                    },
                    PositionType::SelfDirected => {},
                }
            },
            None => {},
        }
        anyflow = fl || anyflow;
    }
    (u, w)
}

/// Sum of the fixed sizes and of the stretch weights of a track list.
fn ex_tracks_sums(us: &Vec<Unit>, d: i64) -> (r: (i64, i64))
    requires
        forall|kk: int| 0 <= kk < us@.len() ==> unit_wf(#[trigger] us@[kk]),
        0 <= d <= MAX_LEN,
    ensures
        r.0 as int == tracks_fix(us@, d as int, us@.len() as int),
        r.1 as int == tracks_w(us@, us@.len() as int),
        0 <= r.0 <= MAX_LEN,
        0 <= r.1 <= MAX_LEN,
{
    let mut fx: i64 = 0;
    let mut w: i64 = 0;
    let mut k: usize = 0;
    while k < us.len()
        invariant
            forall|kk: int| 0 <= kk < us@.len() ==> unit_wf(#[trigger] us@[kk]),
            0 <= d <= MAX_LEN,
            k <= us@.len(),
            fx as int == tracks_fix(us@, d as int, k as int),
            w as int == tracks_w(us@, k as int),
            0 <= fx <= MAX_LEN,
            0 <= w <= MAX_LEN,
        decreases us@.len() - k,
    {
        let g = ex_gap_used(us[k], d);
        fx = clamp_len(fx + g);
        let gw = ex_gap_w(us[k]);
        w = clamp_len(w + gw);
        k = k + 1;
    }
    (fx, w)
}

/// Executable [`track_size`].
fn ex_track_size(u: Unit, d: i64, free: i64, ss: i64) -> (r: i64)
    requires
        unit_wf(u),
        0 <= d <= MAX_LEN,
        -MAX_LEN <= free <= MAX_LEN,
        0 <= ss <= MAX_LEN,
    ensures
        r as int == track_size(u, d as int, free as int, ss as int),
        0 <= r <= MAX_LEN,
{
    match u {
        Unit::Pixels(v) => clamp_len(v),
        Unit::Percentage(p) => pct_len(d, p),
        Unit::Stretch(w) => share_len(free, ss, w),
        Unit::Auto => 0,
    }
}

/// Executable [`track_pos`].
fn ex_track_pos(us: &Vec<Unit>, d: i64, g: i64, free: i64, ss: i64, k: usize) -> (r: i64)
    requires
        forall|kk: int| 0 <= kk < us@.len() ==> unit_wf(#[trigger] us@[kk]),
        0 <= d <= MAX_LEN,
        0 <= g <= MAX_LEN,
        -MAX_LEN <= free <= MAX_LEN,
        0 <= ss <= MAX_LEN,
        k <= us@.len(),
    ensures
        r as int == track_pos(us@, d as int, g as int, free as int, ss as int, k as int),
        -MAX_LEN <= r <= MAX_LEN,
{
    let mut pos: i64 = 0;
    let mut j: usize = 0;
    while j < k
        invariant
            forall|kk: int| 0 <= kk < us@.len() ==> unit_wf(#[trigger] us@[kk]),
            0 <= d <= MAX_LEN,
            0 <= g <= MAX_LEN,
            -MAX_LEN <= free <= MAX_LEN,
            0 <= ss <= MAX_LEN,
            j <= k <= us@.len(),
            pos as int == track_pos(us@, d as int, g as int, free as int, ss as int, j as int),
            -MAX_LEN <= pos <= MAX_LEN,
        decreases k - j,
    {
        let ts = ex_track_size(us[j], d, free, ss);
        pos = clamp_off(pos + ts + g);
        j = j + 1;
    }
    pos
}

/// Executable [`span_size`].
fn ex_span_size(us: &Vec<Unit>, d: i64, g: i64, free: i64, ss: i64, i0: usize, i1: usize) -> (r:
    i64)
    requires
        forall|kk: int| 0 <= kk < us@.len() ==> unit_wf(#[trigger] us@[kk]),
        0 <= d <= MAX_LEN,
        0 <= g <= MAX_LEN,
        -MAX_LEN <= free <= MAX_LEN,
        0 <= ss <= MAX_LEN,
        i0 <= i1 <= us@.len(),
    ensures
        r as int == span_size(
            us@,
            d as int,
            g as int,
            free as int,
            ss as int,
            i0 as int,
            i1 as int,
        ),
        0 <= r <= MAX_LEN,
{
    let mut sz: i64 = 0;
    let mut j: usize = i0;
    while j < i1
        invariant
            forall|kk: int| 0 <= kk < us@.len() ==> unit_wf(#[trigger] us@[kk]),
            0 <= d <= MAX_LEN,
            0 <= g <= MAX_LEN,
            -MAX_LEN <= free <= MAX_LEN,
            0 <= ss <= MAX_LEN,
            i0 <= j <= i1 <= us@.len(),
            sz as int == span_size(
                us@,
                d as int,
                g as int,
                free as int,
                ss as int,
                i0 as int,
                j as int,
            ),
            0 <= sz <= MAX_LEN,
        decreases i1 - j,
    {
        let ts = ex_track_size(us[j], d, free, ss);
        let gt: i64 = if j > i0 {
            g
        } else {
            0
        };
        sz = clamp_len(sz + ts + gt);
        j = j + 1;
    }
    sz
}

/// The fields of a placed triple are saturated.
pub proof fn lemma_ax_triple_bounds(a: Axis, meas: int, d: int, free: int, ss: int)
    ensures
        -MAX_LEN <= ax_triple(a, meas, d, free, ss).before <= MAX_LEN,
        0 <= ax_triple(a, meas, d, free, ss).size <= MAX_LEN,
        -MAX_LEN <= ax_triple(a, meas, d, free, ss).after <= MAX_LEN,
{
    reveal(ax_triple);
}

/// The fields of a solo-resolved triple are saturated.
pub proof fn lemma_ax_solo_bounds(a: Axis, meas: int, d: int)
    ensures
        -MAX_LEN <= ax_solo(a, meas, d).before <= MAX_LEN,
        0 <= ax_solo(a, meas, d).size <= MAX_LEN,
        -MAX_LEN <= ax_solo(a, meas, d).after <= MAX_LEN,
{
    reveal(ax_solo);
    lemma_ax_triple_bounds(a, meas, d, cl_off(d - ax_fix(a, meas, d)), ax_w(a));
}

pub proof fn lemma_span_bounds(us: Seq<Unit>, d: int, g: int, free: int, ss: int, i0: int, i1: int)
    ensures
        0 <= span_size(us, d, g, free, ss, i0, i1) <= MAX_LEN,
    decreases i1 - i0,
{
    if i1 > i0 {
        lemma_span_bounds(us, d, g, free, ss, i0, i1 - 1);
    }
}

pub proof fn lemma_track_pos_b(us: Seq<Unit>, d: int, g: int, free: int, ss: int, k: int)
    ensures
        -MAX_LEN <= track_pos(us, d, g, free, ss, k) <= MAX_LEN,
    decreases k,
{
    if k > 0 {
        lemma_track_pos_b(us, d, g, free, ss, k - 1);
    }
}

/// Placement keeps every rectangle and spacing within the saturation
/// bounds.
pub proof fn lemma_place_in_wf(t: Tree, s: StyleMap, m: ContentMap, pr: RectM, p: int, x: int)
    requires
        pr.wf(),
    ensures
        place_in(t, s, m, pr, p, x).rect.wf(),
        place_in(t, s, m, pr, p, x).space.wf(),
{
    reveal(place_in);
    let pst = s.spec_get(p);
    let cb = content_box(pst, pr);
    match s.spec_get(x) {
        None => {},
        Some(st) => {
            let ah = ax_of(st, inh_of(pst, true, true), inh_of(pst, true, false), true);
            let av = ax_of(st, inh_of(pst, false, true), inh_of(pst, false, false), false);
            let mw = meas_of(t, s, m, x, true);
            let mh = meas_of(t, s, m, x, false);
            lemma_ax_solo_bounds(ah, mw, cb.cw);
            lemma_ax_solo_bounds(av, mh, cb.ch);
            lemma_ax_triple_bounds(ah, mw, cb.cw, flow_free(t, s, m, p, cb.cw, true), flow_wsum(t, s, p, true));
            lemma_ax_triple_bounds(av, mh, cb.ch, flow_free(t, s, m, p, cb.ch, false), flow_wsum(t, s, p, false));
            if st.position_type == PositionType::SelfDirected {
            } else {
                match layout_of(pst) {
                    LayoutType::Row => {
                        let ch = t.children_of(p);
                        lemma_cursor_bounds(
                            t,
                            s,
                            m,
                            ch,
                            ch.index_of(x),
                            cb.cx,
                            cb.cw,
                            inh_of(pst, true, true),
                            inh_of(pst, true, false),
                            gap_of(pst, true),
                            true,
                            flow_free(t, s, m, p, cb.cw, true),
                            flow_wsum(t, s, p, true),
                        );
                    },
                    LayoutType::Column => {
                        let ch = t.children_of(p);
                        lemma_cursor_bounds(
                            t,
                            s,
                            m,
                            ch,
                            ch.index_of(x),
                            cb.cy,
                            cb.ch,
                            inh_of(pst, false, true),
                            inh_of(pst, false, false),
                            gap_of(pst, false),
                            false,
                            flow_free(t, s, m, p, cb.ch, false),
                            flow_wsum(t, s, p, false),
                        );
                    },
                    LayoutType::Grid => {
                        let cols = track_units(pst, true);
                        let rows = track_units(pst, false);
                        let gx = gap_used(gap_of(pst, true), cb.cw);
                        let gy = gap_used(gap_of(pst, false), cb.ch);
                        let freex = grid_free(cols, cb.cw, gx);
                        let ssx = tracks_w(cols, cols.len() as int);
                        let freey = grid_free(rows, cb.ch, gy);
                        let ssy = tracks_w(rows, rows.len() as int);
                        lemma_track_pos_b(
                            cols,
                            cb.cw,
                            gx,
                            freex,
                            ssx,
                            (if st.col_index < cols.len() {
                                st.col_index as int
                            } else {
                                cols.len() as int
                            }),
                        );
                        lemma_track_pos_b(
                            rows,
                            cb.ch,
                            gy,
                            freey,
                            ssy,
                            (if st.row_index < rows.len() {
                                st.row_index as int
                            } else {
                                rows.len() as int
                            }),
                        );
                        let ci0 = if st.col_index < cols.len() {
                            st.col_index as int
                        } else {
                            cols.len() as int
                        };
                        let cwant = if st.col_span >= 1 {
                            st.col_span as int
                        } else {
                            1
                        };
                        let ci1 = if ci0 + cwant < cols.len() {
                            ci0 + cwant
                        } else {
                            cols.len() as int
                        };
                        lemma_span_bounds(cols, cb.cw, gx, freex, ssx, ci0, ci1);
                        let ri0 = if st.row_index < rows.len() {
                            st.row_index as int
                        } else {
                            rows.len() as int
                        };
                        let rwant = if st.row_span >= 1 {
                            st.row_span as int
                        } else {
                            1
                        };
                        let ri1 = if ri0 + rwant < rows.len() {
                            ri0 + rwant
                        } else {
                            rows.len() as int
                        };
                        lemma_span_bounds(rows, cb.ch, gy, freey, ssy, ri0, ri1);
                    },
                }
            }
        },
    }
}

/// Every placed rectangle and spacing is within the saturation bounds.
pub proof fn lemma_placed_wf(t: Tree, s: StyleMap, m: ContentMap, vp: RectM, x: int)
    ensures
        spec_placed(t, s, m, vp, x).rect.wf(),
        spec_placed(t, s, m, vp, x).space.wf(),
    decreases x,
{
    reveal(spec_placed);
    if t.valid(x) && x != t.root as int {
        match t.parent_of(x) {
            Some(p) => {
                if 0 <= p < x {
                    lemma_placed_wf(t, s, m, vp, p);
                    lemma_place_in_wf(t, s, m, spec_placed(t, s, m, vp, p).rect, p, x);
                }
            },
            None => {},
        }
    }
}

/// The placement of one child of container `p`, given the container's
/// resolved context (content box, layout, inherits, free space, stretch
/// sums, grid tracks, and the flow cursor `base`).  Returns the rectangle
/// and spacing, plus the main-axis triple used to advance the cursor.
#[verifier::rlimit(100)]
#[verifier::spinoff_prover]
fn ex_place_child(
    t: &Tree,
    s: &StyleMap,
    m: &ContentMap,
    Ghost(pr): Ghost<RectM>,
    Ghost(p): Ghost<int>,
    x: usize,
    prx: i64,
    pry: i64,
    cx: i64,
    cy: i64,
    cw: i64,
    chh: i64,
    lt: LayoutType,
    inh_lb: Unit,
    inh_rb: Unit,
    inh_tb: Unit,
    inh_bb: Unit,
    hfree: i64,
    hss: i64,
    vfree: i64,
    vss: i64,
    base: i64,
    cols: &Vec<Unit>,
    rows: &Vec<Unit>,
    gx: i64,
    gy: i64,
    mw: i64,
    mh: i64,
) -> (r: (Rect, Space, i64, i64, i64))
    requires
        t.wf(),
        s.wf(),
        m.wf(),
        t.valid(x as int),
        t.valid(p),
        pr.wf(),
        prx as int == pr.posx,
        pry as int == pr.posy,
        cx as int == content_box(s.spec_get(p), pr).cx,
        cy as int == content_box(s.spec_get(p), pr).cy,
        cw as int == content_box(s.spec_get(p), pr).cw,
        chh as int == content_box(s.spec_get(p), pr).ch,
        lt == layout_of(s.spec_get(p)),
        inh_lb == inh_of(s.spec_get(p), true, true),
        inh_rb == inh_of(s.spec_get(p), true, false),
        inh_tb == inh_of(s.spec_get(p), false, true),
        inh_bb == inh_of(s.spec_get(p), false, false),
        unit_wf(inh_lb),
        unit_wf(inh_rb),
        unit_wf(inh_tb),
        unit_wf(inh_bb),
        mw as int == meas_of(*t, *s, *m, x as int, true),
        mh as int == meas_of(*t, *s, *m, x as int, false),
        0 <= mw <= MAX_LEN,
        0 <= mh <= MAX_LEN,
        -MAX_LEN <= hfree <= MAX_LEN,
        0 <= hss <= MAX_LEN,
        -MAX_LEN <= vfree <= MAX_LEN,
        0 <= vss <= MAX_LEN,
        -MAX_LEN <= base <= MAX_LEN,
        0 <= gx <= MAX_LEN,
        0 <= gy <= MAX_LEN,
        lt == LayoutType::Row ==> hfree as int == flow_free(*t, *s, *m, p, cw as int, true)
            && hss as int == flow_wsum(*t, *s, p, true) && base as int == cursor_at(
            *t,
            *s,
            *m,
            t.children_of(p),
            t.children_of(p).index_of(x as int),
            cx as int,
            cw as int,
            inh_lb,
            inh_rb,
            gap_of(s.spec_get(p), true),
            true,
            hfree as int,
            hss as int,
        ),
        lt == LayoutType::Column ==> vfree as int == flow_free(*t, *s, *m, p, chh as int, false)
            && vss as int == flow_wsum(*t, *s, p, false) && base as int == cursor_at(
            *t,
            *s,
            *m,
            t.children_of(p),
            t.children_of(p).index_of(x as int),
            cy as int,
            chh as int,
            inh_tb,
            inh_bb,
            gap_of(s.spec_get(p), false),
            false,
            vfree as int,
            vss as int,
        ),
        lt == LayoutType::Grid ==> cols@ == track_units(s.spec_get(p), true) && rows@
            == track_units(s.spec_get(p), false) && gx as int == gap_used(
            gap_of(s.spec_get(p), true),
            cw as int,
        ) && gy as int == gap_used(gap_of(s.spec_get(p), false), chh as int) && hfree as int
            == grid_free(cols@, cw as int, gx as int) && hss as int == tracks_w(
            cols@,
            cols@.len() as int,
        ) && vfree as int == grid_free(rows@, chh as int, gy as int) && vss as int == tracks_w(
            rows@,
            rows@.len() as int,
        ),
        forall|kk: int| 0 <= kk < cols@.len() ==> unit_wf(#[trigger] cols@[kk]),
        forall|kk: int| 0 <= kk < rows@.len() ==> unit_wf(#[trigger] rows@[kk]),
    ensures
        r.0@ == place_in(*t, *s, *m, pr, p, x as int).rect,
        r.1@ == place_in(*t, *s, *m, pr, p, x as int).space,
        in_flow(*s, x as int) && lt == LayoutType::Row ==> {
            let tr = ax_triple(
                ax_of(s.spec_get(x as int).unwrap(), inh_lb, inh_rb, true),
                mw as int,
                cw as int,
                hfree as int,
                hss as int,
            );
            r.2 as int == tr.before && r.3 as int == tr.size && r.4 as int == tr.after
        },
        in_flow(*s, x as int) && lt == LayoutType::Column ==> {
            let tr = ax_triple(
                ax_of(s.spec_get(x as int).unwrap(), inh_tb, inh_bb, false),
                mh as int,
                chh as int,
                vfree as int,
                vss as int,
            );
            r.2 as int == tr.before && r.3 as int == tr.size && r.4 as int == tr.after
        },
        -MAX_LEN <= r.2 <= MAX_LEN,
        0 <= r.3 <= MAX_LEN,
        -MAX_LEN <= r.4 <= MAX_LEN,
{
    proof {
        reveal(place_in);
    }
    match s.get(x) {
        None => {
            (Rect { posx: prx, posy: pry, width: 0, height: 0 }, Space {
                left: 0,
                right: 0,
                top: 0,
                bottom: 0,
            }, 0, 0, 0)
        },
        Some(st) => {
            let ah = ex_ax_of(st, inh_lb, inh_rb, true);
            let av = ex_ax_of(st, inh_tb, inh_bb, false);
            proof {
                assert(axis_wf(ah));
                assert(axis_wf(av));
            }
            match st.position_type {
                PositionType::SelfDirected => {
                    let th = ex_ax_solo(ah, mw, cw);
                    let tv = ex_ax_solo(av, mh, chh);
                    (Rect {
                        posx: clamp_off(prx + th.0),
                        posy: clamp_off(pry + tv.0),
                        width: th.1,
                        height: tv.1,
                    }, Space { left: th.0, right: th.2, top: tv.0, bottom: tv.2 }, 0, 0, 0)
                },
                PositionType::ParentDirected => {
                    match lt {
                        LayoutType::Row => {
                            let th = ex_ax_triple(ah, mw, cw, hfree, hss);
                            let tv = ex_ax_solo(av, mh, chh);
                            (Rect {
                                posx: clamp_off(base + th.0),
                                posy: clamp_off(cy + tv.0),
                                width: th.1,
                                height: tv.1,
                            }, Space { left: th.0, right: th.2, top: tv.0, bottom: tv.2 }, th.0, th.1, th.2)
                        },
                        LayoutType::Column => {
                            let tv = ex_ax_triple(av, mh, chh, vfree, vss);
                            let th = ex_ax_solo(ah, mw, cw);
                            (Rect {
                                posx: clamp_off(cx + th.0),
                                posy: clamp_off(base + tv.0),
                                width: th.1,
                                height: tv.1,
                            }, Space { left: th.0, right: th.2, top: tv.0, bottom: tv.2 }, tv.0, tv.1, tv.2)
                        },
                        LayoutType::Grid => {
                            proof {
                                assert(st.wf());
                            }
                            let ci0: usize = if st.col_index < cols.len() {
                                st.col_index
                            } else {
                                cols.len()
                            };
                            let cwant: usize = if st.col_span >= 1 {
                                st.col_span
                            } else {
                                1
                            };
                            let ci1: usize = if ci0 + cwant < cols.len() {
                                ci0 + cwant
                            } else {
                                cols.len()
                            };
                            let offx = ex_fix_off(
                                ah.before,
                                ah.inh_before,
                                cw,
                                ah.min_before,
                                ah.max_before,
                            );
                            let tpx = ex_track_pos(cols, cw, gx, hfree, hss, ci0);
                            let posx = clamp_off(cx + tpx + offx);
                            let spanx = ex_span_size(cols, cw, gx, hfree, hss, ci0, ci1);
                            let w = clamp_between(
                                spanx,
                                ex_res_min_len(ah.min_size, cw),
                                ex_res_max_len(ah.max_size, cw),
                            );
                            let ri0: usize = if st.row_index < rows.len() {
                                st.row_index
                            } else {
                                rows.len()
                            };
                            let rwant: usize = if st.row_span >= 1 {
                                st.row_span
                            } else {
                                1
                            };
                            let ri1: usize = if ri0 + rwant < rows.len() {
                                ri0 + rwant
                            } else {
                                rows.len()
                            };
                            let offy = ex_fix_off(
                                av.before,
                                av.inh_before,
                                chh,
                                av.min_before,
                                av.max_before,
                            );
                            let tpy = ex_track_pos(rows, chh, gy, vfree, vss, ri0);
                            let posy = clamp_off(cy + tpy + offy);
                            let spany = ex_span_size(rows, chh, gy, vfree, vss, ri0, ri1);
                            let h = clamp_between(
                                spany,
                                ex_res_min_len(av.min_size, chh),
                                ex_res_max_len(av.max_size, chh),
                            );
                            proof {
                                let gh = grid_axis(
                                    *st,
                                    cols@,
                                    cx as int,
                                    cw as int,
                                    gx as int,
                                    st.col_index as int,
                                    st.col_span as int,
                                    ah,
                                );
                                assert(posx as int == gh.0 && w as int == gh.1);
                                let gv = grid_axis(
                                    *st,
                                    rows@,
                                    cy as int,
                                    chh as int,
                                    gy as int,
                                    st.row_index as int,
                                    st.row_span as int,
                                    av,
                                );
                                assert(posy as int == gv.0 && h as int == gv.1);
                            }
                            (Rect { posx, posy, width: w, height: h }, Space {
                                left: offx,
                                right: 0,
                                top: offy,
                                bottom: 0,
                            }, 0, 0, 0)
                        },
                    }
                },
            }
        },
    }
}

/// The resolved context of a container during placement: its rectangle
/// matches the model, the content box, layout, inherits, gaps, track
/// lists and stretch statistics are the resolved forms of its style.
#[verifier::opaque]
pub open spec fn ctx_ok(
    t: Tree,
    s: StyleMap,
    m: ContentMap,
    vp: RectM,
    i: int,
    pr: Rect,
    cx: i64,
    cy: i64,
    cw: i64,
    chh: i64,
    lt: LayoutType,
    inh_lb: Unit,
    inh_rb: Unit,
    inh_tb: Unit,
    inh_bb: Unit,
    gcol: Unit,
    grow: Unit,
    cols: Seq<Unit>,
    rows: Seq<Unit>,
    gx: i64,
    gy: i64,
    hfree: i64,
    hss: i64,
    vfree: i64,
    vss: i64,
) -> bool {
    &&& pr@ == spec_placed(t, s, m, vp, i).rect
    &&& pr@.wf()
    &&& cx as int == content_box(s.spec_get(i), pr@).cx
    &&& cy as int == content_box(s.spec_get(i), pr@).cy
    &&& cw as int == content_box(s.spec_get(i), pr@).cw
    &&& chh as int == content_box(s.spec_get(i), pr@).ch
    &&& lt == layout_of(s.spec_get(i))
    &&& inh_lb == inh_of(s.spec_get(i), true, true)
    &&& inh_rb == inh_of(s.spec_get(i), true, false)
    &&& inh_tb == inh_of(s.spec_get(i), false, true)
    &&& inh_bb == inh_of(s.spec_get(i), false, false)
    &&& unit_wf(inh_lb) && unit_wf(inh_rb) && unit_wf(inh_tb) && unit_wf(inh_bb)
    &&& gcol == gap_of(s.spec_get(i), true)
    &&& grow == gap_of(s.spec_get(i), false)
    &&& unit_wf(gcol) && unit_wf(grow)
    &&& cols == track_units(s.spec_get(i), true)
    &&& rows == track_units(s.spec_get(i), false)
    &&& (forall|kk: int| 0 <= kk < cols.len() ==> unit_wf(#[trigger] cols[kk]))
    &&& (forall|kk: int| 0 <= kk < rows.len() ==> unit_wf(#[trigger] rows[kk]))
    &&& gx as int == gap_used(gcol, cw as int)
    &&& gy as int == gap_used(grow, chh as int)
    &&& 0 <= gx <= MAX_LEN && 0 <= gy <= MAX_LEN
    &&& -MAX_LEN <= hfree <= MAX_LEN && 0 <= hss <= MAX_LEN
    &&& -MAX_LEN <= vfree <= MAX_LEN && 0 <= vss <= MAX_LEN
    &&& (lt == LayoutType::Row ==> hfree as int == flow_free(t, s, m, i, cw as int, true)
        && hss as int == flow_wsum(t, s, i, true))
    &&& (lt == LayoutType::Column ==> vfree as int == flow_free(t, s, m, i, chh as int, false)
        && vss as int == flow_wsum(t, s, i, false))
    &&& (lt == LayoutType::Grid ==> hfree as int == grid_free(cols, cw as int, gx as int)
        && hss as int == tracks_w(cols, cols.len() as int) && vfree as int == grid_free(
        rows,
        chh as int,
        gy as int,
    ) && vss as int == tracks_w(rows, rows.len() as int))
}

/// Composition of one placement step: a write to child `c`'s entry
/// followed by the recursive placement of `c`'s subtree preserves the
/// container-level facts.
proof fn lemma_step_frame(
    t: Tree,
    s: StyleMap,
    m: ContentMap,
    vp: RectM,
    orig: LayoutCache,
    pre: LayoutCache,
    post: LayoutCache,
    i: int,
    c: int,
)
    requires
        t.wf(),
        t.valid(i),
        t.children_of(i).contains(c),
        t.valid(c),
        pre.entries@.len() == orig.entries@.len(),
        forall|y: int| 0 <= y < orig.entries@.len() && y != c ==> pre.entries@[y] == orig.entries@[y],
        forall|x: int| pre.registered(x) == orig.registered(x),
        post.entries@.len() == pre.entries@.len(),
        forall|x: int| post.registered(x) == pre.registered(x),
        forall|x: int|
            0 <= x < pre.entries@.len() && !t.subtree(c).contains(x) ==> post.entries@[x]
                == pre.entries@[x],
        forall|x: int|
            t.subtree(c).contains(x) ==> meas_matches(t, s, m, post.entry_of(x), x),
        forall|x: int|
            t.subtree(c).contains(x) ==> place_matches(t, s, m, vp, post.entry_of(x), x),
        forall|x: int| t.subtree(i).contains(x) ==> orig.registered(x),
        forall|x: int| t.subtree(i).contains(x) ==> meas_matches(t, s, m, pre.entry_of(x), x),
        place_matches(t, s, m, vp, orig.entry_of(i), i),
    ensures
        forall|x: int|
            0 <= x < orig.entries@.len() && !t.subtree(i).contains(x) ==> post.entries@[x]
                == orig.entries@[x],
        forall|x: int| t.subtree(i).contains(x) ==> meas_matches(t, s, m, post.entry_of(x), x),
        forall|x: int|
            0 <= x < orig.entries@.len() && place_matches(t, s, m, vp, orig.entry_of(x), x)
                ==> place_matches(t, s, m, vp, post.entry_of(x), x),
        place_matches(t, s, m, vp, post.entry_of(i), i),
        forall|x: int| post.registered(x) == orig.registered(x),
        post.entries@.len() == orig.entries@.len(),
{
    t.lemma_child_subtree_in_parent(i, c);
    t.lemma_subtree_bounds(i);
    t.lemma_subtree_bounds(c);
    t.lemma_subtree_contains_root(c);
    assert forall|x: int|
        0 <= x < orig.entries@.len() && !t.subtree(i).contains(x) implies post.entries@[x]
        == orig.entries@[x] by {
        if t.subtree(c).contains(x) {
            assert(t.subtree(i).contains(x));
        } else {
            assert(post.entries@[x] == pre.entries@[x]);
            assert(x != c);
        }
    }
    assert forall|x: int| t.subtree(i).contains(x) implies meas_matches(
        t,
        s,
        m,
        post.entry_of(x),
        x,
    ) by {
        if t.subtree(c).contains(x) {
        } else {
            assert(pre.registered(x));
            assert(post.entries@[x] == pre.entries@[x]);
            assert(post.entry_of(x) == pre.entry_of(x));
        }
    }
    assert forall|x: int|
        0 <= x < orig.entries@.len() && place_matches(t, s, m, vp, orig.entry_of(x), x) implies place_matches(
        t,
        s,
        m,
        vp,
        post.entry_of(x),
        x,
    ) by {
        if t.subtree(c).contains(x) {
        } else {
            assert(x != c);
            assert(post.entries@[x] == pre.entries@[x]);
            assert(pre.entries@[x] == orig.entries@[x]);
            assert(post.entry_of(x) == orig.entry_of(x));
        }
    }
    assert(!t.subtree(c).contains(i));
    assert(post.entry_of(i) == orig.entry_of(i));
}

/// Write one child's placement: read its measured size, resolve its
/// rectangle, spacing and stack flags, and store them.  Only the child's
/// entry changes, and only its placement fields.
#[verifier::rlimit(100)]
#[verifier::spinoff_prover]
fn place_write(
    cache: &mut LayoutCache,
    t: &Tree,
    s: &StyleMap,
    m: &ContentMap,
    Ghost(vp): Ghost<RectM>,
    i: usize,
    c: usize,
    Ghost(k): Ghost<int>,
    pr: Rect,
    cx: i64,
    cy: i64,
    cw: i64,
    chh: i64,
    lt: LayoutType,
    inh_lb: Unit,
    inh_rb: Unit,
    inh_tb: Unit,
    inh_bb: Unit,
    gcol: Unit,
    grow: Unit,
    cols: &Vec<Unit>,
    rows: &Vec<Unit>,
    gx: i64,
    gy: i64,
    hfree: i64,
    hss: i64,
    vfree: i64,
    vss: i64,
    cursor: i64,
    ff: Option<usize>,
    lf: Option<usize>,
) -> (r: (i64, i64, i64, bool, bool))
    requires
        t.wf(),
        s.wf(),
        m.wf(),
        t.valid(i as int),
        t.valid(c as int),
        0 <= k < t.children_of(i as int).len(),
        t.children_of(i as int)[k] == c as int,
        t.children_of(i as int).index_of(c as int) == k,
        t.parent_of(c as int) == Some(i as int),
        c != t.root,
        ctx_ok(
            *t,
            *s,
            *m,
            vp,
            i as int,
            pr,
            cx,
            cy,
            cw,
            chh,
            lt,
            inh_lb,
            inh_rb,
            inh_tb,
            inh_bb,
            gcol,
            grow,
            cols@,
            rows@,
            gx,
            gy,
            hfree,
            hss,
            vfree,
            vss,
        ),
        (match (t.fc_of(i as int), ff) {
            (Some(c0), Some(f)) => first_flow(*t, *s, c0) == Some(f as int),
            (Some(c0), None) => first_flow(*t, *s, c0) is None,
            (None, Some(f)) => false,
            (None, None) => true,
        }),
        (match (t.fc_of(i as int), lf) {
            (Some(c0), Some(f)) => last_flow(*t, *s, c0) == Some(f as int),
            (Some(c0), None) => last_flow(*t, *s, c0) is None,
            (None, Some(f)) => false,
            (None, None) => true,
        }),
        -MAX_LEN <= cursor <= MAX_LEN,
        lt == LayoutType::Row ==> cursor as int == cursor_at(
            *t,
            *s,
            *m,
            t.children_of(i as int),
            k,
            cx as int,
            cw as int,
            inh_lb,
            inh_rb,
            gcol,
            true,
            hfree as int,
            hss as int,
        ),
        lt == LayoutType::Column ==> cursor as int == cursor_at(
            *t,
            *s,
            *m,
            t.children_of(i as int),
            k,
            cy as int,
            chh as int,
            inh_tb,
            inh_bb,
            grow,
            false,
            vfree as int,
            vss as int,
        ),
        old(cache).registered(c as int),
        meas_matches(*t, *s, *m, old(cache).entry_of(c as int), c as int),
    ensures
        final(cache).entries@.len() == old(cache).entries@.len(),
        forall|x: int| final(cache).registered(x) == old(cache).registered(x),
        forall|y: int|
            0 <= y < old(cache).entries@.len() && y != c ==> final(cache).entries@[y] == old(cache).entries@[y],
        final(cache).entry_of(c as int).rect@ == spec_placed(*t, *s, *m, vp, c as int).rect,
        final(cache).entry_of(c as int).space@ == spec_placed(*t, *s, *m, vp, c as int).space,
        final(cache).entry_of(c as int).stack_first_child == is_first_flow(*t, *s, c as int),
        final(cache).entry_of(c as int).stack_last_child == is_last_flow(*t, *s, c as int),
        meas_matches(*t, *s, *m, final(cache).entry_of(c as int), c as int),
        in_flow(*s, c as int) && lt == LayoutType::Row ==> {
            let tr = ax_triple(
                ax_of(s.spec_get(c as int).unwrap(), inh_lb, inh_rb, true),
                meas_of(*t, *s, *m, c as int, true),
                cw as int,
                hfree as int,
                hss as int,
            );
            r.0 as int == tr.before && r.1 as int == tr.size && r.2 as int == tr.after
        },
        in_flow(*s, c as int) && lt == LayoutType::Column ==> {
            let tr = ax_triple(
                ax_of(s.spec_get(c as int).unwrap(), inh_tb, inh_bb, false),
                meas_of(*t, *s, *m, c as int, false),
                chh as int,
                vfree as int,
                vss as int,
            );
            r.0 as int == tr.before && r.1 as int == tr.size && r.2 as int == tr.after
        },
        r.3 == in_flow(*s, c as int),
        r.3 ==> r.4 == flow_after(*t, *s, c as int),
        -MAX_LEN <= r.0 <= MAX_LEN,
        0 <= r.1 <= MAX_LEN,
        -MAX_LEN <= r.2 <= MAX_LEN,
{
    proof {
        reveal(ctx_ok);
    }
    let ec0 = cache.get_entry(c);
    let mwc = ec0.size.width;
    let mhc = ec0.size.height;
    proof {
        assert(mwc as int == meas_of(*t, *s, *m, c as int, true) && mhc as int == meas_of(
            *t,
            *s,
            *m,
            c as int,
            false,
        )) by {
            reveal(meas_matches);
            assert(meas_matches(*t, *s, *m, old(cache).entry_of(c as int), c as int));
        }
    }
    let rr = ex_place_child(
        t,
        s,
        m,
        Ghost(pr@),
        Ghost(i as int),
        c,
        pr.posx,
        pr.posy,
        cx,
        cy,
        cw,
        chh,
        lt,
        inh_lb,
        inh_rb,
        inh_tb,
        inh_bb,
        hfree,
        hss,
        vfree,
        vss,
        cursor,
        cols,
        rows,
        gx,
        gy,
        mwc,
        mhc,
    );
    let sf: bool = match ff {
        Some(f) => f == c,
        None => false,
    };
    let sl: bool = match lf {
        Some(f) => f == c,
        None => false,
    };
    proof {
        assert(sf == is_first_flow(*t, *s, c as int));
        assert(sl == is_last_flow(*t, *s, c as int));
    }
    let ec = cache.get_entry(c);
    cache.set_entry(
        c,
        CacheEntry { rect: rr.0, space: rr.1, stack_first_child: sf, stack_last_child: sl, ..ec },
    );
    proof {
        assert(spec_placed(*t, *s, *m, vp, c as int) == place_in(
            *t,
            *s,
            *m,
            spec_placed(*t, *s, *m, vp, i as int).rect,
            i as int,
            c as int,
        )) by {
            reveal(spec_placed);
        }
        assert(cache.entry_of(c as int).rect@ == spec_placed(*t, *s, *m, vp, c as int).rect);
        assert(cache.entry_of(c as int).space@ == spec_placed(*t, *s, *m, vp, c as int).space);
        assert(meas_matches(*t, *s, *m, cache.entry_of(c as int), c as int)) by {
            reveal(meas_matches);
            assert(meas_matches(*t, *s, *m, old(cache).entry_of(c as int), c as int));
        }
    }
    let (cflow, after) = flow_info(t, s, i, c, Ghost(k), lf);
    (rr.2, rr.3, rr.4, cflow, after)
}

/// Whether a child is in flow and whether another flow child follows it
/// in the sibling chain.
#[verifier::rlimit(100)]
#[verifier::spinoff_prover]
fn flow_info(t: &Tree, s: &StyleMap, i: usize, c: usize, Ghost(k): Ghost<int>, lf: Option<usize>) -> (r: (bool, bool))
    requires
        t.wf(),
        s.wf(),
        t.valid(i as int),
        t.valid(c as int),
        0 <= k < t.children_of(i as int).len(),
        t.children_of(i as int)[k] == c as int,
        (match (t.fc_of(i as int), lf) {
            (Some(c0), Some(f)) => last_flow(*t, *s, c0) == Some(f as int),
            (Some(c0), None) => last_flow(*t, *s, c0) is None,
            (None, Some(f)) => false,
            (None, None) => true,
        }),
    ensures
        r.0 == in_flow(*s, c as int),
        r.0 ==> r.1 == flow_after(*t, *s, c as int),
{
    let cflow: bool = match s.get(c) {
        Some(stc) => match stc.position_type {
            PositionType::ParentDirected => true,
            PositionType::SelfDirected => false,
        },
        None => false,
    };
    let mut after: bool = false;
    if cflow {
        proof {
            match t.fc_of(i as int) {
                Some(c0) => {
                    t.lemma_chain(c0);
                    assert(t.children_of(i as int).contains(c as int));
                    lemma_last_flow_at(*t, *s, c0, c as int);
                },
                None => {
                    assert(false);
                },
            }
        }
        after = match lf {
            Some(f) => f != c,
            None => false,
        };
        proof {
            assert(after == flow_after(*t, *s, c as int));
        }
    }
    (cflow, after)
}

/// One step of the placement loop: place child `cs[k]` of container `i`
/// against the given container context, recurse into it, and report the
/// child's flow membership, whether flow continues after it, and its
/// main-axis triple for the cursor.
#[verifier::rlimit(100)]
#[verifier::spinoff_prover]
fn place_step(
    cache: &mut LayoutCache,
    t: &Tree,
    s: &StyleMap,
    m: &ContentMap,
    Ghost(vp): Ghost<RectM>,
    i: usize,
    cs: &Vec<usize>,
    k: usize,
    pr: Rect,
    cx: i64,
    cy: i64,
    cw: i64,
    chh: i64,
    lt: LayoutType,
    inh_lb: Unit,
    inh_rb: Unit,
    inh_tb: Unit,
    inh_bb: Unit,
    gcol: Unit,
    grow: Unit,
    cols: &Vec<Unit>,
    rows: &Vec<Unit>,
    gx: i64,
    gy: i64,
    hfree: i64,
    hss: i64,
    vfree: i64,
    vss: i64,
    cursor: i64,
    ff: Option<usize>,
    lf: Option<usize>,
) -> (r: (i64, i64, i64, bool, bool))
    requires
        t.wf(),
        s.wf(),
        m.wf(),
        t.valid(i as int),
        as_ints(cs@) == t.children_of(i as int),
        forall|kk: int| 0 <= kk < cs@.len() ==> (#[trigger] cs@[kk] as int) < t.n(),
        k < cs@.len(),
        ctx_ok(
            *t,
            *s,
            *m,
            vp,
            i as int,
            pr,
            cx,
            cy,
            cw,
            chh,
            lt,
            inh_lb,
            inh_rb,
            inh_tb,
            inh_bb,
            gcol,
            grow,
            cols@,
            rows@,
            gx,
            gy,
            hfree,
            hss,
            vfree,
            vss,
        ),
        (match (t.fc_of(i as int), ff) {
            (Some(c0), Some(f)) => first_flow(*t, *s, c0) == Some(f as int),
            (Some(c0), None) => first_flow(*t, *s, c0) is None,
            (None, Some(f)) => false,
            (None, None) => true,
        }),
        (match (t.fc_of(i as int), lf) {
            (Some(c0), Some(f)) => last_flow(*t, *s, c0) == Some(f as int),
            (Some(c0), None) => last_flow(*t, *s, c0) is None,
            (None, Some(f)) => false,
            (None, None) => true,
        }),
        -MAX_LEN <= cursor <= MAX_LEN,
        lt == LayoutType::Row ==> cursor as int == cursor_at(
            *t,
            *s,
            *m,
            t.children_of(i as int),
            k as int,
            cx as int,
            cw as int,
            inh_lb,
            inh_rb,
            gcol,
            true,
            hfree as int,
            hss as int,
        ),
        lt == LayoutType::Column ==> cursor as int == cursor_at(
            *t,
            *s,
            *m,
            t.children_of(i as int),
            k as int,
            cy as int,
            chh as int,
            inh_tb,
            inh_bb,
            grow,
            false,
            vfree as int,
            vss as int,
        ),
        forall|x: int| t.subtree(i as int).contains(x) ==> old(cache).registered(x),
        forall|x: int|
            t.subtree(i as int).contains(x) ==> meas_matches(
                *t,
                *s,
                *m,
                old(cache).entry_of(x),
                x,
            ),
        place_matches(*t, *s, *m, vp, old(cache).entry_of(i as int), i as int),
    ensures
        final(cache).entries@.len() == old(cache).entries@.len(),
        forall|x: int| final(cache).registered(x) == old(cache).registered(x),
        forall|x: int|
            0 <= x < old(cache).entries@.len() && !t.subtree(i as int).contains(x)
                ==> final(cache).entries@[x] == old(cache).entries@[x],
        forall|x: int|
            t.subtree(i as int).contains(x) ==> meas_matches(
                *t,
                *s,
                *m,
                final(cache).entry_of(x),
                x,
            ),
        forall|x: int|
            0 <= x < old(cache).entries@.len() && place_matches(
                *t,
                *s,
                *m,
                vp,
                old(cache).entry_of(x),
                x,
            ) ==> place_matches(*t, *s, *m, vp, final(cache).entry_of(x), x),
        forall|x: int|
            t.subtree(cs@[k as int] as int).contains(x) ==> place_matches(
                *t,
                *s,
                *m,
                vp,
                final(cache).entry_of(x),
                x,
            ),
        place_matches(*t, *s, *m, vp, final(cache).entry_of(i as int), i as int),
        r.3 == in_flow(*s, cs@[k as int] as int),
        r.3 ==> r.4 == flow_after(*t, *s, cs@[k as int] as int),
        r.3 && lt == LayoutType::Row ==> {
            let tr = ax_triple(
                ax_of(s.spec_get(cs@[k as int] as int).unwrap(), inh_lb, inh_rb, true),
                meas_of(*t, *s, *m, cs@[k as int] as int, true),
                cw as int,
                hfree as int,
                hss as int,
            );
            r.0 as int == tr.before && r.1 as int == tr.size && r.2 as int == tr.after
        },
        r.3 && lt == LayoutType::Column ==> {
            let tr = ax_triple(
                ax_of(s.spec_get(cs@[k as int] as int).unwrap(), inh_tb, inh_bb, false),
                meas_of(*t, *s, *m, cs@[k as int] as int, false),
                chh as int,
                vfree as int,
                vss as int,
            );
            r.0 as int == tr.before && r.1 as int == tr.size && r.2 as int == tr.after
        },
        -MAX_LEN <= r.0 <= MAX_LEN,
        0 <= r.1 <= MAX_LEN,
        -MAX_LEN <= r.2 <= MAX_LEN,
    decreases t.n() - i, 1int,
{
    let c = cs[k];
    proof {
        assert(t.children_of(i as int)[k as int] == c as int);
        t.lemma_child_facts(i as int, k as int);
        assert(t.subtree(i as int).contains(c as int));
    }
    let ghost orig = *cache;
    let rr = place_write(
        cache,
        t,
        s,
        m,
        Ghost(vp),
        i,
        c,
        Ghost(k as int),
        pr,
        cx,
        cy,
        cw,
        chh,
        lt,
        inh_lb,
        inh_rb,
        inh_tb,
        inh_bb,
        gcol,
        grow,
        cols,
        rows,
        gx,
        gy,
        hfree,
        hss,
        vfree,
        vss,
        cursor,
        ff,
        lf,
    );
    proof {
        assert forall|x: int| t.subtree(c as int).contains(x) implies cache.registered(x)
            && meas_matches(*t, *s, *m, cache.entry_of(x), x) by {
            assert(t.subtree(i as int).contains(x));
            if x != c as int {
                assert(cache.entry_of(x) == orig.entry_of(x));
            }
        }
    }
    let ghost pre = *cache;
    place_rec(cache, t, s, m, Ghost(vp), c);
    proof {
        lemma_step_frame(*t, *s, *m, vp, orig, pre, *cache, i as int, c as int);
    }
    rr
}

/// The top-down placement of the subtree under `i`, whose own rectangle,
/// spacing and stack flags are already in the cache: record `i`'s stretch
/// statistics, place every child against `i`'s content box, and recurse.
#[verifier::rlimit(100)]
#[verifier::spinoff_prover]
fn place_rec(
    cache: &mut LayoutCache,
    t: &Tree,
    s: &StyleMap,
    m: &ContentMap,
    Ghost(vp): Ghost<RectM>,
    i: usize,
)
    requires
        t.wf(),
        s.wf(),
        m.wf(),
        t.valid(i as int),
        forall|x: int| t.subtree(i as int).contains(x) ==> old(cache).registered(x),
        forall|x: int|
            t.subtree(i as int).contains(x) ==> meas_matches(
                *t,
                *s,
                *m,
                old(cache).entry_of(x),
                x,
            ),
        old(cache).entry_of(i as int).rect@ == spec_placed(*t, *s, *m, vp, i as int).rect,
        old(cache).entry_of(i as int).space@ == spec_placed(*t, *s, *m, vp, i as int).space,
        old(cache).entry_of(i as int).stack_first_child == is_first_flow(*t, *s, i as int),
        old(cache).entry_of(i as int).stack_last_child == is_last_flow(*t, *s, i as int),
    ensures
        final(cache).entries@.len() == old(cache).entries@.len(),
        forall|x: int| final(cache).registered(x) == old(cache).registered(x),
        forall|x: int|
            0 <= x < old(cache).entries@.len() && !t.subtree(i as int).contains(x)
                ==> final(cache).entries@[x] == old(cache).entries@[x],
        forall|x: int|
            t.subtree(i as int).contains(x) ==> meas_matches(
                *t,
                *s,
                *m,
                final(cache).entry_of(x),
                x,
            ),
        forall|x: int|
            t.subtree(i as int).contains(x) ==> place_matches(
                *t,
                *s,
                *m,
                vp,
                final(cache).entry_of(x),
                x,
            ),
    decreases t.n() - i, 2int,
{
    proof {
        t.lemma_subtree_bounds(i as int);
        t.lemma_children_valid(i as int);
        lemma_placed_wf(*t, *s, *m, vp, i as int);
    }
    let ei = cache.get_entry(i);
    let pr = ei.rect;
    let pst_opt = s.get(i);
    let bu: Unit = match pst_opt {
        Some(st) => st.border,
        None => Unit::Auto,
    };
    let bw = ex_border(bu, pr.width);
    let bh = ex_border(bu, pr.height);
    let cx = clamp_off(pr.posx + bw);
    let cy = clamp_off(pr.posy + bh);
    let cw = clamp_len(pr.width - 2 * bw);
    let chh = clamp_len(pr.height - 2 * bh);
    proof {
        assert(cx as int == content_box(s.spec_get(i as int), pr@).cx);
        assert(cy as int == content_box(s.spec_get(i as int), pr@).cy);
        assert(cw as int == content_box(s.spec_get(i as int), pr@).cw);
        assert(chh as int == content_box(s.spec_get(i as int), pr@).ch);
    }
    let lt: LayoutType = match pst_opt {
        Some(st) => st.layout_type,
        None => LayoutType::Row,
    };
    let inh_lb: Unit = match pst_opt {
        Some(st) => st.child_left,
        None => Unit::Auto,
    };
    let inh_rb: Unit = match pst_opt {
        Some(st) => st.child_right,
        None => Unit::Auto,
    };
    let inh_tb: Unit = match pst_opt {
        Some(st) => st.child_top,
        None => Unit::Auto,
    };
    let inh_bb: Unit = match pst_opt {
        Some(st) => st.child_bottom,
        None => Unit::Auto,
    };
    let gcol: Unit = match pst_opt {
        Some(st) => st.col_between,
        None => Unit::Auto,
    };
    let grow: Unit = match pst_opt {
        Some(st) => st.row_between,
        None => Unit::Auto,
    };
    let implicit: Vec<Unit> = vec![Unit::Stretch(1)];
    let cols: &Vec<Unit> = match pst_opt {
        Some(st) => if st.grid_cols.len() > 0 {
            &st.grid_cols
        } else {
            &implicit
        },
        None => &implicit,
    };
    let rows: &Vec<Unit> = match pst_opt {
        Some(st) => if st.grid_rows.len() > 0 {
            &st.grid_rows
        } else {
            &implicit
        },
        None => &implicit,
    };
    proof {
        assert(cols@ == track_units(s.spec_get(i as int), true));
        assert(rows@ == track_units(s.spec_get(i as int), false));
        assert(cols@.len() <= MAX_FACTOR);
        assert(rows@.len() <= MAX_FACTOR);
        assert(cols@.len() >= 1);
        assert(rows@.len() >= 1);
        assert(t.subtree(i as int).contains(i as int));
    }
    let cs = t.child_iter(i);
    proof {
        assert forall|kk: int| 0 <= kk < cs@.len() implies {
            &&& cache.entry_of(#[trigger] cs@[kk] as int).size.width as int == spec_measured(
                *t,
                *s,
                *m,
                cs@[kk] as int,
            ).width
            &&& cache.entry_of(cs@[kk] as int).size.height as int == spec_measured(
                *t,
                *s,
                *m,
                cs@[kk] as int,
            ).height
        } by {
            reveal(meas_matches);
            assert(t.children_of(i as int)[kk] == cs@[kk] as int);
            assert(t.children_of(i as int).contains(cs@[kk] as int));
            t.lemma_child_subtree_in_parent(i as int, cs@[kk] as int);
            t.lemma_subtree_contains_root(cs@[kk] as int);
            assert(t.subtree(i as int).contains(cs@[kk] as int));
        }
    }
    let gx = ex_gap_used(gcol, cw);
    let gy = ex_gap_used(grow, chh);
    let mut hfree: i64 = 0;
    let mut hss: i64 = 0;
    let mut vfree: i64 = 0;
    let mut vss: i64 = 0;
    match lt {
        LayoutType::Row => {
            let (u, w) = flow_accounting(cache, t, s, m, i, &cs, cw, inh_lb, inh_rb, gcol, true);
            proof {
                if cs@.len() > 0 {
                    assert(t.children_of(i as int)[0] == cs@[0] as int);
                }
                assert(u as int == flow_used(*t, *s, *m, i as int, cw as int, true));
            }
            hfree = clamp_off(cw - u);
            hss = w;
        },
        LayoutType::Column => {
            let (u, w) = flow_accounting(cache, t, s, m, i, &cs, chh, inh_tb, inh_bb, grow, false);
            proof {
                if cs@.len() > 0 {
                    assert(t.children_of(i as int)[0] == cs@[0] as int);
                }
                assert(u as int == flow_used(*t, *s, *m, i as int, chh as int, false));
            }
            vfree = clamp_off(chh - u);
            vss = w;
        },
        LayoutType::Grid => {
            let (fx, wx) = ex_tracks_sums(cols, cw);
            let (fy, wy) = ex_tracks_sums(rows, chh);
            let lx: i64 = cols.len() as i64 - 1;
            let ly: i64 = rows.len() as i64 - 1;
            proof {
                assert(0 <= lx as int * gx as int <= 0x1000_0000_0000_0000) by (nonlinear_arith)
                    requires
                        0 <= lx <= 0x10_0000,
                        0 <= gx <= 0x100_0000_0000,
                ;
                assert(0 <= ly as int * gy as int <= 0x1000_0000_0000_0000) by (nonlinear_arith)
                    requires
                        0 <= ly <= 0x10_0000,
                        0 <= gy <= 0x100_0000_0000,
                ;
            }
            let gapsx: i64 = lx * gx;
            let gapsy: i64 = ly * gy;
            hfree = clamp_off(cw - fx - gapsx);
            hss = wx;
            vfree = clamp_off(chh - fy - gapsy);
            vss = wy;
            proof {
                assert(hfree as int == grid_free(cols@, cw as int, gx as int));
                assert(vfree as int == grid_free(rows@, chh as int, gy as int));
            }
        },
    }
    let ei2 = cache.get_entry(i);
    cache.set_entry(
        i,
        CacheEntry {
            horizontal_free_space: hfree,
            horizontal_stretch_sum: hss,
            vertical_free_space: vfree,
            vertical_stretch_sum: vss,
            ..ei2
        },
    );
    proof {
        reveal(stats_of);
        reveal(place_matches);
        reveal(meas_matches);
        assert(place_matches(*t, *s, *m, vp, cache.entry_of(i as int), i as int));
        assert(meas_matches(*t, *s, *m, cache.entry_of(i as int), i as int));
        assert(ctx_ok(
            *t,
            *s,
            *m,
            vp,
            i as int,
            pr,
            cx,
            cy,
            cw,
            chh,
            lt,
            inh_lb,
            inh_rb,
            inh_tb,
            inh_bb,
            gcol,
            grow,
            cols@,
            rows@,
            gx,
            gy,
            hfree,
            hss,
            vfree,
            vss,
        )) by {
            reveal(ctx_ok);
        }
    }
    let (ff, lf): (Option<usize>, Option<usize>) = match t.get_first_child(i) {
        Some(c0) => (ex_first_flow(t, s, c0), ex_last_flow(t, s, c0)),
        None => (None, None),
    };
    let mut cursor: i64 = match lt {
        LayoutType::Row => cx,
        LayoutType::Column => cy,
        LayoutType::Grid => 0,
    };
    proof {
        reveal(cursor_at);
    }
    let mut k: usize = 0;
    while k < cs.len()
        invariant
            t.wf(),
            s.wf(),
            m.wf(),
            t.valid(i as int),
            as_ints(cs@) == t.children_of(i as int),
            forall|kk: int| 0 <= kk < cs@.len() ==> (#[trigger] cs@[kk] as int) < t.n(),
            k <= cs@.len(),
            ctx_ok(
                *t,
                *s,
                *m,
                vp,
                i as int,
                pr,
                cx,
                cy,
                cw,
                chh,
                lt,
                inh_lb,
                inh_rb,
                inh_tb,
                inh_bb,
                gcol,
                grow,
                cols@,
                rows@,
                gx,
                gy,
                hfree,
                hss,
                vfree,
                vss,
            ),
            unit_wf(gcol) && unit_wf(grow),
            0 <= cw <= MAX_LEN && 0 <= chh <= MAX_LEN,
            -MAX_LEN <= hfree <= MAX_LEN && 0 <= hss <= MAX_LEN,
            -MAX_LEN <= vfree <= MAX_LEN && 0 <= vss <= MAX_LEN,
            (match (t.fc_of(i as int), ff) {
                (Some(c0), Some(f)) => first_flow(*t, *s, c0) == Some(f as int),
                (Some(c0), None) => first_flow(*t, *s, c0) is None,
                (None, Some(f)) => false,
                (None, None) => true,
            }),
            (match (t.fc_of(i as int), lf) {
                (Some(c0), Some(f)) => last_flow(*t, *s, c0) == Some(f as int),
                (Some(c0), None) => last_flow(*t, *s, c0) is None,
                (None, Some(f)) => false,
                (None, None) => true,
            }),
            -MAX_LEN <= cursor <= MAX_LEN,
            lt == LayoutType::Row ==> cursor as int == cursor_at(
                *t,
                *s,
                *m,
                t.children_of(i as int),
                k as int,
                cx as int,
                cw as int,
                inh_lb,
                inh_rb,
                gcol,
                true,
                hfree as int,
                hss as int,
            ),
            lt == LayoutType::Column ==> cursor as int == cursor_at(
                *t,
                *s,
                *m,
                t.children_of(i as int),
                k as int,
                cy as int,
                chh as int,
                inh_tb,
                inh_bb,
                grow,
                false,
                vfree as int,
                vss as int,
            ),
            cache.entries@.len() == old(cache).entries@.len(),
            forall|x: int| cache.registered(x) == old(cache).registered(x),
            forall|x: int|
                0 <= x < old(cache).entries@.len() && !t.subtree(i as int).contains(x)
                    ==> cache.entries@[x] == old(cache).entries@[x],
            forall|x: int| t.subtree(i as int).contains(x) ==> old(cache).registered(x),
            forall|x: int|
                t.subtree(i as int).contains(x) ==> meas_matches(
                    *t,
                    *s,
                    *m,
                    cache.entry_of(x),
                    x,
                ),
            place_matches(*t, *s, *m, vp, cache.entry_of(i as int), i as int),
            forall|tt: int|
                0 <= tt < k ==> (forall|x: int|
                    t.subtree(#[trigger] cs@[tt] as int).contains(x) ==> place_matches(
                        *t,
                        *s,
                        *m,
                        vp,
                        cache.entry_of(x),
                        x,
                    )),
        decreases cs@.len() - k,
    {
        let c = cs[k];
        proof {
            assert(t.children_of(i as int)[k as int] == c as int);
        }
        let ghost pre = *cache;
        let rr = place_step(
            cache,
            t,
            s,
            m,
            Ghost(vp),
            i,
            &cs,
            k,
            pr,
            cx,
            cy,
            cw,
            chh,
            lt,
            inh_lb,
            inh_rb,
            inh_tb,
            inh_bb,
            gcol,
            grow,
            cols,
            rows,
            gx,
            gy,
            hfree,
            hss,
            vfree,
            vss,
            cursor,
            ff,
            lf,
        );
        proof {
            assert forall|x: int|
                0 <= x < old(cache).entries@.len() && !t.subtree(i as int).contains(
                    x,
                ) implies cache.entries@[x] == old(cache).entries@[x] by {
                assert(cache.entries@[x] == pre.entries@[x]);
            }
            assert forall|tt: int, x: int|
                #![trigger t.subtree(cs@[tt] as int).contains(x)]
                0 <= tt < k + 1 && t.subtree(cs@[tt] as int).contains(
                    x,
                ) implies place_matches(*t, *s, *m, vp, cache.entry_of(x), x) by {
                if tt == k {
                } else {
                    assert(t.children_of(i as int)[tt] == cs@[tt] as int);
                    assert(t.children_of(i as int).contains(cs@[tt] as int));
                    t.lemma_child_subtree_in_parent(i as int, cs@[tt] as int);
                    t.lemma_subtree_bounds(cs@[tt] as int);
                    assert(t.subtree(i as int).contains(x));
                    assert(pre.registered(x));
                    assert(place_matches(*t, *s, *m, vp, pre.entry_of(x), x));
                }
            }
        }
        match lt {
            LayoutType::Row => {
                if rr.3 {
                    let gt: i64 = if rr.4 {
                        ex_gap_fin(gcol, cw, hfree, hss)
                    } else {
                        0
                    };
                    cursor = clamp_off(cursor + rr.0 + rr.1 + rr.2 + gt);
                }
                proof {
                    reveal(cursor_at);
                    assert(t.children_of(i as int)[k as int] == cs@[k as int] as int);
                    assert(cursor as int == cursor_at(
                        *t,
                        *s,
                        *m,
                        t.children_of(i as int),
                        k as int + 1,
                        cx as int,
                        cw as int,
                        inh_lb,
                        inh_rb,
                        gcol,
                        true,
                        hfree as int,
                        hss as int,
                    ));
                }
            },
            LayoutType::Column => {
                if rr.3 {
                    let gt: i64 = if rr.4 {
                        ex_gap_fin(grow, chh, vfree, vss)
                    } else {
                        0
                    };
                    cursor = clamp_off(cursor + rr.0 + rr.1 + rr.2 + gt);
                }
                proof {
                    reveal(cursor_at);
                    assert(t.children_of(i as int)[k as int] == cs@[k as int] as int);
                    assert(cursor as int == cursor_at(
                        *t,
                        *s,
                        *m,
                        t.children_of(i as int),
                        k as int + 1,
                        cy as int,
                        chh as int,
                        inh_tb,
                        inh_bb,
                        grow,
                        false,
                        vfree as int,
                        vss as int,
                    ));
                }
            },
            LayoutType::Grid => {},
        }
        k = k + 1;
    }
    proof {
        assert forall|x: int| t.subtree(i as int).contains(x) implies place_matches(
            *t,
            *s,
            *m,
            vp,
            cache.entry_of(x),
            x,
        ) by {
            if x != i {
                t.lemma_subtree_member(i as int, x);
                let kk = choose|kk: int|
                    0 <= kk < t.children_of(i as int).len() && t.subtree(
                        #[trigger] t.children_of(i as int)[kk],
                    ).contains(x);
                assert(cs@[kk] as int == t.children_of(i as int)[kk]);
            }
        }
    }
}

/// Lay out the whole tree: register every reachable node, run the
/// bottom-up measurement pass, pin the root to the viewport, and run the
/// top-down placement pass.
///
/// Afterwards every node of the root's subtree has a cache entry whose
/// rectangle, spacing, working size, aggregates, stretch statistics and
/// stack flags equal the mathematical model of the algorithm — a function
/// of the tree, the styles, the content sizes and the viewport alone,
/// never of earlier cache contents.  Entries of nodes outside the subtree
/// are untouched.
#[verifier::rlimit(100)]
#[verifier::spinoff_prover]
pub fn layout(
    cache: &mut LayoutCache,
    tree: &Tree,
    styles: &StyleMap,
    content: &ContentMap,
    viewport: Rect,
)
    requires
        tree.wf(),
        styles.wf(),
        content.wf(),
    ensures
        forall|x: int|
            #[trigger] tree.subtree(tree.root as int).contains(x) ==> final(cache).registered(x)
                && meas_matches(*tree, *styles, *content, final(cache).entry_of(x), x)
                && place_matches(*tree, *styles, *content, viewport@, final(cache).entry_of(x), x),
        forall|x: int|
            0 <= x < old(cache).entries@.len() && !tree.subtree(tree.root as int).contains(x)
                ==> final(cache).entries@[x] == old(cache).entries@[x],
        forall|x: int|
            !tree.subtree(tree.root as int).contains(x) ==> final(cache).registered(x) == old(cache).registered(x),
        final(cache).entries@.len() >= old(cache).entries@.len(),
{
    let ghost sub = tree.subtree(tree.root as int);
    let order = tree.flatten();
    let mut k: usize = 0;
    while k < order.len()
        invariant
            tree.wf(),
            as_ints(order@) == tree.subtree(tree.root as int),
            forall|kk: int| 0 <= kk < order@.len() ==> (#[trigger] order@[kk] as int) < tree.n(),
            k <= order@.len(),
            cache.entries@.len() >= old(cache).entries@.len(),
            forall|x: int|
                0 <= x < old(cache).entries@.len() && !tree.subtree(tree.root as int).contains(x)
                    ==> cache.entries@[x] == old(cache).entries@[x],
            forall|x: int|
                !tree.subtree(tree.root as int).contains(x) ==> cache.registered(x) == old(
                    cache,
                ).registered(x),
            forall|j: int| 0 <= j < k ==> cache.registered(#[trigger] order@[j] as int),
        decreases order@.len() - k,
    {
        let nd = order[k];
        proof {
            assert(as_ints(order@)[k as int] == nd as int);
            assert(tree.subtree(tree.root as int).contains(nd as int));
        }
        cache.add(nd);
        k = k + 1;
    }
    proof {
        assert forall|x: int|
            tree.subtree(tree.root as int).contains(x) implies cache.registered(x) by {
            let j = choose|j: int| 0 <= j < sub.len() && sub[j] == x;
            assert(as_ints(order@)[j] == x);
            assert(order@[j] as int == x);
        }
    }
    measure_rec(cache, tree, styles, content, tree.root);
    // pin the root to the viewport
    let vx = clamp_off(viewport.posx);
    let vy = clamp_off(viewport.posy);
    let vw = clamp_len(viewport.width);
    let vh = clamp_len(viewport.height);
    proof {
        tree.lemma_subtree_bounds(tree.root as int);
        assert(tree.subtree(tree.root as int).contains(tree.root as int));
    }
    let ghost pre_root = *cache;
    let er = cache.get_entry(tree.root);
    cache.set_entry(
        tree.root,
        CacheEntry {
            rect: Rect { posx: vx, posy: vy, width: vw, height: vh },
            space: Space { left: 0, right: 0, top: 0, bottom: 0 },
            stack_first_child: false,
            stack_last_child: false,
            ..er
        },
    );
    proof {
        reveal(spec_placed);
        reveal(meas_matches);
        let r = tree.root as int;
        assert(cache.entry_of(r).rect@ == spec_placed(*tree, *styles, *content, viewport@, r).rect);
        assert(cache.entry_of(r).space@ == spec_placed(
            *tree,
            *styles,
            *content,
            viewport@,
            r,
        ).space);
        assert(!is_first_flow(*tree, *styles, r));
        assert(!is_last_flow(*tree, *styles, r));
        assert forall|x: int|
            tree.subtree(tree.root as int).contains(x) implies meas_matches(
            *tree,
            *styles,
            *content,
            cache.entry_of(x),
            x,
        ) && cache.registered(x) by {
            if x != r {
                assert(cache.entries@[x] == pre_root.entries@[x]);
                assert(cache.entry_of(x) == pre_root.entry_of(x));
            }
        }
    }
    place_rec(cache, tree, styles, content, Ghost(viewport@), tree.root);
}

/// Executable [`ax_solo`].
fn ex_ax_solo(a: Axis, meas: i64, d: i64) -> (r: (i64, i64, i64))
    requires
        axis_wf(a),
        0 <= d <= MAX_LEN,
        0 <= meas <= MAX_LEN,
    ensures
        r.0 as int == ax_solo(a, meas as int, d as int).before,
        r.1 as int == ax_solo(a, meas as int, d as int).size,
        r.2 as int == ax_solo(a, meas as int, d as int).after,
        -MAX_LEN <= r.0 <= MAX_LEN,
        0 <= r.1 <= MAX_LEN,
        -MAX_LEN <= r.2 <= MAX_LEN,
{
    proof {
        reveal(ax_solo);
    }
    let fix = ex_ax_fix(a, meas, d);
    let free = clamp_off(d - fix);
    let ss = ex_ax_w(a);
    ex_ax_triple(a, meas, d, free, ss)
}

} // verus!
