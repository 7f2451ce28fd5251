//! The algebraic laws of the solver, stated and proved over its
//! mathematical model: determinism, idempotence of relayout, free-space
//! conservation in flow containers, proportional stretch distribution,
//! and locality of grid track spans.

use vstd::prelude::*;
use vstd::arithmetic::div_mod::{lemma_div_multiples_vanish, lemma_fundamental_div_mod};
use crate::cache::LayoutCache;
use crate::geom::RectM;
use crate::solver::{
    ax_fix,
    ax_of,
    ax_triple,
    flow_after,
    flow_free,
    flow_used,
    flow_wsum,
    gap_fin,
    in_flow,
    inh_of,
    gap_of,
    meas_of,
    item_fix,
    place_matches,
    res_max_len,
    res_min_len,
    res_off,
    res_size,
    span_size,
    track_pos,
    used_from,
    Axis,
    ContentMap,
    ResUnit,
};
use crate::style::StyleMap;
use crate::tree::Tree;
use crate::units::{cl_off, stretch_share, Unit, MAX_LEN};

verus! {

/// Determinism: the rectangles a relayout computes are a function of the
/// tree, the styles, the content sizes and the viewport alone.  Any two
/// caches that hold the results of a relayout with the same inputs agree
/// on the rectangle of every node of the subtree, whatever they held
/// before.
pub proof fn lemma_layout_deterministic(
    t: Tree,
    s: StyleMap,
    m: ContentMap,
    vp: RectM,
    c1: LayoutCache,
    c2: LayoutCache,
)
    requires
        forall|x: int|
            #[trigger] t.subtree(t.root as int).contains(x) ==> place_matches(
                t,
                s,
                m,
                vp,
                c1.entry_of(x),
                x,
            ),
        forall|x: int|
            #[trigger] t.subtree(t.root as int).contains(x) ==> place_matches(
                t,
                s,
                m,
                vp,
                c2.entry_of(x),
                x,
            ),
    ensures
        forall|x: int|
            #[trigger] t.subtree(t.root as int).contains(x) ==> c1.entry_of(x).rect == c2.entry_of(
                x,
            ).rect,
{
    reveal(place_matches);
    assert forall|x: int| #[trigger] t.subtree(t.root as int).contains(x) implies c1.entry_of(
        x,
    ).rect == c2.entry_of(x).rect by {
        assert(c1.entry_of(x).rect@ == c2.entry_of(x).rect@);
    }
}

/// Idempotence under no-op: relaying out an already-laid-out tree whose
/// styles have not changed leaves every cached rectangle unchanged.  The
/// second pass starts from a cache holding the first pass's results and,
/// because the outcome never depends on prior cache contents, reproduces
/// exactly the same rectangles.
pub proof fn lemma_relayout_idempotent(
    t: Tree,
    s: StyleMap,
    m: ContentMap,
    vp: RectM,
    before: LayoutCache,
    after: LayoutCache,
)
    requires
        forall|x: int|
            #[trigger] t.subtree(t.root as int).contains(x) ==> place_matches(
                t,
                s,
                m,
                vp,
                before.entry_of(x),
                x,
            ),
        forall|x: int|
            #[trigger] t.subtree(t.root as int).contains(x) ==> place_matches(
                t,
                s,
                m,
                vp,
                after.entry_of(x),
                x,
            ),
    ensures
        forall|x: int|
            #[trigger] t.subtree(t.root as int).contains(x) ==> after.entry_of(x).rect
                == before.entry_of(x).rect,
{
    lemma_layout_deterministic(t, s, m, vp, before, after);
}

/// Conservation in a flow container: the content-area main-axis size
/// splits exactly into the space used by the children (their fixed
/// spaces, sizes and inter-child gaps) and the recorded free space,
/// whenever that difference stays within the saturation range.
pub proof fn lemma_flow_conservation(
    t: Tree,
    s: StyleMap,
    m: ContentMap,
    p: int,
    d: int,
    horiz: bool,
)
    requires
        -MAX_LEN <= d - flow_used(t, s, m, p, d, horiz) <= MAX_LEN,
    ensures
        flow_used(t, s, m, p, d, horiz) + flow_free(t, s, m, p, d, horiz) == d,
{
    assert(cl_off(d - flow_used(t, s, m, p, d, horiz)) == d - flow_used(t, s, m, p, d, horiz));
}

/// A child without a stretch size is unaffected by the container's free
/// space: its placed size equals its clamped fixed size, whatever free
/// space and stretch weights surround it.
pub proof fn lemma_no_stretch_size(a: Axis, meas: int, d: int, free1: int, ss1: int, free2: int, ss2: int)
    requires
        !(a.size is Stretch),
    ensures
        ax_triple(a, meas, d, free1, ss1).size == ax_triple(a, meas, d, free2, ss2).size,
        ax_triple(a, meas, d, free1, ss1).size == item_fix(
            res_size(a.size, d, meas),
            res_min_len(a.min_size, d),
            res_max_len(a.max_size, d),
        ),
{
    reveal(ax_triple);
}

/// A flow child with no stretch item on its axis occupies exactly the
/// extent the container's accounting charged for it: its placed triple
/// sums to its fixed contribution, so the content size splits into the
/// children's extents, the gaps, and the recorded free space.
pub proof fn lemma_no_stretch_triple(a: Axis, meas: int, d: int, free: int, ss: int)
    requires
        !(res_off(a.before, a.inh_before, d) is Str),
        !(a.size is Stretch),
        !(res_off(a.after, a.inh_after, d) is Str),
    ensures
        ax_triple(a, meas, d, free, ss).before + ax_triple(a, meas, d, free, ss).size + ax_triple(
            a,
            meas,
            d,
            free,
            ss,
        ).after == ax_fix(a, meas, d),
{
    reveal(ax_triple);
    reveal(ax_fix);
}

/// The summed placed extents of the flow members of a sibling chain:
/// each flow member contributes its placed before-offset, size and
/// after-offset, plus the resolved gap that follows it.  This is the
/// quantity the conservation law speaks about.
pub open spec fn extent_from(
    t: Tree,
    s: StyleMap,
    m: ContentMap,
    j: int,
    d: int,
    inh_b: Unit,
    inh_a: Unit,
    gap: Unit,
    horiz: bool,
    free: int,
    ss: int,
) -> int
    decreases t.n() - j,
{
    if t.valid(j) {
        let rest = match t.ns_of(j) {
            Some(nx) => if j < nx < t.n() {
                extent_from(t, s, m, nx, d, inh_b, inh_a, gap, horiz, free, ss)
            } else {
                0
            },
            None => 0,
        };
        if in_flow(s, j) {
            let st = s.spec_get(j).unwrap();
            let a = ax_of(st, inh_b, inh_a, horiz);
            let tr = ax_triple(a, meas_of(t, s, m, j, horiz), d, free, ss);
            cl_off(
                tr.before + tr.size + tr.after + (if flow_after(t, s, j) {
                    gap_fin(gap, d, free, ss)
                } else {
                    0
                }) + rest,
            )
        } else {
            rest
        }
    } else {
        0
    }
}

/// No member of the sibling chain brings a stretch item to this axis.
pub open spec fn chain_no_stretch(
    t: Tree,
    s: StyleMap,
    j: int,
    inh_b: Unit,
    inh_a: Unit,
    horiz: bool,
) -> bool
    decreases t.n() - j,
{
    if t.valid(j) {
        let rest = match t.ns_of(j) {
            Some(nx) => if j < nx < t.n() {
                chain_no_stretch(t, s, nx, inh_b, inh_a, horiz)
            } else {
                true
            },
            None => true,
        };
        if in_flow(s, j) {
            let st = s.spec_get(j).unwrap();
            let a = ax_of(st, inh_b, inh_a, horiz);
            &&& !(res_off(a.before, a.inh_before, 0) is Str)
            &&& !(a.size is Stretch)
            &&& !(res_off(a.after, a.inh_after, 0) is Str)
            &&& rest
        } else {
            rest
        }
    } else {
        true
    }
}

/// Conservation (flow), chain form: when no child of the chain stretches
/// on this axis and the gap is fixed, the placed extents coincide with
/// the space the container's accounting charged, so the content size
/// splits exactly into the children's placed extents, the gaps, and the
/// free space.
pub proof fn lemma_flow_extents(
    t: Tree,
    s: StyleMap,
    m: ContentMap,
    j: int,
    d: int,
    inh_b: Unit,
    inh_a: Unit,
    gap: Unit,
    horiz: bool,
    free: int,
    ss: int,
)
    requires
        chain_no_stretch(t, s, j, inh_b, inh_a, horiz),
        !(gap is Stretch),
    ensures
        extent_from(t, s, m, j, d, inh_b, inh_a, gap, horiz, free, ss) == used_from(
            t,
            s,
            m,
            j,
            d,
            inh_b,
            inh_a,
            gap,
            horiz,
        ),
    decreases t.n() - j,
{
    if t.valid(j) {
        match t.ns_of(j) {
            Some(nx) => {
                if j < nx < t.n() {
                    lemma_flow_extents(t, s, m, nx, d, inh_b, inh_a, gap, horiz, free, ss);
                }
            },
            None => {},
        }
        if in_flow(s, j) {
            let st = s.spec_get(j).unwrap();
            let a = ax_of(st, inh_b, inh_a, horiz);
            let meas = meas_of(t, s, m, j, horiz);
            assert(!(res_off(a.before, a.inh_before, d) is Str));
            assert(!(res_off(a.after, a.inh_after, d) is Str));
            lemma_no_stretch_triple(a, meas, d, free, ss);
        }
    }
}

/// Conservation (flow), container form: for a flow container with no
/// stretch child and a fixed gap, the content-area main-axis size is the
/// children's placed extents plus the recorded free space, whenever the
/// difference stays within the saturation range.
pub proof fn lemma_flow_conservation_chain(
    t: Tree,
    s: StyleMap,
    m: ContentMap,
    p: int,
    d: int,
    horiz: bool,
)
    requires
        -MAX_LEN <= d - flow_used(t, s, m, p, d, horiz) <= MAX_LEN,
        (match t.fc_of(p) {
            Some(c) => p < c < t.n() && chain_no_stretch(
                t,
                s,
                c,
                inh_of(s.spec_get(p), horiz, true),
                inh_of(s.spec_get(p), horiz, false),
                horiz,
            ),
            None => true,
        }),
        !(gap_of(s.spec_get(p), horiz) is Stretch),
    ensures
        (match t.fc_of(p) {
            Some(c) => d == extent_from(
                t,
                s,
                m,
                c,
                d,
                inh_of(s.spec_get(p), horiz, true),
                inh_of(s.spec_get(p), horiz, false),
                gap_of(s.spec_get(p), horiz),
                horiz,
                flow_free(t, s, m, p, d, horiz),
                flow_wsum(t, s, p, horiz),
            ) + flow_free(t, s, m, p, d, horiz),
            None => true,
        }),
{
    lemma_flow_conservation(t, s, m, p, d, horiz);
    match t.fc_of(p) {
        Some(c) => {
            if p < c < t.n() {
                lemma_flow_extents(
                    t,
                    s,
                    m,
                    c,
                    d,
                    inh_of(s.spec_get(p), horiz, true),
                    inh_of(s.spec_get(p), horiz, false),
                    gap_of(s.spec_get(p), horiz),
                    horiz,
                    flow_free(t, s, m, p, d, horiz),
                    flow_wsum(t, s, p, horiz),
                );
            }
        },
        None => {},
    }
}

/// Stretch fairness: two stretch items of weights `w1` and `w2` sharing
/// `free` space receive `free*w1/(w1+w2)` and `free*w2/(w1+w2)`; when the
/// weight sum divides the products evenly the distribution is exactly
/// proportional and leaves no remainder.
pub proof fn lemma_stretch_fairness(free: int, w1: int, w2: int)
    requires
        0 < free,
        0 <= w1,
        0 <= w2,
        0 < w1 + w2,
    ensures
        stretch_share(free, w1 + w2, w1) == free * w1 / (w1 + w2),
        stretch_share(free, w1 + w2, w2) == free * w2 / (w1 + w2),
        free % (w1 + w2) == 0 ==> stretch_share(free, w1 + w2, w1) == (free / (w1 + w2)) * w1
            && stretch_share(free, w1 + w2, w2) == (free / (w1 + w2)) * w2 && stretch_share(
            free,
            w1 + w2,
            w1,
        ) + stretch_share(free, w1 + w2, w2) == free,
{
    let ww = w1 + w2;
    if free % ww == 0 {
        let q = free / ww;
        lemma_fundamental_div_mod(free, ww);
        assert(free == ww * q);
        assert(free * w1 == ww * (q * w1)) by (nonlinear_arith)
            requires
                free == ww * q,
        ;
        lemma_div_multiples_vanish(q * w1, ww);
        assert(free * w1 / ww == q * w1);
        assert(free * w2 == ww * (q * w2)) by (nonlinear_arith)
            requires
                free == ww * q,
        ;
        lemma_div_multiples_vanish(q * w2, ww);
        assert(free * w2 / ww == q * w2);
        assert(q * w1 + q * w2 == q * ww) by (nonlinear_arith)
            requires
                ww == w1 + w2,
        ;
        assert(q * ww == free) by (nonlinear_arith)
            requires
                free == ww * q,
        ;
    }
}

/// Grid locality: placing a span `[i0, i1)` reads only the first `i1`
/// resolved tracks.  Two track lists that agree on those tracks give the
/// same span origin and the same span extent, whatever their later
/// tracks hold.
pub proof fn lemma_grid_span_local(
    us1: Seq<Unit>,
    us2: Seq<Unit>,
    d: int,
    g: int,
    free: int,
    ss: int,
    i0: int,
    i1: int,
)
    requires
        0 <= i0 <= i1 <= us1.len(),
        i1 <= us2.len(),
        forall|j: int| 0 <= j < i1 ==> us1[j] == us2[j],
    ensures
        track_pos(us1, d, g, free, ss, i0) == track_pos(us2, d, g, free, ss, i0),
        span_size(us1, d, g, free, ss, i0, i1) == span_size(us2, d, g, free, ss, i0, i1),
    decreases i1,
{
    lemma_track_pos_local(us1, us2, d, g, free, ss, i0, i1);
    lemma_span_local(us1, us2, d, g, free, ss, i0, i1);
}

proof fn lemma_track_pos_local(
    us1: Seq<Unit>,
    us2: Seq<Unit>,
    d: int,
    g: int,
    free: int,
    ss: int,
    k: int,
    bound: int,
)
    requires
        0 <= k <= bound,
        forall|j: int| 0 <= j < bound ==> us1[j] == us2[j],
    ensures
        track_pos(us1, d, g, free, ss, k) == track_pos(us2, d, g, free, ss, k),
    decreases k,
{
    if k > 0 {
        lemma_track_pos_local(us1, us2, d, g, free, ss, k - 1, bound);
    }
}

proof fn lemma_span_local(
    us1: Seq<Unit>,
    us2: Seq<Unit>,
    d: int,
    g: int,
    free: int,
    ss: int,
    i0: int,
    i1: int,
)
    requires
        0 <= i0,
        i0 <= i1,
        forall|j: int| 0 <= j < i1 ==> us1[j] == us2[j],
    ensures
        span_size(us1, d, g, free, ss, i0, i1) == span_size(us2, d, g, free, ss, i0, i1),
    decreases i1 - i0,
{
    if i1 > i0 {
        lemma_span_local(us1, us2, d, g, free, ss, i0, i1 - 1);
    }
}

} // verus!
