//! Per-node style records and the style lookup handed to the solver.

use vstd::prelude::*;
use crate::units::{unit_wf, LayoutType, PositionType, Unit, MAX_FACTOR};

verus! {

/// The constraint data of one node, immutable during a layout pass.
///
/// Every size and spacing field is a [`Unit`]; `border` applies uniformly to
/// all four edges.  `grid_rows` / `grid_cols` declare the track sizes of a
/// grid container, and the four placement indices select the track span a
/// grid child occupies.
#[derive(Clone, Debug)]
pub struct Style {
    pub position_type: PositionType,
    pub layout_type: LayoutType,

    pub left: Unit,
    pub right: Unit,
    pub top: Unit,
    pub bottom: Unit,

    pub min_left: Unit,
    pub max_left: Unit,
    pub min_right: Unit,
    pub max_right: Unit,
    pub min_top: Unit,
    pub max_top: Unit,
    pub min_bottom: Unit,
    pub max_bottom: Unit,

    pub width: Unit,
    pub height: Unit,

    pub min_width: Unit,
    pub max_width: Unit,
    pub min_height: Unit,
    pub max_height: Unit,

    pub child_left: Unit,
    pub child_right: Unit,
    pub child_top: Unit,
    pub child_bottom: Unit,

    pub row_between: Unit,
    pub col_between: Unit,

    pub grid_rows: Vec<Unit>,
    pub grid_cols: Vec<Unit>,

    pub row_index: usize,
    pub col_index: usize,
    pub row_span: usize,
    pub col_span: usize,

    pub border: Unit,
}

impl Style {
    /// Every unit payload within bounds, and grid indices small enough that
    /// track arithmetic cannot overflow.
    pub open spec fn wf(self) -> bool {
        &&& unit_wf(self.left)
        &&& unit_wf(self.right)
        &&& unit_wf(self.top)
        &&& unit_wf(self.bottom)
        &&& unit_wf(self.min_left)
        &&& unit_wf(self.max_left)
        &&& unit_wf(self.min_right)
        &&& unit_wf(self.max_right)
        &&& unit_wf(self.min_top)
        &&& unit_wf(self.max_top)
        &&& unit_wf(self.min_bottom)
        &&& unit_wf(self.max_bottom)
        &&& unit_wf(self.width)
        &&& unit_wf(self.height)
        &&& unit_wf(self.min_width)
        &&& unit_wf(self.max_width)
        &&& unit_wf(self.min_height)
        &&& unit_wf(self.max_height)
        &&& unit_wf(self.child_left)
        &&& unit_wf(self.child_right)
        &&& unit_wf(self.child_top)
        &&& unit_wf(self.child_bottom)
        &&& unit_wf(self.row_between)
        &&& unit_wf(self.col_between)
        &&& (forall|i: int| 0 <= i < self.grid_rows@.len() ==> unit_wf(#[trigger] self.grid_rows@[i]))
        &&& (forall|i: int| 0 <= i < self.grid_cols@.len() ==> unit_wf(#[trigger] self.grid_cols@[i]))
        &&& self.grid_rows@.len() <= MAX_FACTOR
        &&& self.grid_cols@.len() <= MAX_FACTOR
        &&& self.row_index <= MAX_FACTOR
        &&& self.col_index <= MAX_FACTOR
        &&& self.row_span <= MAX_FACTOR
        &&& self.col_span <= MAX_FACTOR
        &&& unit_wf(self.border)
    }

    /// The fully unconstrained style: everything `Auto`, flow layout, a
    /// one-track-by-one-track grid placement.
    pub fn new() -> (s: Style)
        ensures
            s.wf(),
            s.is_default(),
    {
        Style {
            position_type: PositionType::ParentDirected,
            layout_type: LayoutType::Row,
            left: Unit::Auto,
            right: Unit::Auto,
            top: Unit::Auto,
            bottom: Unit::Auto,
            min_left: Unit::Auto,
            max_left: Unit::Auto,
            min_right: Unit::Auto,
            max_right: Unit::Auto,
            min_top: Unit::Auto,
            max_top: Unit::Auto,
            min_bottom: Unit::Auto,
            max_bottom: Unit::Auto,
            width: Unit::Auto,
            height: Unit::Auto,
            min_width: Unit::Auto,
            max_width: Unit::Auto,
            min_height: Unit::Auto,
            max_height: Unit::Auto,
            child_left: Unit::Auto,
            child_right: Unit::Auto,
            child_top: Unit::Auto,
            child_bottom: Unit::Auto,
            row_between: Unit::Auto,
            col_between: Unit::Auto,
            grid_rows: Vec::new(),
            grid_cols: Vec::new(),
            row_index: 0,
            col_index: 0,
            row_span: 1,
            col_span: 1,
            border: Unit::Auto,
        }
    }

    /// The value `Style::new` returns: everything `Auto`, row flow,
    /// placement at grid origin with a span of one track.
    pub open spec fn is_default(self) -> bool {
        &&& self.position_type == PositionType::ParentDirected
        &&& self.layout_type == LayoutType::Row
        &&& self.left == Unit::Auto
        &&& self.right == Unit::Auto
        &&& self.top == Unit::Auto
        &&& self.bottom == Unit::Auto
        &&& self.min_left == Unit::Auto
        &&& self.max_left == Unit::Auto
        &&& self.min_right == Unit::Auto
        &&& self.max_right == Unit::Auto
        &&& self.min_top == Unit::Auto
        &&& self.max_top == Unit::Auto
        &&& self.min_bottom == Unit::Auto
        &&& self.max_bottom == Unit::Auto
        &&& self.width == Unit::Auto
        &&& self.height == Unit::Auto
        &&& self.min_width == Unit::Auto
        &&& self.max_width == Unit::Auto
        &&& self.min_height == Unit::Auto
        &&& self.max_height == Unit::Auto
        &&& self.child_left == Unit::Auto
        &&& self.child_right == Unit::Auto
        &&& self.child_top == Unit::Auto
        &&& self.child_bottom == Unit::Auto
        &&& self.row_between == Unit::Auto
        &&& self.col_between == Unit::Auto
        &&& self.grid_rows@ =~= Seq::<Unit>::empty()
        &&& self.grid_cols@ =~= Seq::<Unit>::empty()
        &&& self.row_index == 0
        &&& self.col_index == 0
        &&& self.row_span == 1
        &&& self.col_span == 1
        &&& self.border == Unit::Auto
    }
}

/// The style lookup handed to the solver: an optional style per node
/// identity.  Absence of a style is a normal condition, not a fault; the
/// solver gives such a node a zero-sized rectangle at its parent's origin.
pub struct StyleMap {
    pub styles: Vec<Option<Style>>,
}

impl StyleMap {
    /// All present styles are well-formed.
    pub open spec fn wf(self) -> bool {
        forall|i: int|
            0 <= i < self.styles@.len() ==> match #[trigger] self.styles@[i] {
                Some(st) => st.wf(),
                None => true,
            }
    }

    /// The style recorded for node `x`, if any.
    pub open spec fn spec_get(self, x: int) -> Option<Style> {
        if 0 <= x < self.styles@.len() {
            self.styles@[x]
        } else {
            None
        }
    }

    /// An empty lookup for `n` nodes.
    pub fn new(n: usize) -> (r: StyleMap)
        ensures
            r.wf(),
            r.styles@.len() == n,
            forall|x: int| r.spec_get(x) is None,
    {
        let mut v: Vec<Option<Style>> = Vec::new();
        while v.len() < n
            invariant
                v@.len() <= n,
                forall|i: int| 0 <= i < v@.len() ==> v@[i] is None,
            decreases n - v.len(),
        {
            v.push(None);
        }
        StyleMap { styles: v }
    }

    /// Record `st` as the style of node `x`.
    pub fn set(&mut self, x: usize, st: Style)
        requires
            old(self).wf(),
            x < old(self).styles@.len(),
            st.wf(),
        ensures
            final(self).wf(),
            final(self).styles@.len() == old(self).styles@.len(),
            final(self).spec_get(x as int) == Some(st),
            forall|y: int| y != x ==> final(self).spec_get(y) == old(self).spec_get(y),
    {
        self.styles.set(x, Some(st));
    }

    /// Read the style of node `x`.
    pub fn get(&self, x: usize) -> (r: Option<&Style>)
        ensures
            match r {
                Some(st) => self.spec_get(x as int) == Some(*st),
                None => self.spec_get(x as int) is None,
            },
    {
        if x < self.styles.len() {
            match &self.styles[x] {
                Some(st) => Some(st),
                None => None,
            }
        } else {
            None
        }
    }
}

} // verus!
