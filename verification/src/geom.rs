//! Geometry records: the final rectangle of a node, its resolved spacing,
//! and the separate working size used during measurement.

use vstd::prelude::*;
use crate::units::MAX_LEN;

verus! {

/// A node's final rectangle, in the absolute coordinate space of the layout
/// pass (pixel units).
#[derive(Clone, Copy, Debug, Default, PartialEq, Eq, Structural)]
pub struct Rect {
    pub posx: i64,
    pub posy: i64,
    pub width: i64,
    pub height: i64,
}

/// A node's resolved box-model offsets, in pixel units.
#[derive(Clone, Copy, Debug, Default, PartialEq, Eq, Structural)]
pub struct Space {
    pub left: i64,
    pub right: i64,
    pub top: i64,
    pub bottom: i64,
}

/// The measurement-pass working size of a node.  It is kept separate from
/// the final `Rect` so that an in-progress measurement can never be read as
/// a placed size.
#[derive(Clone, Copy, Debug, Default, PartialEq, Eq, Structural)]
pub struct Size {
    pub width: i64,
    pub height: i64,
}

/// Mathematical model of a `Rect`.
pub ghost struct RectM {
    pub posx: int,
    pub posy: int,
    pub width: int,
    pub height: int,
}

/// Mathematical model of a `Space`.
pub ghost struct SpaceM {
    pub left: int,
    pub right: int,
    pub top: int,
    pub bottom: int,
}

/// Mathematical model of a `Size`.
pub ghost struct SizeM {
    pub width: int,
    pub height: int,
}

impl View for Rect {
    type V = RectM;

    open spec fn view(&self) -> RectM {
        RectM {
            posx: self.posx as int,
            posy: self.posy as int,
            width: self.width as int,
            height: self.height as int,
        }
    }
}

impl View for Space {
    type V = SpaceM;

    open spec fn view(&self) -> SpaceM {
        SpaceM {
            left: self.left as int,
            right: self.right as int,
            top: self.top as int,
            bottom: self.bottom as int,
        }
    }
}

impl View for Size {
    type V = SizeM;

    open spec fn view(&self) -> SizeM {
        SizeM { width: self.width as int, height: self.height as int }
    }
}

impl RectM {
    /// A zero-sized rectangle at the given origin.
    pub open spec fn zero_at(x: int, y: int) -> RectM {
        RectM { posx: x, posy: y, width: 0, height: 0 }
    }

    /// Within the saturation bounds: positions in `[-MAX_LEN, MAX_LEN]`,
    /// sizes in `[0, MAX_LEN]`.
    pub open spec fn wf(self) -> bool {
        &&& -MAX_LEN <= self.posx <= MAX_LEN
        &&& -MAX_LEN <= self.posy <= MAX_LEN
        &&& 0 <= self.width <= MAX_LEN
        &&& 0 <= self.height <= MAX_LEN
    }
}

impl SpaceM {
    pub open spec fn zero() -> SpaceM {
        SpaceM { left: 0, right: 0, top: 0, bottom: 0 }
    }

    pub open spec fn wf(self) -> bool {
        &&& -MAX_LEN <= self.left <= MAX_LEN
        &&& -MAX_LEN <= self.right <= MAX_LEN
        &&& -MAX_LEN <= self.top <= MAX_LEN
        &&& -MAX_LEN <= self.bottom <= MAX_LEN
    }
}

impl SizeM {
    pub open spec fn zero() -> SizeM {
        SizeM { width: 0, height: 0 }
    }

    pub open spec fn wf(self) -> bool {
        &&& 0 <= self.width <= MAX_LEN
        &&& 0 <= self.height <= MAX_LEN
    }
}

impl Rect {
    /// Within the saturation bounds.
    pub open spec fn wf(self) -> bool {
        self@.wf()
    }
}

} // verus!
