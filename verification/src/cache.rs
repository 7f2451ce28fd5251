//! The per-node layout cache: resolved rectangle, resolved spacing, the
//! measurement-pass working size, aggregate child measurements, free-space
//! and stretch-sum accumulators, and the stack position flags.
//!
//! Entries are registered explicitly with [`LayoutCache::add`] and persist
//! across passes.  Every getter is total: on an unregistered node it
//! returns the zero default; every setter on an unregistered node is a
//! no-op.  This registration policy is applied uniformly to all accessors.

use vstd::prelude::*;
use crate::geom::{Rect, Size, Space};

verus! {

/// Everything the cache tracks for one node.
#[derive(Clone, Copy, Debug, Default, PartialEq, Eq, Structural)]
pub struct CacheEntry {
    pub rect: Rect,
    pub space: Space,
    pub size: Size,
    pub child_width_max: i64,
    pub child_width_sum: i64,
    pub child_height_max: i64,
    pub child_height_sum: i64,
    pub grid_row_max: i64,
    pub grid_col_max: i64,
    pub horizontal_free_space: i64,
    pub horizontal_stretch_sum: i64,
    pub vertical_free_space: i64,
    pub vertical_stretch_sum: i64,
    pub stack_first_child: bool,
    pub stack_last_child: bool,
}

/// The all-zeroes entry a node starts from when it is registered.
pub open spec fn default_entry() -> CacheEntry {
    CacheEntry {
        rect: Rect { posx: 0, posy: 0, width: 0, height: 0 },
        space: Space { left: 0, right: 0, top: 0, bottom: 0 },
        size: Size { width: 0, height: 0 },
        child_width_max: 0,
        child_width_sum: 0,
        child_height_max: 0,
        child_height_sum: 0,
        grid_row_max: 0,
        grid_col_max: 0,
        horizontal_free_space: 0,
        horizontal_stretch_sum: 0,
        vertical_free_space: 0,
        vertical_stretch_sum: 0,
        stack_first_child: false,
        stack_last_child: false,
    }
}

/// Executable counterpart of [`default_entry`].
pub fn empty_entry() -> (e: CacheEntry)
    ensures
        e == default_entry(),
{
    CacheEntry {
        rect: Rect { posx: 0, posy: 0, width: 0, height: 0 },
        space: Space { left: 0, right: 0, top: 0, bottom: 0 },
        size: Size { width: 0, height: 0 },
        child_width_max: 0,
        child_width_sum: 0,
        child_height_max: 0,
        child_height_sum: 0,
        grid_row_max: 0,
        grid_col_max: 0,
        horizontal_free_space: 0,
        horizontal_stretch_sum: 0,
        vertical_free_space: 0,
        vertical_stretch_sum: 0,
        stack_first_child: false,
        stack_last_child: false,
    }
}

/// The scratch-and-output store of the solver, keyed by node identity.
pub struct LayoutCache {
    pub entries: Vec<Option<CacheEntry>>,
}

impl LayoutCache {
    /// Node `x` has a cache entry.
    pub open spec fn registered(self, x: int) -> bool {
        0 <= x < self.entries@.len() && self.entries@[x] is Some
    }

    /// The entry of node `x`; the zero default if `x` is unregistered.
    pub open spec fn entry_of(self, x: int) -> CacheEntry {
        if self.registered(x) {
            self.entries@[x].unwrap()
        } else {
            default_entry()
        }
    }

    /// How a single setter changes the cache: entry `x` becomes `e` if it
    /// was registered, nothing else changes, and an unregistered target
    /// leaves the cache untouched.
    pub open spec fn updated(pre: LayoutCache, post: LayoutCache, x: int, e: CacheEntry) -> bool {
        &&& post.entries@.len() == pre.entries@.len()
        &&& (forall|y: int|
            0 <= y < pre.entries@.len() && y != x ==> post.entries@[y] == pre.entries@[y])
        &&& (pre.registered(x) ==> post.registered(x) && post.entry_of(x) == e)
        &&& (!pre.registered(x) ==> post.entries@ == pre.entries@)
    }

    /// An empty cache.
    pub fn new() -> (c: LayoutCache)
        ensures
            c.entries@.len() == 0,
            forall|x: int| !c.registered(x),
    {
        LayoutCache { entries: Vec::new() }
    }

    /// Register `node`: create its zero-default entry if it has none.  An
    /// already-registered node keeps its entry, so registration is
    /// idempotent in effect and cached results survive across passes.
    pub fn add(&mut self, node: usize)
        ensures
            final(self).registered(node as int),
            old(self).registered(node as int) ==> final(self).entry_of(node as int) == old(
                self,
            ).entry_of(node as int),
            !old(self).registered(node as int) ==> final(self).entry_of(node as int)
                == default_entry(),
            final(self).entries@.len() >= old(self).entries@.len(),
            final(self).entries@.len() >= node + 1,
            forall|y: int|
                0 <= y < old(self).entries@.len() && y != node ==> final(self).entries@[y] == old(
                    self,
                ).entries@[y],
            forall|y: int|
                old(self).entries@.len() <= y < final(self).entries@.len() && y != node
                    ==> final(self).entries@[y] is None,
            forall|y: int|
                y != node ==> final(self).registered(y) == old(self).registered(y),
            forall|y: int| y != node ==> final(self).entry_of(y) == old(self).entry_of(y),
    {
        while self.entries.len() <= node
            invariant
                self.entries@.len() >= old(self).entries@.len(),
                forall|y: int|
                    0 <= y < old(self).entries@.len() ==> self.entries@[y] == old(
                        self,
                    ).entries@[y],
                forall|y: int|
                    old(self).entries@.len() <= y < self.entries@.len() ==> self.entries@[
                        y] is None,
            decreases node + 1 - self.entries@.len(),
        {
            self.entries.push(None);
        }
        if self.entries[node].is_none() {
            self.entries.set(node, Some(empty_entry()));
        }
    }

    /// The full entry of `node` (zero default when unregistered).
    pub fn get_entry(&self, node: usize) -> (e: CacheEntry)
        ensures
            e == self.entry_of(node as int),
    {
        if node < self.entries.len() {
            match self.entries[node] {
                Some(e) => e,
                None => empty_entry(),
            }
        } else {
            empty_entry()
        }
    }

    /// Overwrite the full entry of `node`; a no-op when unregistered.
    pub fn set_entry(&mut self, node: usize, e: CacheEntry)
        ensures
            LayoutCache::updated(*old(self), *final(self), node as int, e),
    {
        if node < self.entries.len() {
            if self.entries[node].is_some() {
                self.entries.set(node, Some(e));
            }
        }
    }

    /// The resolved rectangle of `node`.
    pub fn rect(&self, node: usize) -> (r: Rect)
        ensures
            r == self.entry_of(node as int).rect,
    {
        self.get_entry(node).rect
    }

    pub fn posx(&self, node: usize) -> (r: i64)
        ensures
            r == self.entry_of(node as int).rect.posx,
    {
        self.get_entry(node).rect.posx
    }

    pub fn posy(&self, node: usize) -> (r: i64)
        ensures
            r == self.entry_of(node as int).rect.posy,
    {
        self.get_entry(node).rect.posy
    }

    pub fn width(&self, node: usize) -> (r: i64)
        ensures
            r == self.entry_of(node as int).rect.width,
    {
        self.get_entry(node).rect.width
    }

    pub fn height(&self, node: usize) -> (r: i64)
        ensures
            r == self.entry_of(node as int).rect.height,
    {
        self.get_entry(node).rect.height
    }

    pub fn left(&self, node: usize) -> (r: i64)
        ensures
            r == self.entry_of(node as int).space.left,
    {
        self.get_entry(node).space.left
    }

    pub fn right(&self, node: usize) -> (r: i64)
        ensures
            r == self.entry_of(node as int).space.right,
    {
        self.get_entry(node).space.right
    }

    pub fn top(&self, node: usize) -> (r: i64)
        ensures
            r == self.entry_of(node as int).space.top,
    {
        self.get_entry(node).space.top
    }

    pub fn bottom(&self, node: usize) -> (r: i64)
        ensures
            r == self.entry_of(node as int).space.bottom,
    {
        self.get_entry(node).space.bottom
    }

    pub fn new_width(&self, node: usize) -> (r: i64)
        ensures
            r == self.entry_of(node as int).size.width,
    {
        self.get_entry(node).size.width
    }

    pub fn new_height(&self, node: usize) -> (r: i64)
        ensures
            r == self.entry_of(node as int).size.height,
    {
        self.get_entry(node).size.height
    }

    pub fn child_width_max(&self, node: usize) -> (r: i64)
        ensures
            r == self.entry_of(node as int).child_width_max,
    {
        self.get_entry(node).child_width_max
    }

    pub fn child_width_sum(&self, node: usize) -> (r: i64)
        ensures
            r == self.entry_of(node as int).child_width_sum,
    {
        self.get_entry(node).child_width_sum
    }

    pub fn child_height_max(&self, node: usize) -> (r: i64)
        ensures
            r == self.entry_of(node as int).child_height_max,
    {
        self.get_entry(node).child_height_max
    }

    pub fn child_height_sum(&self, node: usize) -> (r: i64)
        ensures
            r == self.entry_of(node as int).child_height_sum,
    {
        self.get_entry(node).child_height_sum
    }

    pub fn grid_row_max(&self, node: usize) -> (r: i64)
        ensures
            r == self.entry_of(node as int).grid_row_max,
    {
        self.get_entry(node).grid_row_max
    }

    pub fn grid_col_max(&self, node: usize) -> (r: i64)
        ensures
            r == self.entry_of(node as int).grid_col_max,
    {
        self.get_entry(node).grid_col_max
    }

    pub fn horizontal_free_space(&self, node: usize) -> (r: i64)
        ensures
            r == self.entry_of(node as int).horizontal_free_space,
    {
        self.get_entry(node).horizontal_free_space
    }

    pub fn vertical_free_space(&self, node: usize) -> (r: i64)
        ensures
            r == self.entry_of(node as int).vertical_free_space,
    {
        self.get_entry(node).vertical_free_space
    }

    pub fn horizontal_stretch_sum(&self, node: usize) -> (r: i64)
        ensures
            r == self.entry_of(node as int).horizontal_stretch_sum,
    {
        self.get_entry(node).horizontal_stretch_sum
    }

    pub fn vertical_stretch_sum(&self, node: usize) -> (r: i64)
        ensures
            r == self.entry_of(node as int).vertical_stretch_sum,
    {
        self.get_entry(node).vertical_stretch_sum
    }

    pub fn stack_first_child(&self, node: usize) -> (r: bool)
        ensures
            r == self.entry_of(node as int).stack_first_child,
    {
        self.get_entry(node).stack_first_child
    }

    pub fn stack_last_child(&self, node: usize) -> (r: bool)
        ensures
            r == self.entry_of(node as int).stack_last_child,
    {
        self.get_entry(node).stack_last_child
    }

    pub fn set_posx(&mut self, node: usize, value: i64)
        ensures
            LayoutCache::updated(
                *old(self),
                *final(self),
                node as int,
                (CacheEntry {
                    rect: (Rect { posx: value, ..old(self).entry_of(node as int).rect }),
                    ..old(self).entry_of(node as int)
                }),
            ),
    {
        let e = self.get_entry(node);
        self.set_entry(node, CacheEntry { rect: Rect { posx: value, ..e.rect }, ..e });
    }

    pub fn set_posy(&mut self, node: usize, value: i64)
        ensures
            LayoutCache::updated(
                *old(self),
                *final(self),
                node as int,
                (CacheEntry {
                    rect: (Rect { posy: value, ..old(self).entry_of(node as int).rect }),
                    ..old(self).entry_of(node as int)
                }),
            ),
    {
        let e = self.get_entry(node);
        self.set_entry(node, CacheEntry { rect: Rect { posy: value, ..e.rect }, ..e });
    }

    pub fn set_width(&mut self, node: usize, value: i64)
        ensures
            LayoutCache::updated(
                *old(self),
                *final(self),
                node as int,
                (CacheEntry {
                    rect: (Rect { width: value, ..old(self).entry_of(node as int).rect }),
                    ..old(self).entry_of(node as int)
                }),
            ),
    {
        let e = self.get_entry(node);
        self.set_entry(node, CacheEntry { rect: Rect { width: value, ..e.rect }, ..e });
    }

    pub fn set_height(&mut self, node: usize, value: i64)
        ensures
            LayoutCache::updated(
                *old(self),
                *final(self),
                node as int,
                (CacheEntry {
                    rect: (Rect { height: value, ..old(self).entry_of(node as int).rect }),
                    ..old(self).entry_of(node as int)
                }),
            ),
    {
        let e = self.get_entry(node);
        self.set_entry(node, CacheEntry { rect: Rect { height: value, ..e.rect }, ..e });
    }

    pub fn set_left(&mut self, node: usize, value: i64)
        ensures
            LayoutCache::updated(
                *old(self),
                *final(self),
                node as int,
                (CacheEntry {
                    space: (Space { left: value, ..old(self).entry_of(node as int).space }),
                    ..old(self).entry_of(node as int)
                }),
            ),
    {
        let e = self.get_entry(node);
        self.set_entry(node, CacheEntry { space: Space { left: value, ..e.space }, ..e });
    }

    pub fn set_right(&mut self, node: usize, value: i64)
        ensures
            LayoutCache::updated(
                *old(self),
                *final(self),
                node as int,
                (CacheEntry {
                    space: (Space { right: value, ..old(self).entry_of(node as int).space }),
                    ..old(self).entry_of(node as int)
                }),
            ),
    {
        let e = self.get_entry(node);
        self.set_entry(node, CacheEntry { space: Space { right: value, ..e.space }, ..e });
    }

    pub fn set_top(&mut self, node: usize, value: i64)
        ensures
            LayoutCache::updated(
                *old(self),
                *final(self),
                node as int,
                (CacheEntry {
                    space: (Space { top: value, ..old(self).entry_of(node as int).space }),
                    ..old(self).entry_of(node as int)
                }),
            ),
    {
        let e = self.get_entry(node);
        self.set_entry(node, CacheEntry { space: Space { top: value, ..e.space }, ..e });
    }

    pub fn set_bottom(&mut self, node: usize, value: i64)
        ensures
            LayoutCache::updated(
                *old(self),
                *final(self),
                node as int,
                (CacheEntry {
                    space: (Space { bottom: value, ..old(self).entry_of(node as int).space }),
                    ..old(self).entry_of(node as int)
                }),
            ),
    {
        let e = self.get_entry(node);
        self.set_entry(node, CacheEntry { space: Space { bottom: value, ..e.space }, ..e });
    }

    pub fn set_new_width(&mut self, node: usize, value: i64)
        ensures
            LayoutCache::updated(
                *old(self),
                *final(self),
                node as int,
                (CacheEntry {
                    size: (Size { width: value, ..old(self).entry_of(node as int).size }),
                    ..old(self).entry_of(node as int)
                }),
            ),
    {
        let e = self.get_entry(node);
        self.set_entry(node, CacheEntry { size: Size { width: value, ..e.size }, ..e });
    }

    pub fn set_new_height(&mut self, node: usize, value: i64)
        ensures
            LayoutCache::updated(
                *old(self),
                *final(self),
                node as int,
                (CacheEntry {
                    size: (Size { height: value, ..old(self).entry_of(node as int).size }),
                    ..old(self).entry_of(node as int)
                }),
            ),
    {
        let e = self.get_entry(node);
        self.set_entry(node, CacheEntry { size: Size { height: value, ..e.size }, ..e });
    }

    pub fn set_child_width_max(&mut self, node: usize, value: i64)
        ensures
            LayoutCache::updated(
                *old(self),
                *final(self),
                node as int,
                (CacheEntry { child_width_max: value, ..old(self).entry_of(node as int) }),
            ),
    {
        let e = self.get_entry(node);
        self.set_entry(node, CacheEntry { child_width_max: value, ..e });
    }

    pub fn set_child_width_sum(&mut self, node: usize, value: i64)
        ensures
            LayoutCache::updated(
                *old(self),
                *final(self),
                node as int,
                (CacheEntry { child_width_sum: value, ..old(self).entry_of(node as int) }),
            ),
    {
        let e = self.get_entry(node);
        self.set_entry(node, CacheEntry { child_width_sum: value, ..e });
    }

    pub fn set_child_height_max(&mut self, node: usize, value: i64)
        ensures
            LayoutCache::updated(
                *old(self),
                *final(self),
                node as int,
                (CacheEntry { child_height_max: value, ..old(self).entry_of(node as int) }),
            ),
    {
        let e = self.get_entry(node);
        self.set_entry(node, CacheEntry { child_height_max: value, ..e });
    }

    pub fn set_child_height_sum(&mut self, node: usize, value: i64)
        ensures
            LayoutCache::updated(
                *old(self),
                *final(self),
                node as int,
                (CacheEntry { child_height_sum: value, ..old(self).entry_of(node as int) }),
            ),
    {
        let e = self.get_entry(node);
        self.set_entry(node, CacheEntry { child_height_sum: value, ..e });
    }

    pub fn set_grid_row_max(&mut self, node: usize, value: i64)
        ensures
            LayoutCache::updated(
                *old(self),
                *final(self),
                node as int,
                (CacheEntry { grid_row_max: value, ..old(self).entry_of(node as int) }),
            ),
    {
        let e = self.get_entry(node);
        self.set_entry(node, CacheEntry { grid_row_max: value, ..e });
    }

    pub fn set_grid_col_max(&mut self, node: usize, value: i64)
        ensures
            LayoutCache::updated(
                *old(self),
                *final(self),
                node as int,
                (CacheEntry { grid_col_max: value, ..old(self).entry_of(node as int) }),
            ),
    {
        let e = self.get_entry(node);
        self.set_entry(node, CacheEntry { grid_col_max: value, ..e });
    }

    pub fn set_horizontal_free_space(&mut self, node: usize, value: i64)
        ensures
            LayoutCache::updated(
                *old(self),
                *final(self),
                node as int,
                (CacheEntry { horizontal_free_space: value, ..old(self).entry_of(node as int) }),
            ),
    {
        let e = self.get_entry(node);
        self.set_entry(node, CacheEntry { horizontal_free_space: value, ..e });
    }

    pub fn set_vertical_free_space(&mut self, node: usize, value: i64)
        ensures
            LayoutCache::updated(
                *old(self),
                *final(self),
                node as int,
                (CacheEntry { vertical_free_space: value, ..old(self).entry_of(node as int) }),
            ),
    {
        let e = self.get_entry(node);
        self.set_entry(node, CacheEntry { vertical_free_space: value, ..e });
    }

    pub fn set_horizontal_stretch_sum(&mut self, node: usize, value: i64)
        ensures
            LayoutCache::updated(
                *old(self),
                *final(self),
                node as int,
                (CacheEntry { horizontal_stretch_sum: value, ..old(self).entry_of(node as int) }),
            ),
    {
        let e = self.get_entry(node);
        self.set_entry(node, CacheEntry { horizontal_stretch_sum: value, ..e });
    }

    pub fn set_vertical_stretch_sum(&mut self, node: usize, value: i64)
        ensures
            LayoutCache::updated(
                *old(self),
                *final(self),
                node as int,
                (CacheEntry { vertical_stretch_sum: value, ..old(self).entry_of(node as int) }),
            ),
    {
        let e = self.get_entry(node);
        self.set_entry(node, CacheEntry { vertical_stretch_sum: value, ..e });
    }

    pub fn set_stack_first_child(&mut self, node: usize, value: bool)
        ensures
            LayoutCache::updated(
                *old(self),
                *final(self),
                node as int,
                (CacheEntry { stack_first_child: value, ..old(self).entry_of(node as int) }),
            ),
    {
        let e = self.get_entry(node);
        self.set_entry(node, CacheEntry { stack_first_child: value, ..e });
    }

    pub fn set_stack_last_child(&mut self, node: usize, value: bool)
        ensures
            LayoutCache::updated(
                *old(self),
                *final(self),
                node as int,
                (CacheEntry { stack_last_child: value, ..old(self).entry_of(node as int) }),
            ),
    {
        let e = self.get_entry(node);
        self.set_entry(node, CacheEntry { stack_last_child: value, ..e });
    }
}

} // verus!
