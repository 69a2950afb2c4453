//! Worker-dispatch bookkeeping of the parallel render: a bounded pool of
//! workers pulls tiles from the scheduler; each finished tile either hands
//! its worker the next tile or retires the worker.  The decisions live here,
//! verified; the surrounding program performs the actual spawning, channel
//! traffic and pixel work.

use vstd::prelude::*;
use crate::image_types::ImageIter;
use crate::image_types::Rect;

verus! {

/// Tracks which tile is handed out next and how many workers are in flight.
///
/// Tiles are dispatched exactly once: every call that hands out a tile hands
/// out the tile at the schedule position `dispatched()` and advances that
/// position by one, and the position never moves otherwise.  The number of
/// busy workers never exceeds the budget.
#[derive(Clone, Copy, PartialEq, Eq, Structural, Debug)]
pub struct Dispatcher {
    pub jobs: ImageIter,
    pub active: u32,
    pub budget: u32,
}

impl Dispatcher {
    pub open spec fn wf(self) -> bool {
        &&& self.jobs.wf()
        &&& self.active <= self.budget
    }

    /// How many tiles have been handed to workers so far.
    pub open spec fn dispatched(self) -> int {
        self.jobs.pos()
    }

    /// How many tiles the whole render comprises.
    pub open spec fn total(self) -> int {
        self.jobs.total_tiles()
    }

    /// A dispatcher for a `w * h` image and a pool of at most `budget`
    /// workers.
    pub fn for_render(w: u32, h: u32, budget: u32) -> (d: Dispatcher)
        ensures
            d.wf(),
            d.active == 0,
            d.budget == budget,
            d.dispatched() == 0,
            d.jobs.img_w() == w,
            d.jobs.img_h() == h,
    {
        Dispatcher { jobs: ImageIter::for_image_dimensions(w, h), active: 0, budget }
    }

    /// Starts one more worker on the next tile, if a tile is left.  Called
    /// while filling the pool at the start of a render.
    pub fn launch(&mut self) -> (r: Option<Rect>)
        requires
            old(self).wf(),
            old(self).active < old(self).budget,
        ensures
            final(self).wf(),
            final(self).budget == old(self).budget,
            final(self).jobs.same_grid(old(self).jobs),
            old(self).dispatched() < old(self).total() ==> {
                &&& r == Some(old(self).jobs.tile_at(old(self).dispatched()))
                &&& final(self).dispatched() == old(self).dispatched() + 1
                &&& final(self).active == old(self).active + 1
            },
            old(self).dispatched() >= old(self).total() ==> {
                &&& r is None
                &&& final(self).dispatched() == old(self).dispatched()
                &&& final(self).active == old(self).active
            },
    {
        match self.jobs.next() {
            Some(rect) => {
                self.active = self.active + 1;
                Some(rect)
            },
            None => None,
        }
    }

    /// A worker reported a finished tile: hand it the next tile, or retire
    /// it if none is left.
    pub fn collect(&mut self) -> (r: Option<Rect>)
        requires
            old(self).wf(),
            old(self).active > 0,
        ensures
            final(self).wf(),
            final(self).budget == old(self).budget,
            final(self).jobs.same_grid(old(self).jobs),
            old(self).dispatched() < old(self).total() ==> {
                &&& r == Some(old(self).jobs.tile_at(old(self).dispatched()))
                &&& final(self).dispatched() == old(self).dispatched() + 1
                &&& final(self).active == old(self).active
            },
            old(self).dispatched() >= old(self).total() ==> {
                &&& r is None
                &&& final(self).dispatched() == old(self).dispatched()
                &&& final(self).active == old(self).active - 1
            },
    {
        match self.jobs.next() {
            Some(rect) => Some(rect),
            None => {
                self.active = self.active - 1;
                None
            },
        }
    }

    /// The render is complete once no worker is in flight any more.
    pub fn finished(&self) -> (r: bool)
        ensures
            r == (self.active == 0),
    {
        self.active == 0
    }
}

} // verus!
