//! The moving points of the web.
use vstd::prelude::*;

use crate::grid::Positioned;

verus! {

/// A point of the web: its index in the vertex list, its position in the
/// grid's integer units, and its velocity in those units per second.
#[derive(Debug, Copy, Clone)]
pub struct Point {
    pub index: usize,
    pub x: i32,
    pub y: i32,
    pub vx: i32,
    pub vy: i32,
}

impl Positioned for Point {
    open spec fn spec_x(&self) -> i32 {
        self.x
    }

    open spec fn spec_y(&self) -> i32 {
        self.y
    }

    open spec fn spec_moved(&self, x: i32, y: i32) -> Self {
        Point { x, y, ..*self }
    }

    proof fn lemma_moved(p: Self, x: i32, y: i32) {
    }

    proof fn lemma_moved_twice(p: Self, a: i32, b: i32, x: i32, y: i32) {
    }

    fn x(&self) -> (r: i32) {
        self.x
    }

    fn y(&self) -> (r: i32) {
        self.y
    }

    fn set_x(&mut self, x: i32) {
        self.x = x;
    }

    fn set_y(&mut self, y: i32) {
        self.y = y;
    }
}

} // verus!
