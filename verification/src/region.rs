//! Axis-aligned rectangles on the pixel grid and the relations between them.

use vstd::prelude::*;

verus! {

/// An axis-aligned rectangle over the image grid, in pixel units.
#[derive(Debug, Clone, Copy, PartialEq, Eq, Structural)]
pub struct SRegion {
    pub x: u32,
    pub y: u32,
    pub width: u32,
    pub height: u32,
}

impl SRegion {
    /// The first column to the right of the rectangle.
    pub open spec fn right(self) -> int {
        self.x + self.width
    }

    /// The first row below the rectangle.
    pub open spec fn bottom(self) -> int {
        self.y + self.height
    }

    /// Both far edges are representable as 32-bit coordinates.
    pub open spec fn wf(self) -> bool {
        self.right() <= u32::MAX && self.bottom() <= u32::MAX
    }

    /// The rectangle is non-empty and lies inside an image of the given size.
    pub open spec fn within(self, image_width: int, image_height: int) -> bool {
        &&& self.width > 0
        &&& self.height > 0
        &&& self.right() <= image_width
        &&& self.bottom() <= image_height
    }

    /// The two rectangles share at least one pixel-wide strip in both axes.
    pub open spec fn overlaps(self, other: SRegion) -> bool {
        &&& self.x < other.right()
        &&& other.x < self.right()
        &&& self.y < other.bottom()
        &&& other.y < self.bottom()
    }

    /// The two rectangles are not separated by more than `gap` pixels in
    /// either axis.
    pub open spec fn adjacent(self, other: SRegion, gap: int) -> bool {
        &&& self.right() + gap >= other.x
        &&& other.right() + gap >= self.x
        &&& self.bottom() + gap >= other.y
        &&& other.bottom() + gap >= self.y
    }

    /// `other` lies inside `self`, edges included.
    pub open spec fn contains(self, other: SRegion) -> bool {
        &&& self.x <= other.x
        &&& self.y <= other.y
        &&& other.right() <= self.right()
        &&& other.bottom() <= self.bottom()
    }

    /// The smallest rectangle that contains both `self` and `other`.
    pub open spec fn hull(self, other: SRegion) -> SRegion
        recommends
            self.wf(),
            other.wf(),
    {
        let x = if self.x <= other.x { self.x } else { other.x };
        let y = if self.y <= other.y { self.y } else { other.y };
        let x2 = if self.right() >= other.right() { self.right() } else { other.right() };
        let y2 = if self.bottom() >= other.bottom() { self.bottom() } else { other.bottom() };
        SRegion { x, y, width: (x2 - x) as u32, height: (y2 - y) as u32 }
    }

    /// The number of pixels in the rectangle.
    pub open spec fn area(self) -> int {
        self.width * self.height
    }

    /// Whether both far edges fit in 32 bits.
    pub fn is_wf(&self) -> (r: bool)
        ensures
            r == self.wf(),
    {
        let right: u64 = self.x as u64 + self.width as u64;
        let bottom: u64 = self.y as u64 + self.height as u64;
        right <= u32::MAX as u64 && bottom <= u32::MAX as u64
    }

    /// Whether the rectangle is non-empty and inside a `image_width` by
    /// `image_height` image.
    pub fn is_within(&self, image_width: u32, image_height: u32) -> (r: bool)
        ensures
            r == self.within(image_width as int, image_height as int),
    {
        let right: u64 = self.x as u64 + self.width as u64;
        let bottom: u64 = self.y as u64 + self.height as u64;
        self.width > 0 && self.height > 0 && right <= image_width as u64 && bottom
            <= image_height as u64
    }

    /// Whether the two rectangles overlap.
    pub fn regions_overlap(&self, other: &SRegion) -> (r: bool)
        ensures
            r == self.overlaps(*other),
    {
        let a_right: u64 = self.x as u64 + self.width as u64;
        let b_right: u64 = other.x as u64 + other.width as u64;
        let a_bottom: u64 = self.y as u64 + self.height as u64;
        let b_bottom: u64 = other.y as u64 + other.height as u64;
        (self.x as u64) < b_right && (other.x as u64) < a_right && (self.y as u64) < b_bottom && (
        other.y as u64) < a_bottom
    }

    /// Whether the two rectangles are within `gap` pixels of each other in
    /// both axes.
    pub fn regions_adjacent(&self, other: &SRegion, gap: u32) -> (r: bool)
        ensures
            r == self.adjacent(*other, gap as int),
    {
        let a_right: u64 = self.x as u64 + self.width as u64 + gap as u64;
        let b_right: u64 = other.x as u64 + other.width as u64 + gap as u64;
        let a_bottom: u64 = self.y as u64 + self.height as u64 + gap as u64;
        let b_bottom: u64 = other.y as u64 + other.height as u64 + gap as u64;
        a_right >= other.x as u64 && b_right >= self.x as u64 && a_bottom >= other.y as u64
            && b_bottom >= self.y as u64
    }

    /// The bounding box of the two rectangles.
    pub fn merge_two_regions(&self, other: &SRegion) -> (r: SRegion)
        requires
            self.wf(),
            other.wf(),
        ensures
            r == self.hull(*other),
            r.wf(),
            r.contains(*self),
            r.contains(*other),
    {
        let x: u32 = if self.x <= other.x { self.x } else { other.x };
        let y: u32 = if self.y <= other.y { self.y } else { other.y };
        let a_right: u32 = self.x + self.width;
        let b_right: u32 = other.x + other.width;
        let a_bottom: u32 = self.y + self.height;
        let b_bottom: u32 = other.y + other.height;
        let x2: u32 = if a_right >= b_right { a_right } else { b_right };
        let y2: u32 = if a_bottom >= b_bottom { a_bottom } else { b_bottom };
        SRegion { x, y, width: x2 - x, height: y2 - y }
    }

    /// The part of the rectangle that lies inside a `image_width` by
    /// `image_height` image, or `None` when no pixel of it does.
    pub fn clip(&self, image_width: u32, image_height: u32) -> (r: Option<SRegion>)
        ensures
            match r {
                Some(c) => {
                    &&& self.x < image_width
                    &&& self.y < image_height
                    &&& self.width > 0
                    &&& self.height > 0
                    &&& c.x == self.x
                    &&& c.y == self.y
                    &&& c.right() == if self.right() <= image_width { self.right() } else { image_width as int }
                    &&& c.bottom() == if self.bottom() <= image_height { self.bottom() } else { image_height as int }
                    &&& c.within(image_width as int, image_height as int)
                },
                None => self.x >= image_width || self.y >= image_height || self.width == 0
                    || self.height == 0,
            },
    {
        if self.x >= image_width || self.y >= image_height || self.width == 0 || self.height == 0 {
            return None;
        }
        let room_x: u32 = image_width - self.x;
        let room_y: u32 = image_height - self.y;
        let width: u32 = if self.width <= room_x { self.width } else { room_x };
        let height: u32 = if self.height <= room_y { self.height } else { room_y };
        Some(SRegion { x: self.x, y: self.y, width, height })
    }
}

} // verus!
