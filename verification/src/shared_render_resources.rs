//! What the renderers share: the size of the surface and of its depth buffer.

use vstd::prelude::*;

verus! {

/// The surface that a renderer draws to.
#[derive(Debug, Clone, Copy, PartialEq, Eq, Structural)]
pub struct SharedRenderResources {
    pub surface_width: u32,
    pub surface_height: u32,
}

/// A texture cannot be empty: at least one pixel.
pub open spec fn at_least_one(n: u32) -> u32 {
    if n == 0 {
        1
    } else {
        n
    }
}

impl SharedRenderResources {
    /// Resources for a surface of the given size; without a surface, 800 by 600.
    pub fn new(surface: Option<(u32, u32)>) -> (r: SharedRenderResources)
        ensures
            r == (match surface {
                Some((w, h)) => SharedRenderResources { surface_width: w, surface_height: h },
                None => SharedRenderResources { surface_width: 800, surface_height: 600 },
            }),
    {
        match surface {
            Some((w, h)) => SharedRenderResources { surface_width: w, surface_height: h },
            None => SharedRenderResources { surface_width: 800, surface_height: 600 },
        }
    }

    /// Size of the depth texture.
    pub fn depth_extent(&self) -> (e: (u32, u32))
        ensures
            e == (at_least_one(self.surface_width), at_least_one(self.surface_height)),
    {
        let w: u32 = if self.surface_width == 0 {
            1
        } else {
            self.surface_width
        };
        let h: u32 = if self.surface_height == 0 {
            1
        } else {
            self.surface_height
        };
        (w, h)
    }

    /// Take over a new surface size. Tells whether the depth texture has to be made anew.
    pub fn resize(&mut self, width: u32, height: u32) -> (anew: bool)
        ensures
            *final(self) == (SharedRenderResources {
                surface_width: width,
                surface_height: height,
            }),
            anew == (*final(self) != *old(self)),
    {
        if width != self.surface_width || height != self.surface_height {
            self.surface_width = width;
            self.surface_height = height;
            true
        } else {
            false
        }
    }
}

/// A surface side is kept as it is unless it is empty, and is never empty.
pub proof fn law_surface_side(n: u32)
    ensures
        at_least_one(n) >= 1,
        n >= 1 ==> at_least_one(n) == n,
        n == 0 ==> at_least_one(n) == 1,
{
}

} // verus!
