//! Choice of the swapchain's parameters.

use vstd::prelude::*;

verus! {

/// Raw number of `VK_FORMAT_B8G8R8A8_SRGB`.
pub const B8G8R8A8_SRGB: i32 = 50;

/// Raw number of `VK_COLOR_SPACE_SRGB_NONLINEAR_KHR`.
pub const SRGB_NONLINEAR: i32 = 0;

/// Raw number of `VK_PRESENT_MODE_MAILBOX_KHR`.
pub const PRESENT_MAILBOX: i32 = 1;

/// Raw number of `VK_PRESENT_MODE_FIFO_KHR`.
pub const PRESENT_FIFO: i32 = 2;

/// A surface format: raw pixel format and colour space.
#[derive(Clone, Copy, Debug, PartialEq, Eq, Structural)]
pub struct SurfaceFormat {
    pub format: i32,
    pub color_space: i32,
}

/// A size in pixels.
#[derive(Clone, Copy, Debug, PartialEq, Eq, Structural)]
pub struct Extent {
    pub width: u32,
    pub height: u32,
}

/// What the surface allows.
#[derive(Clone, Copy, Debug, PartialEq, Eq, Structural)]
pub struct SurfaceCaps {
    pub min_image_count: u32,
    /// Zero if there is no limit.
    pub max_image_count: u32,
    /// A width of `u32::MAX` leaves the extent to the application.
    pub current_extent: Extent,
    pub min_image_extent: Extent,
    pub max_image_extent: Extent,
}

impl SurfaceCaps {
    /// Where the extent is left to the application, its limits are the right way
    /// round.
    pub open spec fn extent_can_be_chosen(&self) -> bool {
        self.current_extent.width == u32::MAX ==> {
            &&& self.min_image_extent.width <= self.max_image_extent.width
            &&& self.min_image_extent.height <= self.max_image_extent.height
        }
    }

    /// There can be one image more than the driver needs.
    pub open spec fn image_can_be_added(&self) -> bool {
        self.min_image_count < u32::MAX
    }
}

/// 8-bit BGRA in sRGB.
pub open spec fn preferred(f: SurfaceFormat) -> bool {
    f.format == B8G8R8A8_SRGB && f.color_space == SRGB_NONLINEAR
}

/// The preferred format if it is offered, else the first one.
pub fn pick_format(formats: &[SurfaceFormat]) -> (picked: SurfaceFormat)
    requires
        formats@.len() > 0,
    ensures
        (exists|i: int| 0 <= i < formats@.len() && preferred(#[trigger] formats@[i])) ==> preferred(
            picked,
        ),
        (forall|i: int| 0 <= i < formats@.len() ==> !preferred(#[trigger] formats@[i])) ==> picked
            == formats@[0],
{
    let mut i: usize = 0;
    while i < formats.len()
        invariant
            i <= formats@.len(),
            forall|j: int| 0 <= j < i ==> !preferred(#[trigger] formats@[j]),
        decreases formats@.len() - i,
    {
        let f: SurfaceFormat = formats[i];
        if f.format == B8G8R8A8_SRGB && f.color_space == SRGB_NONLINEAR {
            return f;
        }
        i += 1;
    }
    formats[0]
}

/// The present mode for the offered ones.
pub open spec fn mode_for(modes: Seq<i32>) -> i32 {
    if modes.contains(PRESENT_MAILBOX) {
        PRESENT_MAILBOX
    } else {
        PRESENT_FIFO
    }
}

/// Mailbox if it is offered, else FIFO, which every driver has.
pub fn pick_present_mode(modes: &[i32]) -> (picked: i32)
    ensures
        picked == mode_for(modes@),
        picked == if modes@.contains(PRESENT_MAILBOX) {
            PRESENT_MAILBOX
        } else {
            PRESENT_FIFO
        },
{
    let mut i: usize = 0;
    while i < modes.len()
        invariant
            i <= modes@.len(),
            forall|j: int| 0 <= j < i ==> #[trigger] modes@[j] != PRESENT_MAILBOX,
        decreases modes@.len() - i,
    {
        if modes[i] == PRESENT_MAILBOX {
            assert(modes@[i as int] == PRESENT_MAILBOX);
            return PRESENT_MAILBOX;
        }
        i += 1;
    }
    PRESENT_FIFO
}

/// `x`, or the nearer of the two limits.
pub open spec fn clamped(x: u32, lo: u32, hi: u32) -> u32 {
    if x < lo {
        lo
    } else if x > hi {
        hi
    } else {
        x
    }
}

fn clamp(x: u32, lo: u32, hi: u32) -> (r: u32)
    ensures
        r == clamped(x, lo, hi),
{
    if x < lo {
        lo
    } else if x > hi {
        hi
    } else {
        x
    }
}

/// The extent of the swapchain for a window of the given size.
pub open spec fn extent_for(caps: SurfaceCaps, width: u32, height: u32) -> Extent {
    if caps.current_extent.width != u32::MAX {
        caps.current_extent
    } else {
        Extent {
            width: clamped(width, caps.min_image_extent.width, caps.max_image_extent.width),
            height: clamped(height, caps.min_image_extent.height, caps.max_image_extent.height),
        }
    }
}

pub fn pick_extent(caps: &SurfaceCaps, req_w: u32, req_h: u32) -> (extent: Extent)
    requires
        caps.extent_can_be_chosen(),
    ensures
        extent == extent_for(*caps, req_w, req_h),
{
    if caps.current_extent.width != u32::MAX {
        return caps.current_extent;
    }
    Extent {
        width: clamp(req_w, caps.min_image_extent.width, caps.max_image_extent.width),
        height: clamp(req_h, caps.min_image_extent.height, caps.max_image_extent.height),
    }
}

/// One image more than the driver needs, within its limit.
pub open spec fn image_count_for(caps: SurfaceCaps) -> u32 {
    if caps.max_image_count > 0 && caps.min_image_count + 1 > caps.max_image_count {
        caps.max_image_count
    } else {
        (caps.min_image_count + 1) as u32
    }
}

pub fn pick_image_count(caps: &SurfaceCaps) -> (count: u32)
    requires
        caps.image_can_be_added(),
    ensures
        count == image_count_for(*caps),
{
    let wanted: u32 = caps.min_image_count + 1;
    if caps.max_image_count > 0 && wanted > caps.max_image_count {
        caps.max_image_count
    } else {
        wanted
    }
}

/// The surface offers no format or no present mode.
#[derive(Clone, Copy, Debug, PartialEq, Eq, Structural)]
pub struct NothingOffered;

/// Parameters of a swapchain.
#[derive(Clone, Copy, Debug, PartialEq, Eq, Structural)]
pub struct SwapchainPlan {
    pub format: SurfaceFormat,
    pub present_mode: i32,
    pub extent: Extent,
    pub image_count: u32,
}

/// Chooses all parameters.
pub fn plan_swapchain(
    caps: &SurfaceCaps,
    formats: &[SurfaceFormat],
    present_modes: &[i32],
    req_w: u32,
    req_h: u32,
) -> (plan: Result<SwapchainPlan, NothingOffered>)
    requires
        formats@.len() > 0 && present_modes@.len() > 0 ==> caps.extent_can_be_chosen()
            && caps.image_can_be_added(),
    ensures
        match plan {
            Err(_) => formats@.len() == 0 || present_modes@.len() == 0,
            Ok(p) => {
                &&& formats@.len() > 0 && present_modes@.len() > 0
                &&& (exists|i: int| 0 <= i < formats@.len() && preferred(#[trigger] formats@[i]))
                    ==> preferred(p.format)
                &&& (forall|i: int|
                    0 <= i < formats@.len() ==> !preferred(#[trigger] formats@[i])) ==> p.format
                    == formats@[0]
                &&& p.present_mode == if present_modes@.contains(PRESENT_MAILBOX) {
                    PRESENT_MAILBOX
                } else {
                    PRESENT_FIFO
                }
                &&& p.present_mode == mode_for(present_modes@)
                &&& p.extent == extent_for(*caps, req_w, req_h)
                &&& p.image_count == image_count_for(*caps)
            },
        },
{
    if formats.len() == 0 || present_modes.len() == 0 {
        return Err(NothingOffered);
    }
    Ok(
        SwapchainPlan {
            format: pick_format(formats),
            present_mode: pick_present_mode(present_modes),
            extent: pick_extent(caps, req_w, req_h),
            image_count: pick_image_count(caps),
        },
    )
}

/// The choices stay within what the surface allows.
pub proof fn law_plan_within_limits(caps: SurfaceCaps, width: u32, height: u32)
    requires
        caps.extent_can_be_chosen(),
        caps.image_can_be_added(),
        caps.max_image_count == 0 || caps.min_image_count <= caps.max_image_count,
    ensures
        caps.min_image_count <= image_count_for(caps),
        caps.max_image_count > 0 ==> image_count_for(caps) <= caps.max_image_count,
        caps.current_extent.width == u32::MAX ==> {
            let e = extent_for(caps, width, height);
            &&& caps.min_image_extent.width <= e.width <= caps.max_image_extent.width
            &&& caps.min_image_extent.height <= e.height <= caps.max_image_extent.height
        },
{
}

/// The extent is what the surface fixes; where it leaves it open, each side is the
/// window's own where the limits allow it, and the limit it runs into where not.
pub proof fn law_window_size_is_kept_within_limits(caps: SurfaceCaps, width: u32, height: u32)
    requires
        caps.extent_can_be_chosen(),
    ensures
        ({
            let e = extent_for(caps, width, height);
            let lo = caps.min_image_extent;
            let hi = caps.max_image_extent;
            &&& caps.current_extent.width < 0xffff_ffff ==> e == caps.current_extent
            &&& caps.current_extent.width == 0xffff_ffff ==> {
                &&& lo.width <= width <= hi.width ==> e.width == width
                &&& lo.height <= height <= hi.height ==> e.height == height
                &&& width < lo.width ==> e.width == lo.width
                &&& height < lo.height ==> e.height == lo.height
                &&& width > hi.width ==> e.width == hi.width
                &&& height > hi.height ==> e.height == hi.height
            }
        }),
{
}

/// One image more than needed, unless that is above the limit; a limit of zero is
/// none.
pub proof fn law_one_image_more_than_needed(caps: SurfaceCaps)
    requires
        caps.image_can_be_added(),
    ensures
        caps.max_image_count == 0 ==> image_count_for(caps) == caps.min_image_count + 1,
        caps.min_image_count < caps.max_image_count ==> image_count_for(caps)
            == caps.min_image_count + 1,
        0 < caps.max_image_count <= caps.min_image_count ==> image_count_for(caps)
            == caps.max_image_count,
{
}

/// The preferred format is number 50 in colour space 0, and no other. Of the
/// present modes, mailbox is number 1 and FIFO number 2.
pub proof fn law_surface_numbers(f: SurfaceFormat)
    ensures
        preferred(f) <==> f.format == 50 && f.color_space == 0,
        PRESENT_MAILBOX == 1,
        PRESENT_FIFO == 2,
{
}

/// Number 1 is taken wherever it is offered, number 2 where it is not; what else is
/// offered, and in which order, does not matter.
pub proof fn law_mailbox_is_preferred(modes: Seq<i32>, other: i32)
    requires
        other != 1,
    ensures
        mode_for(Seq::empty()) == 2,
        mode_for(modes.push(1)) == 1,
        mode_for(modes.push(other)) == mode_for(modes),
{
    assert(modes.push(1).last() == 1);
    if modes.contains(1) {
        let i = choose|i: int| 0 <= i < modes.len() && modes[i] == 1;
        assert(modes.push(other)[i] == 1);
    }
    if modes.push(other).contains(1) {
        let i = choose|i: int| 0 <= i < modes.push(other).len() && modes.push(other)[i] == 1;
        assert(modes[i] == 1);
    }
}

} // verus!
