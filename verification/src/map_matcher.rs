//! The plaque with the name of the map.
use crate::double;
use crate::double::Double;
use crate::geometry;
use crate::geometry::Rect;
use vstd::prelude::*;

verus! {

/// Borders of the plaque, as shares of the frame.
#[derive(Clone, Copy, Debug)]
pub struct MapReaderConfig {
    pub roi_left_frac: Double,
    pub roi_top_frac: Double,
    pub roi_right_frac: Double,
    pub roi_bottom_frac: Double,
}

impl MapReaderConfig {
    /// The calibration that is used where nothing else is configured.
    pub open spec fn is_default(self) -> bool {
        &&& self.roi_left_frac@ == double::thousandths_units(760)
        &&& self.roi_top_frac@ == double::thousandths_units(20)
        &&& self.roi_right_frac@ == double::thousandths_units(990)
        &&& self.roi_bottom_frac@ == double::thousandths_units(85)
    }
}

impl Default for MapReaderConfig {
    fn default() -> (r: MapReaderConfig)
        ensures
            r.is_default(),
    {
        MapReaderConfig {
            roi_left_frac: Double::thousandths(760),
            roi_top_frac: Double::thousandths(20),
            roi_right_frac: Double::thousandths(990),
            roi_bottom_frac: Double::thousandths(85),
        }
    }
}

/// The plaque of a frame.
pub fn compute_roi_rect(frame_w: i32, frame_h: i32, cfg: &MapReaderConfig) -> (r: Rect)
    ensures
        geometry::is_region(
            r,
            frame_w as int,
            frame_h as int,
            cfg.roi_left_frac@,
            cfg.roi_top_frac@,
            cfg.roi_right_frac@,
            cfg.roi_bottom_frac@,
        ),
{
    geometry::region(
        frame_w,
        frame_h,
        &cfg.roi_left_frac,
        &cfg.roi_top_frac,
        &cfg.roi_right_frac,
        &cfg.roi_bottom_frac,
    )
}

/// The plaque is usually between 760 and 990 thousandths of the width and between 20 and
/// 85 of the height.
pub proof fn law_the_plaque_is_in_the_upper_right_corner(r: Rect, frame_w: int, frame_h: int, cfg: MapReaderConfig)
    requires
        cfg.is_default(),
        geometry::is_region(
            r,
            frame_w,
            frame_h,
            cfg.roi_left_frac@,
            cfg.roi_top_frac@,
            cfg.roi_right_frac@,
            cfg.roi_bottom_frac@,
        ),
        0 <= frame_w <= i32::MAX,
        0 <= frame_h <= i32::MAX,
    ensures
        geometry::is_between_thousandths(r, frame_w, frame_h, 760, 20, 990, 85),
{
    geometry::law_regions_lie_between_thousandths(r, frame_w, frame_h, 760, 20, 990, 85);
}

} // verus!
