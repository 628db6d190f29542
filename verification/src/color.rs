use vstd::prelude::*;

verus! {

use crate::fx::{dfloor, fx_sqrt, fx_sqrt_s, SCALE};
use crate::interval::{iv_clamp, Interval, IvV};
use crate::vec3::Vec3;

/// A colour is a vector of three fixed-point channels; the mantissa SCALE
/// stands for full intensity.
pub type Color = Vec3;

/// The largest channel value that quantization admits: the mantissa of
/// 0.999, so that no byte ever reaches 256.
pub const INTENSITY_MAX: i64 = 65470;

/// Gamma correction: the square root of a nonnegative linear channel.
pub open spec fn linear_to_gamma_s(c: int) -> int {
    if c >= 0 {
        fx_sqrt_s(c)
    } else {
        0
    }
}

/// One channel quantized for output: floor(256 * clamp(gamma(c), 0, 0.999)).
pub open spec fn channel_byte_s(c: int) -> int {
    dfloor(
        256 * iv_clamp(
            IvV { min: 0, max: INTENSITY_MAX as int },
            linear_to_gamma_s(c),
        ),
        SCALE as int,
    )
}

impl Color {
    /// Gamma correction of one channel.
    pub fn linear_to_gamma(linear_component: i64) -> (r: i64)
        ensures
            r as int == linear_to_gamma_s(linear_component as int),
    {
        if linear_component >= 0 {
            fx_sqrt(linear_component)
        } else {
            0
        }
    }

    /// The colour quantized to one byte per channel, gamma corrected and
    /// clamped, exactly floor(256 * clamp(sqrt(channel), 0, 0.999)).
    pub fn write_color(&self) -> (r: (u8, u8, u8))
        requires
            -0x4000_0000_0000 <= self@.x <= 0x4000_0000_0000,
            -0x4000_0000_0000 <= self@.y <= 0x4000_0000_0000,
            -0x4000_0000_0000 <= self@.z <= 0x4000_0000_0000,
        ensures
            r.0 as int == channel_byte_s(self@.x),
            r.1 as int == channel_byte_s(self@.y),
            r.2 as int == channel_byte_s(self@.z),
    {
        (
            Color::quantize_channel(self.x),
            Color::quantize_channel(self.y),
            Color::quantize_channel(self.z),
        )
    }

    fn quantize_channel(c: i64) -> (r: u8)
        requires
            -0x4000_0000_0000 <= c as int <= 0x4000_0000_0000,
        ensures
            r as int == channel_byte_s(c as int),
    {
        let g = Color::linear_to_gamma(c);
        let intensity = Interval::new(0, INTENSITY_MAX);
        let clamped = intensity.clamp(g);
        let byte = ((clamped as u64) * 256) / 65536;
        proof {
            assert(dfloor(256 * clamped as int, 65536) == (clamped as int) * 256 / 65536);
            assert((clamped as int) * 256 / 65536 <= 255) by (nonlinear_arith)
                requires
                    0 <= clamped as int <= 65470,
            ;
        }
        byte as u8
    }
}

} // verus!
