//! Decisions of the frame-sink stage: the pixel format request sent to the
//! loopback device and the number of bytes written per frame.  The device
//! file itself is opened and written outside the library.

use vstd::prelude::*;

verus! {

/// Buffer type of a video output device.
pub const V4L2_BUF_TYPE_VIDEO_OUTPUT: u32 = 2;

/// Progressive field ordering.
pub const V4L2_FIELD_NONE: u32 = 1;

/// A four-character code packed little-endian into one word.
pub open spec fn fourcc_spec(a: u8, b: u8, c: u8, d: u8) -> u32 {
    (a as u32) | ((b as u32) << 8) | ((c as u32) << 16) | ((d as u32) << 24)
}

/// Pack a four-character code.
pub fn fourcc(a: u8, b: u8, c: u8, d: u8) -> (r: u32)
    ensures
        r == fourcc_spec(a, b, c, d),
{
    (a as u32) | ((b as u32) << 8u32) | ((c as u32) << 16u32) | ((d as u32) << 24u32)
}

/// The requested pixel geometry of an RGB24 output format: bytes per line
/// and bytes per image.
pub fn rgb24_geometry(width: u32, height: u32) -> (r: (u32, u32))
    requires
        width <= 16384,
        height <= 16384,
    ensures
        r.0 == width * 3,
        r.1 == width * 3 * height,
{
    proof {
        assert((width as int) * 3 * (height as int) <= 16384int * 3 * 16384int)
            by (nonlinear_arith)
            requires
                width <= 16384,
                height <= 16384,
        ;
    }
    let bytesperline: u32 = width * 3;
    (bytesperline, bytesperline * height)
}

/// How many bytes one frame write hands to the sink: the negotiated frame
/// size, floored by what the negotiated geometry needs.
pub fn negotiated_frame_size(sizeimage: u32, width: u32, height: u32) -> (r: usize)
    requires
        width <= 16384,
        height <= 16384,
    ensures
        r as int == (if sizeimage as int > (width as int) * (height as int) * 3 {
            sizeimage as int
        } else {
            (width as int) * (height as int) * 3
        }),
{
    proof {
        assert((width as int) * (height as int) * 3 <= 16384int * 16384int * 3)
            by (nonlinear_arith)
            requires
                width <= 16384,
                height <= 16384,
        ;
    }
    let base: usize = (width as usize) * (height as usize) * 3;
    if (sizeimage as usize) > base {
        sizeimage as usize
    } else {
        base
    }
}

/// How many bytes of a rendered frame are written: the frame size, capped by
/// what the renderer produced.
pub fn write_length(frame_size: usize, available: usize) -> (r: usize)
    ensures
        r == (if frame_size <= available {
            frame_size as int
        } else {
            available as int
        }),
        r <= available,
{
    if frame_size <= available {
        frame_size
    } else {
        available
    }
}

} // verus!
