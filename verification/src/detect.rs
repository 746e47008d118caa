//! Camera capability reasoning: which devices are real capture cameras,
//! which are loopback outputs, and what resolutions and rates they offer.
//!
//! The device files are probed outside the library; the decisions here work
//! on the capability records the probe hands over.

use vstd::prelude::*;

use crate::text::str_chars;

verus! {

/// Capability flag: the device captures video.
pub const V4L2_CAP_VIDEO_CAPTURE: u32 = 0x00000001;

/// Capability flag: the device captures video through multiple planes.
pub const V4L2_CAP_VIDEO_CAPTURE_MPLANE: u32 = 0x00001000;

/// Capability flag: the per-device capability word is valid.
pub const V4L2_CAP_DEVICE_CAPS: u32 = 0x80000000;

/// A device's capability record, decoded to plain values.
pub struct Capability {
    /// Driver name, NUL padding already stripped.
    pub driver: Vec<char>,
    /// Human-readable device name.
    pub card: Vec<char>,
    /// Bus path of the device.
    pub bus_info: Vec<char>,
    pub capabilities: u32,
    pub device_caps: u32,
}

/// The driver name of a capability record.
pub fn cap_driver(cap: &Capability) -> (r: &Vec<char>)
    ensures
        r@ == cap.driver@,
{
    &cap.driver
}

/// The bus path of a capability record.
pub fn cap_bus_info(cap: &Capability) -> (r: &Vec<char>)
    ensures
        r@ == cap.bus_info@,
{
    &cap.bus_info
}

/// The capability word that actually applies: the per-device word when the
/// driver marks it valid, the driver-wide word otherwise.
pub open spec fn effective_caps_spec(cap: Capability) -> u32 {
    if cap.capabilities & V4L2_CAP_DEVICE_CAPS != 0 {
        cap.device_caps
    } else {
        cap.capabilities
    }
}

/// The capability word that actually applies.
pub fn effective_caps(cap: &Capability) -> (r: u32)
    ensures
        r == effective_caps_spec(*cap),
{
    if cap.capabilities & V4L2_CAP_DEVICE_CAPS != 0 {
        cap.device_caps
    } else {
        cap.capabilities
    }
}

/// Whether one character sequence occurs inside another.
pub open spec fn contains_seq(hay: Seq<char>, needle: Seq<char>) -> bool {
    exists|i: int|
        0 <= i <= hay.len() - needle.len() && #[trigger] hay.subrange(i, i + needle.len())
            == needle
}

/// Whether one character sequence starts with another.
pub open spec fn starts_with_seq(hay: Seq<char>, needle: Seq<char>) -> bool {
    hay.len() >= needle.len() && hay.subrange(0, needle.len() as int) == needle
}

/// Substring search by scanning every start position.
fn contains_chars(hay: &Vec<char>, needle: &str) -> (r: bool)
    ensures
        r == contains_seq(hay@, needle@),
{
    let nd = str_chars(needle);
    let n = nd.len();
    if n == 0 {
        proof {
            assert(hay@.subrange(0, 0 + needle@.len() as int) =~= needle@);
            assert(contains_seq(hay@, needle@));
        }
        return true;
    }
    let hlen: usize = hay.len();
    if n > hay.len() {
        proof {
            assert(forall|i: int|
                0 <= i <= hay@.len() - needle@.len() ==> (#[trigger] hay@.subrange(
                    i,
                    i + needle@.len(),
                )).len() == needle@.len());
        }
        return false;
    }
    let mut i: usize = 0;
    let last_start: usize = hay.len() - n;
    while i <= last_start
        invariant
            n == nd@.len(),
            nd@ == needle@,
            1 <= n <= hay@.len(),
            hlen == hay@.len(),
            last_start == hay@.len() - n,
            i <= hay@.len() - n + 1,
            forall|j: int|
                0 <= j < i ==> #[trigger] hay@.subrange(j, j + needle@.len()) != needle@,
        decreases hay@.len() - i,
    {
        proof {
            assert(i + n <= hay@.len());
        }
        let mut k: usize = 0;
        let mut all = true;
        while k < n
            invariant
                k <= n,
                n == nd@.len(),
                nd@ == needle@,
                i <= last_start,
                hlen == hay@.len(),
                last_start + n == hay@.len(),
                i + n <= hay@.len(),
                all == (forall|j: int| 0 <= j < k ==> hay@[i + j] == needle@[j]),
            decreases n - k,
        {
            if hay[i + k] != nd[k] {
                proof {
                    assert(!(hay@[i + k] == needle@[k as int]));
                }
                all = false;
                k = n;
            } else {
                k = k + 1;
            }
        }
        if all {
            proof {
                assert(hay@.subrange(i as int, i as int + needle@.len()) =~= needle@);
            }
            return true;
        }
        proof {
            if hay@.subrange(i as int, i as int + needle@.len()) == needle@ {
                assert(forall|j: int|
                    0 <= j < needle@.len() ==> #[trigger] hay@.subrange(
                        i as int,
                        i as int + needle@.len(),
                    )[j] == hay@[i + j]);
                assert(false);
            }
        }
        i = i + 1;
    }
    false
}

/// Prefix test.
fn starts_with_chars(hay: &Vec<char>, needle: &str) -> (r: bool)
    ensures
        r == starts_with_seq(hay@, needle@),
{
    let nd = str_chars(needle);
    let n = nd.len();
    if n > hay.len() {
        return false;
    }
    let mut k: usize = 0;
    while k < n
        invariant
            k <= n,
            n == nd@.len(),
            nd@ == needle@,
            n <= hay@.len(),
            forall|j: int| 0 <= j < k ==> hay@[j] == needle@[j],
        decreases n - k,
    {
        if hay[k] != nd[k] {
            proof {
                if starts_with_seq(hay@, needle@) {
                    assert(hay@.subrange(0, needle@.len() as int)[k as int] == hay@[k as int]);
                }
            }
            return false;
        }
        k = k + 1;
    }
    proof {
        assert(hay@.subrange(0, needle@.len() as int) =~= needle@);
    }
    true
}

/// Whether a capability record belongs to a loopback output device.
pub open spec fn is_loopback_spec(cap: Capability) -> bool {
    contains_seq(cap.driver@, "v4l2 loopback"@) || starts_with_seq(
        cap.bus_info@,
        "platform:v4l2loopback-"@,
    )
}

/// Whether a capability record belongs to a loopback output device.
pub fn is_loopback(cap: &Capability) -> (r: bool)
    ensures
        r == is_loopback_spec(*cap),
{
    contains_chars(&cap.driver, "v4l2 loopback") || starts_with_chars(
        &cap.bus_info,
        "platform:v4l2loopback-",
    )
}

/// Whether a capability record belongs to a capture-capable device.
pub open spec fn is_capture_spec(cap: Capability) -> bool {
    effective_caps_spec(cap) & V4L2_CAP_VIDEO_CAPTURE != 0 || effective_caps_spec(cap)
        & V4L2_CAP_VIDEO_CAPTURE_MPLANE != 0
}

/// Whether a capability record belongs to a capture-capable device.
pub fn is_capture(cap: &Capability) -> (r: bool)
    ensures
        r == is_capture_spec(*cap),
{
    let caps = effective_caps(cap);
    caps & V4L2_CAP_VIDEO_CAPTURE != 0 || caps & V4L2_CAP_VIDEO_CAPTURE_MPLANE != 0
}

/// Whether an indexed device is a real capture camera the pipeline may use:
/// not the configured output device, present, not a loopback, and capable of
/// capture.
pub open spec fn usable_camera(
    probes: Seq<Option<Capability>>,
    output_index: Option<u32>,
    i: int,
) -> bool {
    &&& (match output_index {
        Some(oi) => i != oi,
        None => true,
    })
    &&& probes[i] is Some
    &&& !is_loopback_spec(probes[i].unwrap())
    &&& is_capture_spec(probes[i].unwrap())
}

/// Find the first real capture camera among the probed devices, skipping
/// loopback devices and the configured output device.
pub fn detect_camera(probes: &Vec<Option<Capability>>, output_index: Option<u32>) -> (r: Option<
    u32,
>)
    requires
        probes@.len() <= 0x10000,
    ensures
        match r {
            Some(i) => 0 <= i < probes@.len() && usable_camera(probes@, output_index, i as int)
                && forall|j: int| 0 <= j < i ==> !usable_camera(probes@, output_index, j),
            None => forall|j: int|
                0 <= j < probes@.len() ==> !usable_camera(probes@, output_index, j),
        },
{
    let mut i: usize = 0;
    while i < probes.len()
        invariant
            i <= probes@.len(),
            probes@.len() <= 0x10000,
            forall|j: int| 0 <= j < i ==> !usable_camera(probes@, output_index, j),
        decreases probes@.len() - i,
    {
        let skip: bool = match output_index {
            Some(oi) => (i as u32) == oi,
            None => false,
        };
        if !skip {
            match &probes[i] {
                Some(cap) => {
                    if !is_loopback(cap) && is_capture(cap) {
                        return Some(i as u32);
                    }
                },
                None => {},
            }
        }
        i = i + 1;
    }
    None
}

/// A detected camera: device index plus its human-readable name.
pub struct CameraInfo {
    pub index: u32,
    pub name: String,
}

/// The human-readable name of an indexed device, if it is present.
pub fn device_name(probes: &Vec<Option<Capability>>, index: u32) -> (r: Option<String>)
    requires
        probes@.len() <= 0x10000,
    ensures
        match r {
            Some(name) => (index as int) < probes@.len() && probes@[index as int] is Some && name@
                == probes@[index as int].unwrap().card@,
            None => (index as int) >= probes@.len() || probes@[index as int] is None,
        },
{
    if (index as usize) < probes.len() {
        match &probes[index as usize] {
            Some(cap) => {
                let mut chars: Vec<char> = Vec::new();
                let mut k: usize = 0;
                while k < cap.card.len()
                    invariant
                        k <= cap.card@.len(),
                        chars@ =~= cap.card@.subrange(0, k as int),
                    decreases cap.card@.len() - k,
                {
                    chars.push(cap.card[k]);
                    k = k + 1;
                }
                proof {
                    assert(chars@ =~= cap.card@);
                }
                Some(crate::text::chars_to_string(chars))
            },
            None => None,
        }
    } else {
        None
    }
}

/// List every real capture camera among the probed devices, in index order.
pub fn list_cameras(probes: &Vec<Option<Capability>>, output_index: Option<u32>) -> (r: Vec<
    CameraInfo,
>)
    requires
        probes@.len() <= 0x10000,
    ensures
        forall|k: int|
            0 <= k < r@.len() ==> usable_camera(
                probes@,
                output_index,
                (#[trigger] r@[k]).index as int,
            ),
{
    let mut out: Vec<CameraInfo> = Vec::new();
    let mut i: usize = 0;
    while i < probes.len()
        invariant
            i <= probes@.len(),
            probes@.len() <= 0x10000,
            forall|k: int|
                0 <= k < out@.len() ==> usable_camera(
                    probes@,
                    output_index,
                    (#[trigger] out@[k]).index as int,
                ),
        decreases probes@.len() - i,
    {
        let skip: bool = match output_index {
            Some(oi) => (i as u32) == oi,
            None => false,
        };
        if !skip {
            match &probes[i] {
                Some(cap) => {
                    if !is_loopback(cap) && is_capture(cap) {
                        let name = match device_name(probes, i as u32) {
                            Some(n) => n,
                            None => String::new(),
                        };
                        out.push(CameraInfo { index: i as u32, name });
                    }
                },
                None => {},
            }
        }
        i = i + 1;
    }
    out
}

/// The largest frame rate among a device's discrete intervals: each interval
/// is a numerator and denominator in seconds per frame.
pub fn max_fps_of_intervals(intervals: &Vec<(u32, u32)>) -> (r: Option<u32>)
    ensures
        match r {
            Some(f) => exists|i: int|
                0 <= i < intervals@.len() && (#[trigger] intervals@[i]).0 > 0 && f == intervals@[i].1
                    / intervals@[i].0 && forall|j: int|
                    0 <= j < intervals@.len() && (#[trigger] intervals@[j]).0 > 0 ==> intervals@[j].1
                        / intervals@[j].0 <= f,
            None => forall|i: int| 0 <= i < intervals@.len() ==> (#[trigger] intervals@[i]).0 == 0,
        },
{
    let mut best: Option<u32> = None;
    let mut i: usize = 0;
    while i < intervals.len()
        invariant
            i <= intervals@.len(),
            match best {
                Some(f) => exists|k: int|
                    0 <= k < i && (#[trigger] intervals@[k]).0 > 0 && f == intervals@[k].1
                        / intervals@[k].0 && forall|j: int|
                        0 <= j < i && (#[trigger] intervals@[j]).0 > 0 ==> intervals@[j].1
                            / intervals@[j].0 <= f,
                None => forall|j: int| 0 <= j < i ==> (#[trigger] intervals@[j]).0 == 0,
            },
        decreases intervals@.len() - i,
    {
        let (num, den) = intervals[i];
        if num > 0 {
            let fps = den / num;
            best = match best {
                Some(b) => if fps > b {
                    Some(fps)
                } else {
                    Some(b)
                },
                None => Some(fps),
            };
        }
        i = i + 1;
    }
    best
}

/// Whether a resolution pair occurs in a list.
pub open spec fn has_pair(s: Seq<(u32, u32)>, v: (u32, u32)) -> bool {
    exists|j: int| 0 <= j < s.len() && s[j] == v
}

/// Order resolutions by pixel count, largest first, and drop adjacent
/// duplicates, as the resolution list is presented to the operator.  Every
/// listed resolution comes from the input, and every input resolution is
/// still represented by an equal entry.
pub fn sort_resolutions(res: &Vec<(u32, u32)>) -> (r: Vec<(u32, u32)>)
    ensures
        forall|i: int, j: int|
            0 <= i < j < r@.len() ==> (#[trigger] r@[i]).0 * r@[i].1 >= (#[trigger] r@[j]).0
                * r@[j].1,
        forall|k: int| 0 <= k < r@.len() ==> has_pair(res@, #[trigger] r@[k]),
        forall|j: int| 0 <= j < res@.len() ==> has_pair(r@, #[trigger] res@[j]),
{
    // Selection of the largest remaining pixel count, repeated.
    let mut rest: Vec<(u32, u32)> = Vec::new();
    let mut k: usize = 0;
    while k < res.len()
        invariant
            k <= res@.len(),
            rest@.len() == k,
            rest@ =~= res@.subrange(0, k as int),
        decreases res@.len() - k,
    {
        rest.push(res[k]);
        k = k + 1;
    }
    proof {
        assert(rest@ =~= res@);
        assert forall|b: int| 0 <= b < rest@.len() implies has_pair(
            res@,
            #[trigger] rest@[b],
        ) by {
            assert(res@[b] == rest@[b]);
        };
        assert forall|j: int| 0 <= j < res@.len() implies has_pair(
            rest@,
            #[trigger] res@[j],
        ) by {
            assert(rest@[j] == res@[j]);
        };
    }
    let mut out: Vec<(u32, u32)> = Vec::new();
    while rest.len() > 0
        invariant
            forall|i: int, j: int|
                0 <= i < j < out@.len() ==> (#[trigger] out@[i]).0 * out@[i].1 >= (
                #[trigger] out@[j]).0 * out@[j].1,
            forall|i: int, j: int|
                0 <= i < out@.len() && 0 <= j < rest@.len() ==> (#[trigger] out@[i]).0 * out@[i].1
                    >= (#[trigger] rest@[j]).0 * rest@[j].1,
            forall|a: int| 0 <= a < out@.len() ==> has_pair(res@, #[trigger] out@[a]),
            forall|b: int| 0 <= b < rest@.len() ==> has_pair(res@, #[trigger] rest@[b]),
            forall|j: int|
                0 <= j < res@.len() ==> has_pair(out@, #[trigger] res@[j]) || has_pair(
                    rest@,
                    res@[j],
                ),
        decreases rest@.len(),
    {
        let mut best: usize = 0;
        let mut m: usize = 1;
        while m < rest.len()
            invariant
                rest@.len() > 0,
                best < rest@.len(),
                m <= rest@.len(),
                forall|j: int|
                    0 <= j < m ==> (rest@[best as int].0 as int) * (rest@[best as int].1 as int) >= (
                    #[trigger] rest@[j]).0 * rest@[j].1,
            decreases rest@.len() - m,
        {
            proof {
                assert((rest@[m as int].0 as int) * (rest@[m as int].1 as int) <= 0xffffffffint
                    * 0xffffffffint && (rest@[best as int].0 as int) * (rest@[best as int].1 as int)
                    <= 0xffffffffint * 0xffffffffint) by (nonlinear_arith)
                    requires
                        rest@[m as int].0 <= 0xffffffffu32,
                        rest@[m as int].1 <= 0xffffffffu32,
                        rest@[best as int].0 <= 0xffffffffu32,
                        rest@[best as int].1 <= 0xffffffffu32,
                        0 <= m < rest@.len(),
                        0 <= best < rest@.len(),
                ;
            }
            let pm: u64 = (rest[m].0 as u64) * (rest[m].1 as u64);
            let pb: u64 = (rest[best].0 as u64) * (rest[best].1 as u64);
            if pm > pb {
                best = m;
            }
            m = m + 1;
        }
        let ghost rest_before = rest@;
        let item = rest.remove(best);
        proof {
            assert(forall|j: int|
                0 <= j < rest@.len() ==> (item.0 as int) * (item.1 as int) >= (#[trigger] rest@[j]).0
                    * rest@[j].1);
            // Every surviving entry of the pool was already in the pool, so
            // it still equals an input entry.
            assert forall|b: int| 0 <= b < rest@.len() implies has_pair(
                res@,
                #[trigger] rest@[b],
            ) by {
                if b < best {
                    assert(rest_before[b] == rest@[b]);
                    assert(has_pair(res@, rest_before[b]));
                } else {
                    assert(rest_before[b + 1] == rest@[b]);
                    assert(has_pair(res@, rest_before[b + 1]));
                }
            };
            assert(item == rest_before[best as int]);
            assert(has_pair(res@, item));
        }
        let ghost out_before = out@;
        if out.len() == 0 {
            out.push(item);
        } else {
            let last = out[out.len() - 1];
            if !(last.0 == item.0 && last.1 == item.1) {
                out.push(item);
            } else {
                proof {
                    assert(last == item);
                }
            }
        }
        proof {
            // Every input entry still has an equal representative: the taken
            // entry went to the ordered list (or equals its last element),
            // and the rest of the pool is untouched.
            assert(has_pair(out@, item)) by {
                assert(out@[out@.len() - 1] == item || has_pair(out_before, item));
                if out@[out@.len() - 1] != item {
                    let a0 = choose|a: int| 0 <= a < out_before.len() && out_before[a] == item;
                    assert(out@[a0] == item);
                }
            };
            assert forall|j: int|
                0 <= j < res@.len() implies has_pair(out@, #[trigger] res@[j]) || has_pair(
                rest@,
                res@[j],
            ) by {
                if has_pair(out_before, res@[j]) {
                    let a0 = choose|a: int| 0 <= a < out_before.len() && out_before[a] == res@[j];
                    assert(out@[a0] == res@[j]);
                } else {
                    let b0 = choose|b: int|
                        0 <= b < rest_before.len() && rest_before[b] == #[trigger] res@[j];
                    if b0 == best {
                        assert(res@[j] == item);
                    } else if b0 < best {
                        assert(rest@[b0] == rest_before[b0]);
                    } else {
                        assert(rest@[b0 - 1] == rest_before[b0]);
                    }
                }
            };
        }
    }
    out
}

} // verus!
