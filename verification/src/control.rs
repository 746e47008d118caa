//! Operator command semantics: the capture and render commands, the runtime
//! state report, and the `SET key=value` batch protocol.  Socket transport
//! and channel plumbing live outside the library.

use vstd::prelude::*;

use crate::config::{
    copy_range, find_first, first_idx, hex_color, parse_hex_color, parse_resolution,
    resolution_parts, theme_colors, trim_chars, trim_spec, BrightnessCurve, ColorTheme, Rgb,
};
use crate::text::{
    ascii_lower, ascii_upper, chars_to_string, dec_digits, digits_val, hex_byte, is_dec_digit,
    parse_u32_chars, str_chars, u32_to_string,
};
use vstd::string::StringExecFns;
use vstd::string::StrSliceExecFns;

verus! {

/// A command for the capture stage.
pub enum CaptureAction {
    ChangeCamera { index: u32, resolution: Option<(u32, u32)> },
    ChangeFps { fps: u32 },
}

/// A command for the render stage.
pub enum RenderAction {
    Rebuild {
        charset: Vec<char>,
        ascii_columns: u32,
        fg: Rgb,
        bg: Rgb,
        brightness_curve: BrightnessCurve,
        invert: bool,
        theme_name: String,
    },
}

/// The live settings the control protocol reports and mutates.
pub struct RuntimeState {
    pub camera_index: u32,
    pub resolution: Option<(u32, u32)>,
    pub fps: u32,
    pub max_fps: u32,
    pub theme_name: String,
    pub fg: Rgb,
    pub bg: Rgb,
    pub definition: u8,
    pub brightness_curve: BrightnessCurve,
    pub invert: bool,
}

/// The canonical name of a curve, as a character sequence.
pub open spec fn curve_name_seq(c: BrightnessCurve) -> Seq<char> {
    match c {
        BrightnessCurve::Linear => "linear"@,
        BrightnessCurve::Exponential => "exponential"@,
        BrightnessCurve::Sigmoid => "sigmoid"@,
    }
}

/// The six hexadecimal digits of a color.
pub open spec fn hex6(c: Rgb) -> Seq<char> {
    hex_byte(c.r) + hex_byte(c.g) + hex_byte(c.b)
}

/// The exact status report: one `key=value` line per setting, closed by an
/// `END` line.
pub open spec fn status_spec(s: RuntimeState) -> Seq<char> {
    "camera_index="@ + dec_digits(s.camera_index as nat) + "\n"@ + (match s.resolution {
        Some(wh) => "resolution="@ + dec_digits(wh.0 as nat) + "x"@ + dec_digits(wh.1 as nat)
            + "\n"@,
        None => "resolution=auto\n"@,
    }) + "fps="@ + dec_digits(s.fps as nat) + "\n"@ + "theme="@ + s.theme_name@ + "\n"@
        + "fg_color="@ + hex6(s.fg) + "\n"@ + "bg_color="@ + hex6(s.bg) + "\n"@ + "definition="@
        + dec_digits(s.definition as nat) + "\n"@ + "brightness_curve="@ + curve_name_seq(
        s.brightness_curve,
    ) + "\n"@ + "invert="@ + (if s.invert {
        "true"@
    } else {
        "false"@
    }) + "\n"@ + "END\n"@
}

impl RuntimeState {
    /// Render the status report.
    #[verifier::rlimit(100)]
    pub fn format_status(&self) -> (r: String)
        ensures
            r@ == status_spec(*self),
    {
        let mut out = String::new();
        out.append("camera_index=");
        out.append(u32_to_string(self.camera_index).as_str());
        out.append("\n");
        match self.resolution {
            Some((w, h)) => {
                out.append("resolution=");
                out.append(u32_to_string(w).as_str());
                out.append("x");
                out.append(u32_to_string(h).as_str());
                out.append("\n");
            },
            None => {
                out.append("resolution=auto\n");
            },
        }
        out.append("fps=");
        out.append(u32_to_string(self.fps).as_str());
        out.append("\n");
        out.append("theme=");
        out.append(self.theme_name.as_str());
        out.append("\n");
        out.append("fg_color=");
        out.append(self.fg.to_hex().as_str());
        out.append("\n");
        out.append("bg_color=");
        out.append(self.bg.to_hex().as_str());
        out.append("\n");
        out.append("definition=");
        out.append(u32_to_string(self.definition as u32).as_str());
        out.append("\n");
        out.append("brightness_curve=");
        out.append(self.brightness_curve.name());
        out.append("\n");
        out.append("invert=");
        if self.invert {
            out.append("true");
        } else {
            out.append("false");
        }
        out.append("\n");
        out.append("END\n");
        out
    }
}

/// Pending capture-side settings parsed out of one command batch.
pub struct CaptureChanges {
    pub camera_index: Option<u32>,
    pub resolution: Option<Option<(u32, u32)>>,
    pub fps: Option<u32>,
}

impl CaptureChanges {
    /// A batch with nothing for the capture stage.
    pub fn empty() -> (r: CaptureChanges)
        ensures
            r.camera_index is None,
            r.resolution is None,
            r.fps is None,
    {
        CaptureChanges { camera_index: None, resolution: None, fps: None }
    }

    /// Whether anything of the capture stage changed.
    pub fn has_changes(&self) -> (r: bool)
        ensures
            r == (self.camera_index is Some || self.resolution is Some || self.fps is Some),
    {
        self.camera_index.is_some() || self.resolution.is_some() || self.fps.is_some()
    }
}

/// Pending render-side settings parsed out of one command batch.
pub struct RenderChanges {
    pub theme_name: Option<String>,
    pub fg: Option<Rgb>,
    pub bg: Option<Rgb>,
    pub definition: Option<u8>,
    pub brightness_curve: Option<BrightnessCurve>,
    pub invert: Option<bool>,
}

impl RenderChanges {
    /// A batch with nothing for the render stage.
    pub fn empty() -> (r: RenderChanges)
        ensures
            r.theme_name is None,
            r.fg is None,
            r.bg is None,
            r.definition is None,
            r.brightness_curve is None,
            r.invert is None,
    {
        RenderChanges {
            theme_name: None,
            fg: None,
            bg: None,
            definition: None,
            brightness_curve: None,
            invert: None,
        }
    }

    /// Whether anything of the render stage changed.
    pub fn has_changes(&self) -> (r: bool)
        ensures
            r == (self.theme_name is Some || self.fg is Some || self.bg is Some || self.definition
                is Some || self.brightness_curve is Some || self.invert is Some),
    {
        self.theme_name.is_some() || self.fg.is_some() || self.bg.is_some()
            || self.definition.is_some() || self.brightness_curve.is_some()
            || self.invert.is_some()
    }
}

/// ASCII-lowercase a character vector.
fn to_lower_chars(v: &Vec<char>) -> (r: Vec<char>)
    ensures
        r@ == v@.map_values(|c: char| crate::text::ascii_lower(c)),
{
    let mut r: Vec<char> = Vec::new();
    let mut i: usize = 0;
    while i < v.len()
        invariant
            i <= v@.len(),
            r@.len() == i,
            forall|j: int| 0 <= j < i ==> r@[j] == crate::text::ascii_lower(v@[j]),
        decreases v@.len() - i,
    {
        let c = v[i];
        if 'A' <= c && c <= 'Z' {
            r.push((((c as u8) + 32) as char));
        } else {
            r.push(c);
        }
        i = i + 1;
    }
    proof {
        assert(r@ =~= v@.map_values(|c: char| crate::text::ascii_lower(c)));
    }
    r
}

/// The key and value a well-formed `SET key=value` line carries: the prefix
/// `SET ` matched ASCII-case-insensitively, the payload split at its first
/// equals sign, the key lowercased, both sides trimmed.
pub open spec fn set_line_parts(cmd: Seq<char>) -> Option<(Seq<char>, Seq<char>)> {
    if cmd.len() < 4 {
        None
    } else if cmd.subrange(0, 4).map_values(|c: char| ascii_upper(c)) != "SET "@ {
        None
    } else {
        let payload = trim_spec(cmd.subrange(4, cmd.len() as int));
        let e = first_idx(payload, '=');
        if e == payload.len() {
            None
        } else {
            Some(
                (
                    trim_spec(payload.subrange(0, e)).map_values(|c: char| ascii_lower(c)),
                    trim_spec(payload.subrange(e + 1, payload.len() as int)),
                ),
            )
        }
    }
}

/// Whether a run of characters is a decimal number that fits in 32 bits.
pub open spec fn is_u32_digits(v: Seq<char>) -> bool {
    v.len() > 0 && (forall|j: int| 0 <= j < v.len() ==> is_dec_digit(#[trigger] v[j]))
        && digits_val(v) <= u32::MAX
}

/// Whether a resolution value parses: it splits on `x`, both sides start
/// with digits that fit, and neither is zero.
pub open spec fn resolution_value_ok(v: Seq<char>) -> bool {
    resolution_parts(v) is Some && {
        let (wd, hd) = resolution_parts(v).unwrap();
        wd.len() > 0 && hd.len() > 0 && digits_val(wd) <= u32::MAX && digits_val(hd) <= u32::MAX
            && digits_val(wd) > 0 && digits_val(hd) > 0
    }
}

/// The curve a valid curve name denotes.
pub open spec fn curve_of(v: Seq<char>) -> BrightnessCurve {
    if v == "linear"@ {
        BrightnessCurve::Linear
    } else if v == "sigmoid"@ {
        BrightnessCurve::Sigmoid
    } else {
        BrightnessCurve::Exponential
    }
}

/// The recognized setting keys of the control protocol.
pub enum SettingKey {
    CameraIndex,
    Resolution,
    Fps,
    Theme,
    FgColor,
    BgColor,
    Definition,
    Curve,
    Invert,
    Unknown,
}

/// Which setting a lowercased key names.
pub open spec fn key_kind_spec(key: Seq<char>) -> SettingKey {
    if key == "camera_index"@ {
        SettingKey::CameraIndex
    } else if key == "resolution"@ {
        SettingKey::Resolution
    } else if key == "fps"@ {
        SettingKey::Fps
    } else if key == "theme"@ {
        SettingKey::Theme
    } else if key == "fg_color"@ {
        SettingKey::FgColor
    } else if key == "bg_color"@ {
        SettingKey::BgColor
    } else if key == "definition"@ {
        SettingKey::Definition
    } else if key == "brightness_curve"@ {
        SettingKey::Curve
    } else if key == "invert"@ {
        SettingKey::Invert
    } else {
        SettingKey::Unknown
    }
}

/// Whether a value is acceptable for a setting key.
pub open spec fn setting_valid(kind: SettingKey, value: Seq<char>, max_fps: u32) -> bool {
    match kind {
        SettingKey::CameraIndex => is_u32_digits(value),
        SettingKey::Resolution => resolution_value_ok(value),
        SettingKey::Fps => is_u32_digits(value) && 1 <= digits_val(value) <= max_fps,
        SettingKey::Theme => theme_colors(value) is Some,
        SettingKey::FgColor => hex_color(value) is Some,
        SettingKey::BgColor => hex_color(value) is Some,
        SettingKey::Definition => is_u32_digits(value) && 1 <= digits_val(value) <= 10,
        SettingKey::Curve => value == "linear"@ || value == "exponential"@ || value == "exp"@
            || value == "sigmoid"@,
        SettingKey::Invert => value == "true"@ || value == "false"@,
        SettingKey::Unknown => false,
    }
}

/// What a successfully routed setting does to the pending change sets: it
/// fills exactly its own field (three for a theme) and touches nothing else.
pub open spec fn setting_applied(
    kind: SettingKey,
    value: Seq<char>,
    oc: CaptureChanges,
    orn: RenderChanges,
    nc: CaptureChanges,
    nr: RenderChanges,
) -> bool {
    match kind {
        SettingKey::CameraIndex => nc.camera_index == Some(digits_val(value) as u32)
            && nc.resolution == oc.resolution && nc.fps == oc.fps && nr == orn,
        SettingKey::Resolution => nc.resolution == Some(
            Some(
                (
                    digits_val(resolution_parts(value).unwrap().0) as u32,
                    digits_val(resolution_parts(value).unwrap().1) as u32,
                ),
            ),
        ) && nc.camera_index == oc.camera_index && nc.fps == oc.fps && nr == orn,
        SettingKey::Fps => nc.fps == Some(digits_val(value) as u32) && nc.camera_index
            == oc.camera_index && nc.resolution == oc.resolution && nr == orn,
        SettingKey::Theme => nr.theme_name is Some && nr.theme_name.unwrap()@ == value && nr.fg
            == Some(theme_colors(value).unwrap().0) && nr.bg == Some(theme_colors(value).unwrap().1)
            && nr.definition == orn.definition && nr.brightness_curve == orn.brightness_curve
            && nr.invert == orn.invert && nc == oc,
        SettingKey::FgColor => nr.fg == Some(hex_color(value).unwrap()) && nr.theme_name
            == orn.theme_name && nr.bg == orn.bg && nr.definition == orn.definition
            && nr.brightness_curve == orn.brightness_curve && nr.invert == orn.invert && nc == oc,
        SettingKey::BgColor => nr.bg == Some(hex_color(value).unwrap()) && nr.theme_name
            == orn.theme_name && nr.fg == orn.fg && nr.definition == orn.definition
            && nr.brightness_curve == orn.brightness_curve && nr.invert == orn.invert && nc == oc,
        SettingKey::Definition => nr.definition == Some(digits_val(value) as u8) && nr.theme_name
            == orn.theme_name && nr.fg == orn.fg && nr.bg == orn.bg && nr.brightness_curve
            == orn.brightness_curve && nr.invert == orn.invert && nc == oc,
        SettingKey::Curve => nr.brightness_curve == Some(curve_of(value)) && nr.theme_name
            == orn.theme_name && nr.fg == orn.fg && nr.bg == orn.bg && nr.definition
            == orn.definition && nr.invert == orn.invert && nc == oc,
        SettingKey::Invert => nr.invert == Some(value == "true"@) && nr.theme_name
            == orn.theme_name && nr.fg == orn.fg && nr.bg == orn.bg && nr.definition
            == orn.definition && nr.brightness_curve == orn.brightness_curve && nc == oc,
        SettingKey::Unknown => false,
    }
}

/// Recognize a lowercased, trimmed setting key.
pub fn parse_key(key: &Vec<char>) -> (r: SettingKey)
    ensures
        r == key_kind_spec(key@),
{
    if crate::text::chars_eq_str(key, "camera_index") {
        SettingKey::CameraIndex
    } else if crate::text::chars_eq_str(key, "resolution") {
        SettingKey::Resolution
    } else if crate::text::chars_eq_str(key, "fps") {
        SettingKey::Fps
    } else if crate::text::chars_eq_str(key, "theme") {
        SettingKey::Theme
    } else if crate::text::chars_eq_str(key, "fg_color") {
        SettingKey::FgColor
    } else if crate::text::chars_eq_str(key, "bg_color") {
        SettingKey::BgColor
    } else if crate::text::chars_eq_str(key, "definition") {
        SettingKey::Definition
    } else if crate::text::chars_eq_str(key, "brightness_curve") {
        SettingKey::Curve
    } else if crate::text::chars_eq_str(key, "invert") {
        SettingKey::Invert
    } else {
        SettingKey::Unknown
    }
}

/// Route one recognized setting into the pending change sets.
///
/// Returns the error line for a bad key or value; an erroneous setting
/// leaves both change sets untouched.
#[verifier::rlimit(100)]
pub fn apply_setting(
    kind: SettingKey,
    value: &Vec<char>,
    max_fps: u32,
    cap: &mut CaptureChanges,
    ren: &mut RenderChanges,
) -> (err: Option<String>)
    ensures
        err is Some ==> *final(cap) == *old(cap) && *final(ren) == *old(ren),
        (err is None) == setting_valid(kind, value@, max_fps),
        err is None ==> setting_applied(
            kind,
            value@,
            *old(cap),
            *old(ren),
            *final(cap),
            *final(ren),
        ),
        kind is Theme && err is Some ==> err.unwrap()@ == "ERR unknown theme '"@ + value@
            + "'. Available: mono, green, amber, blue, matrix, vaporwave, fire, color\n"@,
{
    match kind {
        SettingKey::CameraIndex => {
            match parse_u32_chars(value) {
                Some(i) => {
                    cap.camera_index = Some(i);
                    None
                },
                None => {
                    let mut m = String::new();
                    m.append("ERR invalid camera_index: ");
                    m.append(chars_to_string(copy_all(value)).as_str());
                    m.append("\n");
                    Some(m)
                },
            }
        },
        SettingKey::Resolution => {
            let vs = chars_to_string(copy_all(value));
            match parse_resolution(vs.as_str()) {
                Ok(res) => {
                    cap.resolution = Some(Some(res));
                    None
                },
                Err(e) => {
                    let mut m = String::new();
                    m.append("ERR ");
                    m.append(e.as_str());
                    m.append("\n");
                    Some(m)
                },
            }
        },
        SettingKey::Fps => {
            match parse_u32_chars(value) {
                Some(f) => {
                    if 1 <= f && f <= max_fps {
                        cap.fps = Some(f);
                        None
                    } else {
                        let mut m = String::new();
                        m.append("ERR invalid fps: ");
                        m.append(chars_to_string(copy_all(value)).as_str());
                        m.append(" (must be 1-");
                        m.append(u32_to_string(max_fps).as_str());
                        m.append(")\n");
                        Some(m)
                    }
                },
                None => {
                    let mut m = String::new();
                    m.append("ERR invalid fps: ");
                    m.append(chars_to_string(copy_all(value)).as_str());
                    m.append(" (must be 1-");
                    m.append(u32_to_string(max_fps).as_str());
                    m.append(")\n");
                    Some(m)
                },
            }
        },
        SettingKey::Theme => {
            let vs = chars_to_string(copy_all(value));
            match ColorTheme::from_name(vs.as_str()) {
                Some(t) => {
                    ren.theme_name = Some(t.name);
                    ren.fg = Some(t.fg);
                    ren.bg = Some(t.bg);
                    None
                },
                None => {
                    let mut m = String::new();
                    m.append("ERR unknown theme '");
                    m.append(vs.as_str());
                    m.append(
                        "'. Available: mono, green, amber, blue, matrix, vaporwave, fire, color\n",
                    );
                    Some(m)
                },
            }
        },
        SettingKey::FgColor => {
            let vs = chars_to_string(copy_all(value));
            match parse_hex_color(vs.as_str()) {
                Some(c) => {
                    ren.fg = Some(c);
                    None
                },
                None => {
                    let mut m = String::new();
                    m.append("ERR invalid fg_color '");
                    m.append(vs.as_str());
                    m.append("'. Use 6-digit hex (e.g. ff00ff)\n");
                    Some(m)
                },
            }
        },
        SettingKey::BgColor => {
            let vs = chars_to_string(copy_all(value));
            match parse_hex_color(vs.as_str()) {
                Some(c) => {
                    ren.bg = Some(c);
                    None
                },
                None => {
                    let mut m = String::new();
                    m.append("ERR invalid bg_color '");
                    m.append(vs.as_str());
                    m.append("'. Use 6-digit hex (e.g. 001100)\n");
                    Some(m)
                },
            }
        },
        SettingKey::Definition => {
            match parse_u32_chars(value) {
                Some(d) => {
                    if 1 <= d && d <= 10 {
                        ren.definition = Some(d as u8);
                        None
                    } else {
                        let mut m = String::new();
                        m.append("ERR invalid definition: ");
                        m.append(chars_to_string(copy_all(value)).as_str());
                        m.append(" (must be 1-10)\n");
                        Some(m)
                    }
                },
                None => {
                    let mut m = String::new();
                    m.append("ERR invalid definition: ");
                    m.append(chars_to_string(copy_all(value)).as_str());
                    m.append(" (must be 1-10)\n");
                    Some(m)
                },
            }
        },
        SettingKey::Curve => {
            let vs = chars_to_string(copy_all(value));
            match BrightnessCurve::from_name(vs.as_str()) {
                Some(c) => {
                    proof {
                        reveal_strlit("linear");
                        reveal_strlit("exponential");
                        reveal_strlit("exp");
                        reveal_strlit("sigmoid");
                    }
                    ren.brightness_curve = Some(c);
                    None
                },
                None => {
                    let mut m = String::new();
                    m.append("ERR unknown brightness_curve '");
                    m.append(vs.as_str());
                    m.append("'. Available: linear, exponential, sigmoid\n");
                    Some(m)
                },
            }
        },
        SettingKey::Invert => {
            proof {
                reveal_strlit("true");
                reveal_strlit("false");
            }
            if crate::text::chars_eq_str(value, "true") {
                ren.invert = Some(true);
                None
            } else if crate::text::chars_eq_str(value, "false") {
                ren.invert = Some(false);
                None
            } else {
                let mut m = String::new();
                m.append("ERR invalid invert: ");
                m.append(chars_to_string(copy_all(value)).as_str());
                m.append(" (must be true or false)\n");
                Some(m)
            }
        },
        SettingKey::Unknown => {
            let mut m = String::new();
            m.append("ERR unknown key\n");
            Some(m)
        },
    }
}

/// Copy a whole character vector.
fn copy_all(v: &Vec<char>) -> (r: Vec<char>)
    ensures
        r@ == v@,
{
    let n = v.len();
    let r = copy_range(v, 0, n);
    proof {
        assert(v@.subrange(0, v@.len() as int) =~= v@);
    }
    r
}

/// Whether a batch asks for the status report: some line equals `STATUS`,
/// ASCII case ignored.
pub fn batch_is_status(commands: &Vec<String>) -> (r: bool)
    ensures
        r == exists|i: int|
            0 <= i < commands@.len() && (#[trigger] commands@[i])@.map_values(
                |c: char| ascii_upper(c),
            ) == "STATUS"@,
{
    let mut i: usize = 0;
    while i < commands.len()
        invariant
            i <= commands@.len(),
            forall|j: int|
                0 <= j < i ==> (#[trigger] commands@[j])@.map_values(|c: char| ascii_upper(c))
                    != "STATUS"@,
        decreases commands@.len() - i,
    {
        let chars = str_chars(commands[i].as_str());
        if crate::text::eq_ignore_ascii_upper(&chars, "STATUS") {
            return true;
        }
        i = i + 1;
    }
    false
}

/// Whether a command line is accepted: a well-formed `SET` line with a known
/// key and a valid value.
pub open spec fn line_ok(cmd: Seq<char>, max_fps: u32) -> bool {
    set_line_parts(cmd) is Some && setting_valid(
        key_kind_spec(set_line_parts(cmd).unwrap().0),
        set_line_parts(cmd).unwrap().1,
        max_fps,
    )
}

/// How many lines of a batch are rejected.
pub open spec fn error_count(cmds: Seq<String>, max_fps: u32) -> int
    decreases cmds.len(),
{
    if cmds.len() == 0 {
        0
    } else {
        error_count(cmds.drop_last(), max_fps) + (if line_ok(cmds.last()@, max_fps) {
            0int
        } else {
            1int
        })
    }
}

/// Parse one command line of a batch: a `SET key=value` form routed into the
/// change sets, anything else an error line.  An erroneous line changes
/// nothing and yields exactly one error line.
pub fn process_command_line(
    cmd: &Vec<char>,
    max_fps: u32,
    cap: &mut CaptureChanges,
    ren: &mut RenderChanges,
) -> (err: Option<String>)
    ensures
        err is Some ==> *final(cap) == *old(cap) && *final(ren) == *old(ren),
        (err is None) == line_ok(cmd@, max_fps),
        err is None ==> setting_applied(
            key_kind_spec(set_line_parts(cmd@).unwrap().0),
            set_line_parts(cmd@).unwrap().1,
            *old(cap),
            *old(ren),
            *final(cap),
            *final(ren),
        ),
{
    // The keyword test is ASCII-case-insensitive, as `to_uppercase` makes it.
    if cmd.len() < 4 {
        let mut m = String::new();
        m.append("ERR unknown command: ");
        m.append(chars_to_string(copy_all(cmd)).as_str());
        m.append("\n");
        return Some(m);
    }
    let head = copy_range(cmd, 0, 4);
    if !crate::text::eq_ignore_ascii_upper(&head, "SET ") {
        let mut m = String::new();
        m.append("ERR unknown command: ");
        m.append(chars_to_string(copy_all(cmd)).as_str());
        m.append("\n");
        return Some(m);
    }
    let n = cmd.len();
    let payload = trim_chars(&copy_range(cmd, 4, n));
    // Split at the first equals sign.
    let eq: usize = match find_first(&payload, '=') {
        Some(e) => e,
        None => {
            let mut m = String::new();
            m.append("ERR invalid format: ");
            m.append(chars_to_string(copy_all(&payload)).as_str());
            m.append("\n");
            return Some(m);
        },
    };
    let pn = payload.len();
    let key_raw = copy_range(&payload, 0, eq);
    let val_raw = copy_range(&payload, eq + 1, pn);
    let key = to_lower_chars(&trim_chars(&key_raw));
    let value = trim_chars(&val_raw);
    proof {
        assert(set_line_parts(cmd@) == Some((key@, value@)));
    }
    let kind = parse_key(&key);
    match kind {
        SettingKey::Unknown => {
            let mut m = String::new();
            m.append("ERR unknown key: ");
            m.append(chars_to_string(copy_all(&key)).as_str());
            m.append("\n");
            Some(m)
        },
        _ => apply_setting(kind, &value, max_fps, cap, ren),
    }
}

/// Process a whole command batch: route every `SET` line into the pending
/// change sets and collect one error line per bad line, without aborting the
/// remaining lines.
pub fn process_command_batch(commands: &Vec<String>, max_fps: u32) -> (r: (
    Vec<String>,
    CaptureChanges,
    RenderChanges,
))
    ensures
        r.0@.len() == error_count(commands@, max_fps),
        (forall|i: int| 0 <= i < commands@.len() ==> line_ok((#[trigger] commands@[i])@, max_fps))
            ==> r.0@.len() == 0,
{
    let mut cap = CaptureChanges::empty();
    let mut ren = RenderChanges::empty();
    let mut errors: Vec<String> = Vec::new();
    let mut i: usize = 0;
    while i < commands.len()
        invariant
            i <= commands@.len(),
            errors@.len() == error_count(commands@.subrange(0, i as int), max_fps),
        decreases commands@.len() - i,
    {
        proof {
            assert(commands@.subrange(0, i as int + 1).drop_last() =~= commands@.subrange(
                0,
                i as int,
            ));
            assert(commands@.subrange(0, i as int + 1).last() == commands@[i as int]);
        }
        let chars = str_chars(commands[i].as_str());
        match process_command_line(&chars, max_fps, &mut cap, &mut ren) {
            Some(e) => {
                errors.push(e);
            },
            None => {},
        }
        i = i + 1;
    }
    proof {
        assert(commands@.subrange(0, commands@.len() as int) =~= commands@);
        if forall|i: int| 0 <= i < commands@.len() ==> line_ok((#[trigger] commands@[i])@, max_fps) {
            lemma_error_count_zero(commands@, max_fps);
        }
    }
    (errors, cap, ren)
}

proof fn lemma_error_count_zero(cmds: Seq<String>, max_fps: u32)
    requires
        forall|i: int| 0 <= i < cmds.len() ==> line_ok((#[trigger] cmds[i])@, max_fps),
    ensures
        error_count(cmds, max_fps) == 0,
    decreases cmds.len(),
{
    if cmds.len() > 0 {
        assert(forall|i: int|
            0 <= i < cmds.drop_last().len() ==> (#[trigger] cmds.drop_last()[i]) == cmds[i]);
        lemma_error_count_zero(cmds.drop_last(), max_fps);
    }
}

/// The capture command a batch's changes call for, if any: a camera or
/// resolution change requires reopening the camera.
pub fn camera_change_of(
    cap: &CaptureChanges,
    snapshot_index: u32,
    snapshot_resolution: Option<(u32, u32)>,
) -> (r: Option<CaptureAction>)
    ensures
        match r {
            Some(a) => (cap.camera_index is Some || cap.resolution is Some) && a
                == (CaptureAction::ChangeCamera {
                index: (if cap.camera_index is Some {
                    cap.camera_index.unwrap()
                } else {
                    snapshot_index
                }),
                resolution: (if cap.resolution is Some {
                    cap.resolution.unwrap()
                } else {
                    snapshot_resolution
                }),
            }),
            None => cap.camera_index is None && cap.resolution is None,
        },
{
    if cap.camera_index.is_some() || cap.resolution.is_some() {
        let index = match cap.camera_index {
            Some(i) => i,
            None => snapshot_index,
        };
        let resolution = match cap.resolution {
            Some(res) => res,
            None => snapshot_resolution,
        };
        Some(CaptureAction::ChangeCamera { index, resolution })
    } else {
        None
    }
}

/// The frame-rate command a batch's changes call for, if any.
pub fn fps_change_of(cap: &CaptureChanges) -> (r: Option<CaptureAction>)
    ensures
        match r {
            Some(a) => cap.fps is Some && a == (CaptureAction::ChangeFps {
                fps: cap.fps.unwrap(),
            }),
            None => cap.fps is None,
        },
{
    match cap.fps {
        Some(f) => Some(CaptureAction::ChangeFps { fps: f }),
        None => None,
    }
}

} // verus!
