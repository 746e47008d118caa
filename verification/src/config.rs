//! Color themes, brightness curves, character sets and configuration.

use vstd::prelude::*;

use crate::fixed::UNIT;
use crate::text::{
    chars_to_string, digits_val, hex_byte, hex_val, is_dec_digit, parse_hex_digit,
    parse_u32_chars, push_hex_byte, str_chars, str_eq,
};
use vstd::string::StringExecFns;
use vstd::string::StrSliceExecFns;

verus! {

/// An RGB color with one byte per channel.
#[derive(Clone, Copy, Debug, PartialEq, Eq, Structural)]
pub struct Rgb {
    pub r: u8,
    pub g: u8,
    pub b: u8,
}

impl Rgb {
    /// The six lower-case hexadecimal digits of the color.
    pub fn to_hex(self) -> (s: String)
        ensures
            s@ == hex_byte(self.r) + hex_byte(self.g) + hex_byte(self.b),
    {
        let mut out: Vec<char> = Vec::new();
        push_hex_byte(&mut out, self.r);
        push_hex_byte(&mut out, self.g);
        push_hex_byte(&mut out, self.b);
        chars_to_string(out)
    }
}

/// Drop every leading `#` from a color string, as `trim_start_matches` does.
pub open spec fn strip_hash(s: Seq<char>) -> Seq<char>
    decreases s.len(),
{
    if s.len() > 0 && s[0] == '#' {
        strip_hash(s.drop_first())
    } else {
        s
    }
}

/// The color a six-digit hexadecimal string denotes, if it is one.
pub open spec fn hex_color(s: Seq<char>) -> Option<Rgb> {
    let t = strip_hash(s);
    if t.len() == 6 && (forall|j: int| 0 <= j < 6 ==> hex_val(#[trigger] t[j]) is Some) {
        Some(
            Rgb {
                r: (hex_val(t[0]).unwrap() * 16 + hex_val(t[1]).unwrap()) as u8,
                g: (hex_val(t[2]).unwrap() * 16 + hex_val(t[3]).unwrap()) as u8,
                b: (hex_val(t[4]).unwrap() * 16 + hex_val(t[5]).unwrap()) as u8,
            },
        )
    } else {
        None
    }
}

/// Parse a six-digit hexadecimal color, tolerating a leading `#`.
pub fn parse_hex_color(hex: &str) -> (r: Option<Rgb>)
    ensures
        r == hex_color(hex@),
{
    let chars = str_chars(hex);
    proof {
        assert(chars@.subrange(0, chars@.len() as int) =~= chars@);
    }
    let mut start: usize = 0;
    while start < chars.len() && chars[start] == '#'
        invariant
            start <= chars@.len(),
            forall|j: int| 0 <= j < start ==> chars@[j] == '#',
            strip_hash(chars@) == strip_hash(chars@.subrange(start as int, chars@.len() as int)),
        decreases chars@.len() - start,
    {
        proof {
            let tail = chars@.subrange(start as int, chars@.len() as int);
            assert(tail.drop_first() =~= chars@.subrange(start + 1, chars@.len() as int));
        }
        start = start + 1;
    }
    let ghost stripped = strip_hash(chars@);
    proof {
        let tail = chars@.subrange(start as int, chars@.len() as int);
        assert(strip_hash(tail) == tail);
        assert(stripped =~= tail);
    }
    if chars.len() - start != 6 {
        return None;
    }
    let mut vals: Vec<u8> = Vec::new();
    let mut i: usize = 0;
    while i < 6
        invariant
            i <= 6,
            start + 6 == chars@.len(),
            start + 6 <= usize::MAX,
            hex@ == chars@,
            stripped == strip_hash(hex@),
            stripped =~= chars@.subrange(start as int, chars@.len() as int),
            vals@.len() == i,
            forall|j: int|
                0 <= j < i ==> hex_val(stripped[j]) == Some(#[trigger] vals@[j] as int)
                    && vals@[j] < 16,
        decreases 6 - i,
    {
        proof {
            assert(start + i < chars@.len());
            assert(stripped[i as int] == chars@[start + i]);
        }
        let idx: usize = start + i;
        match parse_hex_digit(chars[idx]) {
            Some(v) => {
                vals.push(v);
            },
            None => {
                proof {
                    assert(hex_val(stripped[i as int]) is None);
                    assert(strip_hash(hex@) == stripped);
                    assert(!(hex_val(strip_hash(hex@)[i as int]) is Some));
                    assert(hex_color(hex@) is None);
                }
                return None;
            },
        }
        i = i + 1;
    }
    Some(
        Rgb {
            r: vals[0] * 16 + vals[1],
            g: vals[2] * 16 + vals[3],
            b: vals[4] * 16 + vals[5],
        },
    )
}

/// The foreground and background colors of each named theme.
pub open spec fn theme_colors(name: Seq<char>) -> Option<(Rgb, Rgb)> {
    if name == "mono"@ {
        Some((Rgb { r: 255, g: 255, b: 255 }, Rgb { r: 0, g: 0, b: 0 }))
    } else if name == "green"@ {
        Some((Rgb { r: 0, g: 255, b: 0 }, Rgb { r: 0, g: 10, b: 0 }))
    } else if name == "amber"@ {
        Some((Rgb { r: 255, g: 176, b: 0 }, Rgb { r: 20, g: 10, b: 0 }))
    } else if name == "blue"@ {
        Some((Rgb { r: 100, g: 180, b: 255 }, Rgb { r: 0, g: 5, b: 20 }))
    } else if name == "matrix"@ {
        Some((Rgb { r: 0, g: 255, b: 0 }, Rgb { r: 0, g: 15, b: 0 }))
    } else if name == "vaporwave"@ {
        Some((Rgb { r: 255, g: 100, b: 255 }, Rgb { r: 10, g: 0, b: 20 }))
    } else if name == "fire"@ {
        Some((Rgb { r: 255, g: 100, b: 0 }, Rgb { r: 20, g: 5, b: 0 }))
    } else if name == "color"@ {
        Some((Rgb { r: 255, g: 255, b: 255 }, Rgb { r: 0, g: 0, b: 0 }))
    } else {
        None
    }
}

/// A named pair of foreground and background colors.
#[derive(Clone, Debug)]
pub struct ColorTheme {
    pub name: String,
    pub fg: Rgb,
    pub bg: Rgb,
}

impl ColorTheme {
    /// Look a theme up by name.
    pub fn from_name(name: &str) -> (r: Option<ColorTheme>)
        ensures
            match r {
                Some(t) => theme_colors(name@) == Some((t.fg, t.bg)) && t.name@ == name@,
                None => theme_colors(name@) is None,
            },
    {
        let pair: Option<(Rgb, Rgb)> = if str_eq(name, "mono") {
            Some((Rgb { r: 255, g: 255, b: 255 }, Rgb { r: 0, g: 0, b: 0 }))
        } else if str_eq(name, "green") {
            Some((Rgb { r: 0, g: 255, b: 0 }, Rgb { r: 0, g: 10, b: 0 }))
        } else if str_eq(name, "amber") {
            Some((Rgb { r: 255, g: 176, b: 0 }, Rgb { r: 20, g: 10, b: 0 }))
        } else if str_eq(name, "blue") {
            Some((Rgb { r: 100, g: 180, b: 255 }, Rgb { r: 0, g: 5, b: 20 }))
        } else if str_eq(name, "matrix") {
            Some((Rgb { r: 0, g: 255, b: 0 }, Rgb { r: 0, g: 15, b: 0 }))
        } else if str_eq(name, "vaporwave") {
            Some((Rgb { r: 255, g: 100, b: 255 }, Rgb { r: 10, g: 0, b: 20 }))
        } else if str_eq(name, "fire") {
            Some((Rgb { r: 255, g: 100, b: 0 }, Rgb { r: 20, g: 5, b: 0 }))
        } else if str_eq(name, "color") {
            Some((Rgb { r: 255, g: 255, b: 255 }, Rgb { r: 0, g: 0, b: 0 }))
        } else {
            None
        };
        match pair {
            Some((fg, bg)) => Some(ColorTheme { name: name.to_owned(), fg, bg }),
            None => None,
        }
    }
}

/// The names of all built-in themes.
pub fn theme_names() -> (r: Vec<&'static str>)
    ensures
        r@.len() == 8,
        r@[0]@ == "mono"@,
        r@[1]@ == "green"@,
        r@[2]@ == "amber"@,
        r@[3]@ == "blue"@,
        r@[4]@ == "matrix"@,
        r@[5]@ == "vaporwave"@,
        r@[6]@ == "fire"@,
        r@[7]@ == "color"@,
        forall|j: int| 0 <= j < 8 ==> theme_colors(#[trigger] r@[j]@) is Some,
{
    let r: Vec<&'static str> = vec![
        "mono",
        "green",
        "amber",
        "blue",
        "matrix",
        "vaporwave",
        "fire",
        "color",
    ];
    r
}

/// How a raw brightness value is reshaped before character selection.
#[derive(Clone, Copy, Debug, PartialEq, Eq, Structural)]
pub enum BrightnessCurve {
    Linear,
    Exponential,
    Sigmoid,
}

/// Samples of the renormalized logistic curve with steepness ten, in
/// millionths, at 32 evenly spaced points of the unit interval plus one.
pub open spec fn sigmoid_sample(i: int) -> int {
    if i <= 0 {
        0
    } else if i == 1 {
        2466
    } else if i == 2 {
        5817
    } else if i == 3 {
        10361
    } else if i == 4 {
        16505
    } else if i == 5 {
        24783
    } else if i == 6 {
        35875
    } else if i == 7 {
        50637
    } else if i == 8 {
        70104
    } else if i == 9 {
        95464
    } else if i == 10 {
        127985
    } else if i == 11 {
        168856
    } else if i == 12 {
        218938
    } else if i == 13 {
        278440
    } else if i == 14 {
        346592
    } else if i == 15 {
        421453
    } else if i == 16 {
        500000
    } else if i == 17 {
        578547
    } else if i == 18 {
        653408
    } else if i == 19 {
        721560
    } else if i == 20 {
        781062
    } else if i == 21 {
        831144
    } else if i == 22 {
        872015
    } else if i == 23 {
        904536
    } else if i == 24 {
        929896
    } else if i == 25 {
        949363
    } else if i == 26 {
        964125
    } else if i == 27 {
        975217
    } else if i == 28 {
        983495
    } else if i == 29 {
        989639
    } else if i == 30 {
        994183
    } else if i == 31 {
        997534
    } else {
        1000000
    }
}

/// Width of one interpolation segment of the sigmoid table: `UNIT / 32`.
pub const SIGMOID_STEP: u32 = 31250;

/// The sigmoid curve: linear interpolation between the table samples.
/// Exactly zero at zero and exactly one at one.
pub open spec fn sigmoid_apply(t: int) -> int {
    if t >= UNIT {
        UNIT as int
    } else {
        let i = t / (SIGMOID_STEP as int);
        let frac = t % (SIGMOID_STEP as int);
        sigmoid_sample(i) + ((sigmoid_sample(i + 1) - sigmoid_sample(i)) * frac) / (
        SIGMOID_STEP as int)
    }
}

/// What each curve returns on a brightness in `0 ..= UNIT`.
pub open spec fn curve_apply(curve: BrightnessCurve, t: int) -> int {
    match curve {
        BrightnessCurve::Linear => t,
        BrightnessCurve::Exponential => (t * t) / (UNIT as int),
        BrightnessCurve::Sigmoid => sigmoid_apply(t),
    }
}

proof fn lemma_sigmoid_sample_mono(i: int, j: int)
    requires
        i <= j,
    ensures
        sigmoid_sample(i) <= sigmoid_sample(j),
    decreases j - i,
{
    if i < j {
        lemma_sigmoid_sample_mono(i + 1, j);
    }
}

proof fn lemma_sigmoid_bounds(t: int)
    requires
        0 <= t <= UNIT,
    ensures
        0 <= sigmoid_apply(t) <= UNIT,
{
    if t < UNIT {
        let i = t / (SIGMOID_STEP as int);
        let frac = t % (SIGMOID_STEP as int);
        let lo = sigmoid_sample(i);
        let hi = sigmoid_sample(i + 1);
        assert(0 <= i < 32) by (nonlinear_arith)
            requires
                0 <= t < 1000000,
                i == t / 31250,
        ;
        lemma_sigmoid_sample_mono(i, i + 1);
        assert(0 <= frac < 31250) by (nonlinear_arith)
            requires
                0 <= t,
                frac == t % 31250,
        ;
        assert(0 <= ((hi - lo) * frac) / 31250 <= hi - lo) by (nonlinear_arith)
            requires
                0 <= hi - lo,
                0 <= frac < 31250,
        ;
        lemma_sigmoid_sample_mono(0, i);
        lemma_sigmoid_sample_mono(i + 1, 32);
    }
}

/// Within one segment the interpolation is monotone; across segments the
/// value stays between the segment's end samples.
proof fn lemma_sigmoid_mono(t1: int, t2: int)
    requires
        0 <= t1 <= t2 <= UNIT,
    ensures
        sigmoid_apply(t1) <= sigmoid_apply(t2),
{
    lemma_sigmoid_bounds(t1);
    lemma_sigmoid_bounds(t2);
    if t2 < UNIT {
        let i1 = t1 / (SIGMOID_STEP as int);
        let f1 = t1 % (SIGMOID_STEP as int);
        let i2 = t2 / (SIGMOID_STEP as int);
        let f2 = t2 % (SIGMOID_STEP as int);
        assert(0 <= i1 <= i2 < 32 && 0 <= f1 < 31250 && 0 <= f2 < 31250 && (i1 == i2 ==> f1 <= f2))
            by (nonlinear_arith)
            requires
                0 <= t1 <= t2 < 1000000,
                i1 == t1 / 31250,
                i2 == t2 / 31250,
                f1 == t1 % 31250,
                f2 == t2 % 31250,
        ;
        let lo1 = sigmoid_sample(i1);
        let hi1 = sigmoid_sample(i1 + 1);
        let lo2 = sigmoid_sample(i2);
        let hi2 = sigmoid_sample(i2 + 1);
        lemma_sigmoid_sample_mono(i1, i1 + 1);
        lemma_sigmoid_sample_mono(i2, i2 + 1);
        if i1 == i2 {
            assert(((hi1 - lo1) * f1) / 31250 <= ((hi1 - lo1) * f2) / 31250)
                by (nonlinear_arith)
                requires
                    0 <= hi1 - lo1,
                    0 <= f1 <= f2,
            ;
        } else {
            lemma_sigmoid_sample_mono(i1 + 1, i2);
            assert(((hi1 - lo1) * f1) / 31250 <= hi1 - lo1) by (nonlinear_arith)
                requires
                    0 <= hi1 - lo1,
                    0 <= f1 < 31250,
            ;
            assert(0 <= ((hi2 - lo2) * f2) / 31250) by (nonlinear_arith)
                requires
                    0 <= hi2 - lo2,
                    0 <= f2,
            ;
        }
    }
}

/// Every curve is monotone and keeps the unit interval; the endpoints map to
/// the curve's floor and ceiling, which are exactly zero and one.
pub proof fn lemma_curve_monotone(curve: BrightnessCurve, t1: int, t2: int)
    requires
        0 <= t1 <= t2 <= UNIT,
    ensures
        curve_apply(curve, t1) <= curve_apply(curve, t2),
        0 <= curve_apply(curve, t1) <= UNIT,
        curve_apply(curve, 0) == 0,
        curve_apply(curve, UNIT as int) == UNIT,
{
    match curve {
        BrightnessCurve::Linear => {},
        BrightnessCurve::Exponential => {
            assert((t1 * t1) / 1000000 <= (t2 * t2) / 1000000 && 0 <= (t1 * t1) / 1000000
                <= 1000000 && (1000000int * 1000000int) / 1000000int == 1000000int)
                by (nonlinear_arith)
                requires
                    0 <= t1 <= t2 <= 1000000,
            ;
        },
        BrightnessCurve::Sigmoid => {
            lemma_sigmoid_mono(t1, t2);
            lemma_sigmoid_bounds(t1);
            assert(sigmoid_apply(0) == sigmoid_sample(0) + ((sigmoid_sample(1) - sigmoid_sample(0))
                * 0) / 31250);
            assert(sigmoid_apply(0) == 0);
            assert(sigmoid_apply(UNIT as int) == UNIT);
        },
    }
}

impl BrightnessCurve {
    /// Look a curve up by name.
    pub fn from_name(name: &str) -> (r: Option<BrightnessCurve>)
        ensures
            match r {
                Some(c) => (name@ == "linear"@ && c == BrightnessCurve::Linear) || ((name@
                    == "exponential"@ || name@ == "exp"@) && c == BrightnessCurve::Exponential) || (
                name@ == "sigmoid"@ && c == BrightnessCurve::Sigmoid),
                None => name@ != "linear"@ && name@ != "exponential"@ && name@ != "exp"@ && name@
                    != "sigmoid"@,
            },
    {
        if str_eq(name, "linear") {
            Some(BrightnessCurve::Linear)
        } else if str_eq(name, "exponential") || str_eq(name, "exp") {
            Some(BrightnessCurve::Exponential)
        } else if str_eq(name, "sigmoid") {
            Some(BrightnessCurve::Sigmoid)
        } else {
            None
        }
    }

    /// The canonical name of the curve.
    pub fn name(self) -> (r: &'static str)
        ensures
            match self {
                BrightnessCurve::Linear => r@ == "linear"@,
                BrightnessCurve::Exponential => r@ == "exponential"@,
                BrightnessCurve::Sigmoid => r@ == "sigmoid"@,
            },
    {
        match self {
            BrightnessCurve::Linear => "linear",
            BrightnessCurve::Exponential => "exponential",
            BrightnessCurve::Sigmoid => "sigmoid",
        }
    }

    /// Map a brightness in `0 ..= UNIT` through the curve.
    pub fn apply(self, t: u32) -> (r: u32)
        requires
            t <= UNIT,
        ensures
            r == curve_apply(self, t as int),
            r <= UNIT,
    {
        proof {
            lemma_curve_monotone(self, t as int, t as int);
        }
        match self {
            BrightnessCurve::Linear => t,
            BrightnessCurve::Exponential => {
                proof {
                    assert((t as int) * (t as int) <= 1000000int * 1000000int)
                        by (nonlinear_arith)
                        requires
                            0 <= t <= 1000000,
                    ;
                }
                (((t as u64) * (t as u64)) / (UNIT as u64)) as u32
            },
            BrightnessCurve::Sigmoid => {
                if t >= UNIT {
                    UNIT
                } else {
                    let i: u32 = t / SIGMOID_STEP;
                    let frac: u32 = t % SIGMOID_STEP;
                    proof {
                        assert(0 <= i < 32 && frac < 31250) by (nonlinear_arith)
                            requires
                                0 <= t < 1000000,
                                i == t / 31250,
                                frac == t % 31250,
                        ;
                        lemma_sigmoid_sample_mono(i as int, i as int + 1);
                        lemma_sigmoid_sample_mono(0, i as int);
                        lemma_sigmoid_sample_mono(i as int + 1, 32);
                    }
                    let lo: u32 = sigmoid_sample_at(i);
                    let hi: u32 = sigmoid_sample_at(i + 1);
                    proof {
                        assert(((hi - lo) as int * frac as int) / 31250 <= (hi - lo) as int
                            && 0 <= ((hi - lo) as int * frac as int) / 31250)
                            by (nonlinear_arith)
                            requires
                                0 <= (hi - lo) as int,
                                0 <= frac < 31250,
                        ;
                        assert((hi - lo) as int * frac as int <= 1000000int * 31250int)
                            by (nonlinear_arith)
                            requires
                                0 <= (hi - lo) as int <= 1000000,
                                0 <= frac < 31250,
                        ;
                    }
                    lo + ((((hi - lo) as u64) * (frac as u64)) / (SIGMOID_STEP as u64)) as u32
                }
            },
        }
    }
}

/// One sample of the sigmoid table.
fn sigmoid_sample_at(i: u32) -> (r: u32)
    requires
        i <= 32,
    ensures
        r == sigmoid_sample(i as int),
        r <= UNIT,
{
    proof {
        lemma_sigmoid_sample_mono(i as int, 32);
        lemma_sigmoid_sample_mono(0, i as int);
    }
    match i {
        0 => 0,
        1 => 2466,
        2 => 5817,
        3 => 10361,
        4 => 16505,
        5 => 24783,
        6 => 35875,
        7 => 50637,
        8 => 70104,
        9 => 95464,
        10 => 127985,
        11 => 168856,
        12 => 218938,
        13 => 278440,
        14 => 346592,
        15 => 421453,
        16 => 500000,
        17 => 578547,
        18 => 653408,
        19 => 721560,
        20 => 781062,
        21 => 831144,
        22 => 872015,
        23 => 904536,
        24 => 929896,
        25 => 949363,
        26 => 964125,
        27 => 975217,
        28 => 983495,
        29 => 989639,
        30 => 994183,
        31 => 997534,
        _ => 1000000,
    }
}

} // verus!


verus! {

/// The character set of the matrix theme: half-width katakana, numerals and
/// symbols.
pub open spec fn matrix_chars() -> Seq<char> {
    "･ｦｧｨｩｪｫｬｭｮｯｰｱｲｳｴｵｶｷｸｹｺｻｼｽｾｿﾀﾁﾂﾃﾄﾅﾆﾇﾈﾉﾊﾋﾌﾍﾎﾏﾐﾑﾒﾓﾔﾕﾖﾗﾘﾙﾚﾛﾜﾝﾞﾟ0123456789*+:=.<>\"|Â¦_Z"@
}

/// The matrix theme's character set, as a vector.
pub fn matrix_charset() -> (r: Vec<char>)
    ensures
        r@ == matrix_chars(),
{
    str_chars("･ｦｧｨｩｪｫｬｭｮｯｰｱｲｳｴｵｶｷｸｹｺｻｼｽｾｿﾀﾁﾂﾃﾄﾅﾆﾇﾈﾉﾊﾋﾌﾍﾎﾏﾐﾑﾒﾓﾔﾕﾖﾗﾘﾙﾚﾛﾜﾝﾞﾟ0123456789*+:=.<>\"|Â¦_Z")
}

/// Grid columns for each definition level of the matrix theme.
pub open spec fn matrix_columns(level: u8) -> u32 {
    if level == 1 {
        40
    } else if level == 2 {
        50
    } else if level == 3 {
        60
    } else if level == 4 {
        70
    } else if level == 5 {
        80
    } else if level == 6 {
        100
    } else if level == 7 {
        120
    } else if level == 8 {
        140
    } else if level == 9 {
        160
    } else if level == 10 {
        200
    } else {
        80
    }
}

/// Grid columns for each definition level of the plain themes.
pub open spec fn plain_columns(level: u8) -> u32 {
    if level == 1 {
        40
    } else if level == 2 {
        50
    } else if level == 3 {
        60
    } else if level == 4 {
        70
    } else if level == 5 {
        80
    } else if level == 6 {
        100
    } else if level == 7 {
        120
    } else if level == 8 {
        140
    } else if level == 9 {
        160
    } else if level == 10 {
        200
    } else {
        80
    }
}

/// Character set for each definition level of the plain themes, darkest
/// character first.
pub open spec fn plain_chars(level: u8) -> Seq<char> {
    if level == 1 {
        " .:#"@
    } else if level == 2 {
        " .-:=+#"@
    } else if level == 3 {
        " .-:=+*#%@"@
    } else if level == 4 {
        " .,-:;=+*#%@"@
    } else if level == 5 {
        " .'`,-.:;=+*#%@"@
    } else if level == 6 {
        " .'`^\",-.:;=!+*#%@"@
    } else if 7 <= level && level <= 10 {
        " .'`^\",:;Il!i><~+_-?][}{1)(|/tfjrxnuvczXYUJCLQ0OZmwqpdbkhao*#MW&8%B@$"@
    } else {
        " .'`,-.:;=+*#%@"@
    }
}

/// Map a definition level and theme to grid columns and a character set.
pub fn definition_to_params(level: u8, theme_name: &str) -> (r: (u32, Vec<char>))
    ensures
        theme_name@ == "matrix"@ ==> r.0 == matrix_columns(level) && r.1@ == matrix_chars(),
        theme_name@ != "matrix"@ ==> r.0 == plain_columns(level) && r.1@ == plain_chars(level),
        r.0 >= 1,
        r.1@.len() >= 1,
{
    proof {
        reveal_strlit("･ｦｧｨｩｪｫｬｭｮｯｰｱｲｳｴｵｶｷｸｹｺｻｼｽｾｿﾀﾁﾂﾃﾄﾅﾆﾇﾈﾉﾊﾋﾌﾍﾎﾏﾐﾑﾒﾓﾔﾕﾖﾗﾘﾙﾚﾛﾜﾝﾞﾟ0123456789*+:=.<>\"|Â¦_Z");
        reveal_strlit(" .:#");
        reveal_strlit(" .-:=+#");
        reveal_strlit(" .-:=+*#%@");
        reveal_strlit(" .,-:;=+*#%@");
        reveal_strlit(" .'`,-.:;=+*#%@");
        reveal_strlit(" .'`^\",-.:;=!+*#%@");
        reveal_strlit(" .'`^\",:;Il!i><~+_-?][}{1)(|/tfjrxnuvczXYUJCLQ0OZmwqpdbkhao*#MW&8%B@$");
    }
    if str_eq(theme_name, "matrix") {
        let columns: u32 = match level {
            1 => 40,
            2 => 50,
            3 => 60,
            4 => 70,
            5 => 80,
            6 => 100,
            7 => 120,
            8 => 140,
            9 => 160,
            10 => 200,
            _ => 80,
        };
        (columns, matrix_charset())
    } else {
        let (columns, charset_str): (u32, &str) = match level {
            1 => (40, " .:#"),
            2 => (50, " .-:=+#"),
            3 => (60, " .-:=+*#%@"),
            4 => (70, " .,-:;=+*#%@"),
            5 => (80, " .'`,-.:;=+*#%@"),
            6 => (100, " .'`^\",-.:;=!+*#%@"),
            7 => (120, " .'`^\",:;Il!i><~+_-?][}{1)(|/tfjrxnuvczXYUJCLQ0OZmwqpdbkhao*#MW&8%B@$"),
            8 => (140, " .'`^\",:;Il!i><~+_-?][}{1)(|/tfjrxnuvczXYUJCLQ0OZmwqpdbkhao*#MW&8%B@$"),
            9 => (160, " .'`^\",:;Il!i><~+_-?][}{1)(|/tfjrxnuvczXYUJCLQ0OZmwqpdbkhao*#MW&8%B@$"),
            10 => (200, " .'`^\",:;Il!i><~+_-?][}{1)(|/tfjrxnuvczXYUJCLQ0OZmwqpdbkhao*#MW&8%B@$"),
            _ => (80, " .'`,-.:;=+*#%@"),
        };
        (columns, str_chars(charset_str))
    }
}

/// The character a brightness selects from a set of `n` characters: the
/// nearest index to `t * (n - 1)`, capped at `n - 1`.
pub open spec fn char_index_spec(n: int, t: int) -> int {
    let i = (t * (n - 1) + (UNIT as int) / 2) / (UNIT as int);
    if i < n - 1 {
        i
    } else {
        n - 1
    }
}

/// Select a character index from a curved brightness.
pub fn char_index(n: usize, t: u32) -> (r: usize)
    requires
        1 <= n <= 100000,
        t <= UNIT,
    ensures
        r == char_index_spec(n as int, t as int),
        r < n,
{
    proof {
        let ghost nn = n as int - 1;
        assert((t as int) * nn + 500000 <= 1000000int * 100001int) by (nonlinear_arith)
            requires
                0 <= t <= 1000000,
                0 <= nn <= 100000,
        ;
        assert(((t as int) * nn + 500000) / 1000000 >= 0) by (nonlinear_arith)
            requires
                0 <= t,
                0 <= nn,
        ;
    }
    let i: u64 = ((t as u64) * ((n - 1) as u64) + (UNIT as u64) / 2) / (UNIT as u64);
    if (i as usize) < n - 1 {
        i as usize
    } else {
        n - 1
    }
}

/// The curved brightness a cell is rendered with: the curve's output, flipped
/// when inversion is on.
pub open spec fn effective_brightness(curve: BrightnessCurve, invert: bool, t: int) -> int {
    if invert {
        (UNIT as int) - curve_apply(curve, t)
    } else {
        curve_apply(curve, t)
    }
}

/// Apply the curve and inversion to one brightness value.
pub fn apply_effective(curve: BrightnessCurve, invert: bool, t: u32) -> (r: u32)
    requires
        t <= UNIT,
    ensures
        r == effective_brightness(curve, invert, t as int),
        r <= UNIT,
{
    let v = curve.apply(t);
    if invert {
        UNIT - v
    } else {
        v
    }
}

/// Character selection is monotone in brightness: for a fixed character set
/// and curve, a brighter input never selects an earlier character.
pub proof fn lemma_char_selection_monotone(curve: BrightnessCurve, n: int, b1: int, b2: int)
    requires
        n >= 1,
        0 <= b1 <= b2 <= UNIT,
    ensures
        char_index_spec(n, curve_apply(curve, b1)) <= char_index_spec(n, curve_apply(curve, b2)),
{
    lemma_curve_monotone(curve, b1, b2);
    let t1 = curve_apply(curve, b1);
    let t2 = curve_apply(curve, b2);
    assert((t1 * (n - 1) + 500000) / 1000000 <= (t2 * (n - 1) + 500000) / 1000000)
        by (nonlinear_arith)
        requires
            0 <= t1 <= t2,
            n >= 1,
    ;
}

} // verus!

verus! {

/// Index of the first occurrence of a character, or the length if absent.
pub open spec fn first_idx(s: Seq<char>, c: char) -> int
    decreases s.len(),
{
    if s.len() == 0 {
        0
    } else if s[0] == c {
        0
    } else {
        1 + first_idx(s.drop_first(), c)
    }
}

pub proof fn lemma_first_idx(s: Seq<char>, c: char)
    ensures
        0 <= first_idx(s, c) <= s.len(),
        first_idx(s, c) < s.len() ==> s[first_idx(s, c)] == c,
        forall|j: int| 0 <= j < first_idx(s, c) ==> s[j] != c,
    decreases s.len(),
{
    if s.len() > 0 && s[0] != c {
        lemma_first_idx(s.drop_first(), c);
        assert(forall|j: int|
            1 <= j < first_idx(s, c) ==> s[j] == s.drop_first()[j - 1] && s.drop_first()[j - 1]
                != c);
    }
}

/// Find the first occurrence of a character in a vector.
pub fn find_first(v: &Vec<char>, c: char) -> (r: Option<usize>)
    ensures
        match r {
            Some(i) => i == first_idx(v@, c) && (i as int) < v@.len(),
            None => first_idx(v@, c) == v@.len(),
        },
{
    proof {
        lemma_first_idx(v@, c);
    }
    let mut i: usize = 0;
    while i < v.len()
        invariant
            i <= v@.len(),
            forall|j: int| 0 <= j < i ==> v@[j] != c,
            0 <= first_idx(v@, c) <= v@.len(),
            first_idx(v@, c) < v@.len() ==> v@[first_idx(v@, c)] == c,
            forall|j: int| 0 <= j < first_idx(v@, c) ==> v@[j] != c,
        decreases v@.len() - i,
    {
        if v[i] == c {
            proof {
                if first_idx(v@, c) < i {
                    assert(v@[first_idx(v@, c)] == c);
                }
                if first_idx(v@, c) > i {
                    assert(v@[i as int] != c);
                }
            }
            return Some(i);
        }
        i = i + 1;
    }
    proof {
        if first_idx(v@, c) < v@.len() {
            assert(v@[first_idx(v@, c)] == c);
        }
    }
    None
}

/// Where the resolution string splits: at the first `x`, else the first `X`.
pub open spec fn res_split_pos(s: Seq<char>) -> Option<int> {
    if first_idx(s, 'x') < s.len() {
        Some(first_idx(s, 'x'))
    } else if first_idx(s, 'X') < s.len() {
        Some(first_idx(s, 'X'))
    } else {
        None
    }
}

/// Whitespace stripped by trimming.
pub open spec fn is_space(c: char) -> bool {
    c == ' ' || c == '\t' || c == '\n' || c == '\r'
}

/// Count of leading whitespace characters.
pub open spec fn trim_start_idx(s: Seq<char>) -> int
    decreases s.len(),
{
    if s.len() > 0 && is_space(s[0]) {
        1 + trim_start_idx(s.drop_first())
    } else {
        0
    }
}

/// Length of the string after trailing whitespace is removed.
pub open spec fn trim_end_idx(s: Seq<char>) -> int
    decreases s.len(),
{
    if s.len() > 0 && is_space(s.last()) {
        trim_end_idx(s.drop_last())
    } else {
        s.len() as int
    }
}

/// The string with leading and trailing whitespace removed.
pub open spec fn trim_spec(s: Seq<char>) -> Seq<char> {
    if trim_start_idx(s) <= trim_end_idx(s) {
        s.subrange(trim_start_idx(s), trim_end_idx(s))
    } else {
        Seq::empty()
    }
}

/// Length of the longest leading run of decimal digits.
pub open spec fn digit_prefix_end(s: Seq<char>) -> int
    decreases s.len(),
{
    if s.len() > 0 && is_dec_digit(s[0]) {
        1 + digit_prefix_end(s.drop_first())
    } else {
        0
    }
}

/// The longest leading run of decimal digits.
pub open spec fn digit_prefix(s: Seq<char>) -> Seq<char> {
    s.subrange(0, digit_prefix_end(s))
}

proof fn lemma_trim_bounds(s: Seq<char>)
    ensures
        0 <= trim_start_idx(s) <= s.len(),
        0 <= trim_end_idx(s) <= s.len(),
    decreases s.len(),
{
    if s.len() > 0 {
        lemma_trim_bounds(s.drop_first());
        lemma_trim_bounds(s.drop_last());
    }
}

proof fn lemma_digit_prefix_bounds(s: Seq<char>)
    ensures
        0 <= digit_prefix_end(s) <= s.len(),
        forall|j: int| 0 <= j < digit_prefix_end(s) ==> is_dec_digit(#[trigger] s[j]),
        digit_prefix_end(s) < s.len() ==> !is_dec_digit(s[digit_prefix_end(s)]),
    decreases s.len(),
{
    if s.len() > 0 && is_dec_digit(s[0]) {
        lemma_digit_prefix_bounds(s.drop_first());
        assert(forall|j: int|
            1 <= j < digit_prefix_end(s) ==> s[j] == s.drop_first()[j - 1] && is_dec_digit(
                s.drop_first()[j - 1]));
        if digit_prefix_end(s) < s.len() {
            assert(s[digit_prefix_end(s)] == s.drop_first()[digit_prefix_end(s.drop_first())]);
        }
    }
}

/// Copy a range of a character vector.
pub fn copy_range(v: &Vec<char>, a: usize, b: usize) -> (r: Vec<char>)
    requires
        a <= b <= v@.len(),
    ensures
        r@ == v@.subrange(a as int, b as int),
{
    let mut r: Vec<char> = Vec::new();
    let mut i: usize = a;
    while i < b
        invariant
            a <= i <= b <= v@.len(),
            r@ =~= v@.subrange(a as int, i as int),
        decreases b - i,
    {
        r.push(v[i]);
        i = i + 1;
    }
    proof {
        assert(r@ =~= v@.subrange(a as int, b as int));
    }
    r
}

pub fn is_space_char(c: char) -> (r: bool)
    ensures
        r == is_space(c),
{
    c == ' ' || c == '\t' || c == '\n' || c == '\r'
}

/// Trim whitespace from both ends of a character vector.
pub fn trim_chars(v: &Vec<char>) -> (r: Vec<char>)
    ensures
        r@ == trim_spec(v@),
{
    proof {
        lemma_trim_bounds(v@);
    }
    let mut a: usize = 0;
    while a < v.len() && is_space_char(v[a])
        invariant
            a <= v@.len(),
            forall|j: int| 0 <= j < a ==> is_space(#[trigger] v@[j]),
            trim_start_idx(v@) >= a,
        decreases v@.len() - a,
    {
        proof {
            lemma_trim_start_step(v@, a as int);
        }
        a = a + 1;
    }
    proof {
        lemma_trim_bounds(v@);
        lemma_trim_start_at(v@, a as int);
    }
    let mut b: usize = v.len();
    while b > a && is_space_char(v[b - 1])
        invariant
            a <= b <= v@.len(),
            a == trim_start_idx(v@),
            forall|j: int| b <= j < v@.len() ==> is_space(#[trigger] v@[j]),
            trim_end_idx(v@) <= b,
        decreases b,
    {
        proof {
            lemma_trim_end_step(v@, b as int);
        }
        b = b - 1;
    }
    if b <= a {
        proof {
            if trim_start_idx(v@) <= trim_end_idx(v@) {
                assert(trim_spec(v@).len() == 0);
            }
            assert(trim_spec(v@) =~= Seq::<char>::empty());
        }
        Vec::new()
    } else {
        proof {
            lemma_trim_end_at(v@, b as int, a as int);
        }
        copy_range(v, a, b)
    }
}

proof fn lemma_trim_start_step(s: Seq<char>, a: int)
    requires
        0 <= a < s.len(),
        forall|j: int| 0 <= j < a ==> is_space(#[trigger] s[j]),
        is_space(s[a]),
        trim_start_idx(s) >= a,
    ensures
        trim_start_idx(s) >= a + 1,
    decreases a,
{
    if a == 0 {
        assert(trim_start_idx(s) == 1 + trim_start_idx(s.drop_first()));
        lemma_trim_bounds(s.drop_first());
    } else {
        assert(is_space(s[0]));
        assert(trim_start_idx(s) == 1 + trim_start_idx(s.drop_first()));
        assert(forall|j: int|
            0 <= j < a - 1 ==> s.drop_first()[j] == s[j + 1] && is_space(#[trigger] s.drop_first()[j]));
        assert(s.drop_first()[a - 1] == s[a as int]);
        lemma_trim_start_step(s.drop_first(), a - 1);
    }
}

proof fn lemma_trim_start_at(s: Seq<char>, a: int)
    requires
        0 <= a <= s.len(),
        forall|j: int| 0 <= j < a ==> is_space(#[trigger] s[j]),
        a < s.len() ==> !is_space(s[a]),
        trim_start_idx(s) >= a,
    ensures
        trim_start_idx(s) == a,
    decreases a,
{
    if a == 0 {
        if s.len() > 0 && is_space(s[0]) {
            assert(false);
        }
    } else {
        assert(is_space(s[0]));
        assert(trim_start_idx(s) == 1 + trim_start_idx(s.drop_first()));
        assert(forall|j: int|
            0 <= j < a - 1 ==> s.drop_first()[j] == s[j + 1] && is_space(#[trigger] s.drop_first()[j]));
        if a < s.len() {
            assert(s.drop_first()[a - 1] == s[a]);
        }
        lemma_trim_bounds(s.drop_first());
        if trim_start_idx(s.drop_first()) < a - 1 {
            assert(false);
        }
        lemma_trim_start_at(s.drop_first(), a - 1);
    }
}

proof fn lemma_trim_end_step(s: Seq<char>, b: int)
    requires
        0 < b <= s.len(),
        forall|j: int| b <= j < s.len() ==> is_space(#[trigger] s[j]),
        is_space(s[b - 1]),
        trim_end_idx(s) <= b,
    ensures
        trim_end_idx(s) <= b - 1,
    decreases s.len(),
{
    if b == s.len() {
        assert(is_space(s.last()));
        assert(trim_end_idx(s) == trim_end_idx(s.drop_last()));
        lemma_trim_bounds(s.drop_last());
    } else {
        assert(is_space(s.last()));
        assert(trim_end_idx(s) == trim_end_idx(s.drop_last()));
        assert(forall|j: int|
            b <= j < s.len() - 1 ==> s.drop_last()[j] == s[j] && is_space(
                #[trigger] s.drop_last()[j]));
        assert(s.drop_last()[b - 1] == s[b - 1]);
        lemma_trim_bounds(s.drop_last());
        lemma_trim_end_step(s.drop_last(), b);
    }
}

proof fn lemma_trim_end_at(s: Seq<char>, b: int, a: int)
    requires
        0 <= a < b <= s.len(),
        !is_space(s[b - 1]),
        trim_end_idx(s) <= b,
        forall|j: int| b <= j < s.len() ==> is_space(#[trigger] s[j]),
    ensures
        trim_end_idx(s) == b,
    decreases s.len(),
{
    if b == s.len() {
        assert(!is_space(s.last()));
    } else {
        assert(is_space(s.last()));
        assert(trim_end_idx(s) == trim_end_idx(s.drop_last()));
        assert(forall|j: int|
            b <= j < s.len() - 1 ==> s.drop_last()[j] == s[j] && is_space(
                #[trigger] s.drop_last()[j]));
        assert(s.drop_last()[b - 1] == s[b - 1]);
        lemma_trim_bounds(s.drop_last());
        lemma_trim_end_at(s.drop_last(), b, a);
    }
}

/// The longest leading run of decimal digits of a character vector.
fn digit_prefix_chars(v: &Vec<char>) -> (r: Vec<char>)
    ensures
        r@ == digit_prefix(v@),
        forall|j: int| 0 <= j < r@.len() ==> is_dec_digit(#[trigger] r@[j]),
{
    proof {
        lemma_digit_prefix_bounds(v@);
    }
    let mut e: usize = 0;
    while e < v.len() && '0' <= v[e] && v[e] <= '9'
        invariant
            e <= v@.len(),
            forall|j: int| 0 <= j < e ==> is_dec_digit(#[trigger] v@[j]),
            digit_prefix_end(v@) >= e,
        decreases v@.len() - e,
    {
        proof {
            lemma_digit_prefix_step(v@, e as int);
        }
        e = e + 1;
    }
    proof {
        lemma_digit_prefix_bounds(v@);
        if digit_prefix_end(v@) > e {
            assert(is_dec_digit(v@[e as int]));
        }
    }
    let r = copy_range(v, 0, e);
    proof {
        lemma_digit_prefix_bounds(v@);
    }
    r
}

proof fn lemma_digit_prefix_step(s: Seq<char>, e: int)
    requires
        0 <= e < s.len(),
        forall|j: int| 0 <= j < e ==> is_dec_digit(#[trigger] s[j]),
        is_dec_digit(s[e]),
        digit_prefix_end(s) >= e,
    ensures
        digit_prefix_end(s) >= e + 1,
    decreases e,
{
    if e == 0 {
        lemma_digit_prefix_bounds(s.drop_first());
    } else {
        assert(is_dec_digit(s[0]));
        assert(forall|j: int|
            0 <= j < e - 1 ==> s.drop_first()[j] == s[j + 1] && is_dec_digit(
                #[trigger] s.drop_first()[j]));
        assert(s.drop_first()[e - 1] == s[e]);
        lemma_digit_prefix_bounds(s.drop_first());
        if digit_prefix_end(s.drop_first()) < e - 1 {
            lemma_digit_prefix_bounds(s.drop_first());
            assert(false);
        }
        lemma_digit_prefix_step(s.drop_first(), e - 1);
    }
}

} // verus!

verus! {

/// What parsing a `WxH` resolution string yields, over the split position,
/// trimming and digit prefixes defined above.
pub open spec fn resolution_parts(s: Seq<char>) -> Option<(Seq<char>, Seq<char>)> {
    match res_split_pos(s) {
        Some(p) => Some(
            (
                digit_prefix(trim_spec(s.subrange(0, p))),
                digit_prefix(trim_spec(s.subrange(p + 1, s.len() as int))),
            ),
        ),
        None => None,
    }
}

/// Parse a resolution of the form `WxH`, tolerating surrounding whitespace
/// and trailing annotations after the digits, as in `1920x1080 (60fps)`.
///
/// Returns the two parsed sides exactly when the string splits on `x` or
/// `X`, both sides start with digits whose value fits in `u32`, and neither
/// is zero.
pub fn parse_resolution(s: &str) -> (r: Result<(u32, u32), String>)
    ensures
        match r {
            Ok((w, h)) => {
                &&& resolution_parts(s@) is Some
                &&& {
                    let (wd, hd) = resolution_parts(s@).unwrap();
                    wd.len() > 0 && hd.len() > 0 && w == digits_val(wd) && h == digits_val(hd) && w
                        > 0 && h > 0
                }
            },
            Err(m) => resolution_parts(s@) is None || {
                let (wd, hd) = resolution_parts(s@).unwrap();
                wd.len() == 0 || hd.len() == 0 || digits_val(wd) > u32::MAX || digits_val(hd)
                    > u32::MAX || digits_val(wd) == 0 || digits_val(hd) == 0
            },
        },
{
    let v = str_chars(s);
    let split: Option<usize> = match find_first(&v, 'x') {
        Some(i) => Some(i),
        None => find_first(&v, 'X'),
    };
    let p: usize = match split {
        Some(i) => i,
        None => {
            let mut m = String::new();
            m.append("invalid resolution '");
            m.append(s);
            m.append("': expected WxH (e.g. 1920x1080)");
            return Err(m);
        },
    };
    let n = v.len();
    let w_part = copy_range(&v, 0, p);
    let h_part = copy_range(&v, p + 1, n);
    let w_digits = digit_prefix_chars(&trim_chars(&w_part));
    let h_digits = digit_prefix_chars(&trim_chars(&h_part));
    let w: u32 = match parse_u32_chars(&w_digits) {
        Some(x) => x,
        None => {
            let mut m = String::new();
            m.append("invalid width '");
            m.append(chars_to_string(w_part).as_str());
            m.append("': must be a positive integer");
            return Err(m);
        },
    };
    let h: u32 = match parse_u32_chars(&h_digits) {
        Some(x) => x,
        None => {
            let mut m = String::new();
            m.append("invalid height '");
            m.append(chars_to_string(h_part).as_str());
            m.append("': must be a positive integer");
            return Err(m);
        },
    };
    if w == 0 || h == 0 {
        let mut m = String::new();
        m.append("width and height must be non-zero");
        return Err(m);
    }
    Ok((w, h))
}

/// The settings a run is started with, resolved and validated.
#[derive(Debug)]
pub struct AppConfig {
    pub theme: ColorTheme,
    pub definition: u8,
    pub ascii_columns: u32,
    pub charset: Vec<char>,
    pub brightness_curve: BrightnessCurve,
    pub invert: bool,
    pub fps: u32,
    pub camera_index: u32,
    pub resolution: Option<(u32, u32)>,
    pub output_device: String,
}

/// The raw run options, as the command line hands them over.
#[derive(Debug)]
pub struct RunSettings {
    pub definition: u8,
    pub theme: String,
    pub fps: u32,
    pub resolution: Option<(u32, u32)>,
    pub camera_index: Option<u32>,
    pub output_device: String,
    pub fg_color: Option<String>,
    pub bg_color: Option<String>,
    pub brightness_curve: String,
    pub invert: bool,
}

impl AppConfig {
    /// Resolve raw run options into a validated configuration.
    ///
    /// The theme must exist, color overrides must be six-digit hexadecimal,
    /// and the curve must be a known name; the camera index falls back to
    /// the detected camera, then to zero.
    pub fn from_cli(args: RunSettings, detected_camera: Option<u32>) -> (r: Result<
        AppConfig,
        String,
    >)
        ensures
            match r {
                Ok(cfg) => {
                    &&& theme_colors(args.theme@) is Some
                    &&& cfg.theme.name@ == args.theme@
                    &&& cfg.theme.fg == (match args.fg_color {
                        Some(hx) => hex_color(hx@).unwrap(),
                        None => theme_colors(args.theme@).unwrap().0,
                    })
                    &&& cfg.theme.bg == (match args.bg_color {
                        Some(hx) => hex_color(hx@).unwrap(),
                        None => theme_colors(args.theme@).unwrap().1,
                    })
                    &&& (args.fg_color is Some ==> hex_color(args.fg_color.unwrap()@) is Some)
                    &&& (args.bg_color is Some ==> hex_color(args.bg_color.unwrap()@) is Some)
                    &&& cfg.definition == args.definition
                    &&& (args.theme@ == "matrix"@ ==> cfg.ascii_columns == matrix_columns(
                        args.definition,
                    ) && cfg.charset@ == matrix_chars())
                    &&& (args.theme@ != "matrix"@ ==> cfg.ascii_columns == plain_columns(
                        args.definition,
                    ) && cfg.charset@ == plain_chars(args.definition))
                    &&& cfg.invert == args.invert
                    &&& cfg.fps == args.fps
                    &&& cfg.camera_index == (match args.camera_index {
                        Some(i) => i,
                        None => match detected_camera {
                            Some(i) => i,
                            None => 0,
                        },
                    })
                    &&& cfg.resolution == args.resolution
                    &&& cfg.output_device@ == args.output_device@
                },
                Err(_) => theme_colors(args.theme@) is None || (args.fg_color is Some && hex_color(
                    args.fg_color.unwrap()@,
                ) is None) || (args.bg_color is Some && hex_color(args.bg_color.unwrap()@) is None)
                    || (args.brightness_curve@ != "linear"@ && args.brightness_curve@
                    != "exponential"@ && args.brightness_curve@ != "exp"@ && args.brightness_curve@
                    != "sigmoid"@),
            },
    {
        let mut theme = match ColorTheme::from_name(args.theme.as_str()) {
            Some(t) => t,
            None => {
                let mut m = String::new();
                m.append("Unknown theme '");
                m.append(args.theme.as_str());
                m.append("'. Available: mono, green, amber, blue, matrix, vaporwave, fire, color");
                return Err(m);
            },
        };
        match args.fg_color {
            Some(ref hx) => {
                match parse_hex_color(hx.as_str()) {
                    Some(c) => {
                        theme.fg = c;
                    },
                    None => {
                        let mut m = String::new();
                        m.append("Invalid foreground color '");
                        m.append(hx.as_str());
                        m.append("'. Use 6-digit hex (e.g. ff00ff)");
                        return Err(m);
                    },
                }
            },
            None => {},
        }
        match args.bg_color {
            Some(ref hx) => {
                match parse_hex_color(hx.as_str()) {
                    Some(c) => {
                        theme.bg = c;
                    },
                    None => {
                        let mut m = String::new();
                        m.append("Invalid background color '");
                        m.append(hx.as_str());
                        m.append("'. Use 6-digit hex (e.g. 001100)");
                        return Err(m);
                    },
                }
            },
            None => {},
        }
        let brightness_curve = match BrightnessCurve::from_name(args.brightness_curve.as_str()) {
            Some(c) => c,
            None => {
                let mut m = String::new();
                m.append("Unknown brightness curve '");
                m.append(args.brightness_curve.as_str());
                m.append("'. Available: linear, exponential, sigmoid");
                return Err(m);
            },
        };
        let (ascii_columns, charset) = definition_to_params(args.definition, args.theme.as_str());
        let camera_index: u32 = match args.camera_index {
            Some(i) => i,
            None => match detected_camera {
                Some(i) => i,
                None => 0,
            },
        };
        Ok(
            AppConfig {
                theme,
                definition: args.definition,
                ascii_columns,
                charset,
                brightness_curve,
                invert: args.invert,
                fps: args.fps,
                camera_index,
                resolution: args.resolution,
                output_device: args.output_device,
            },
        )
    }
}

} // verus!
