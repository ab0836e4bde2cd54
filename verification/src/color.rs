use vstd::prelude::*;
use vstd::string::StrSliceExecFns;
use vstd::string::StringExecFns;

verus! {

/// One color, held canonically as a `#RRGGBB` hex string (uppercase or
/// lowercase digits are accepted on input; re-encoded colors are uppercase).
#[derive(PartialEq, Eq, Debug)]
pub struct Color(pub String);

impl Clone for Color {
    fn clone(&self) -> (res: Self)
        ensures
            res == *self,
    {
        Color(self.0.clone())
    }
}

impl View for Color {
    type V = Seq<char>;

    open spec fn view(&self) -> Seq<char> {
        self.0@
    }
}

impl DeepView for Color {
    type V = Seq<char>;

    open spec fn deep_view(&self) -> Seq<char> {
        self.0@
    }
}

/// Value of a single hex digit, or -1 for any other character.
pub open spec fn hex_digit_value(c: char) -> int {
    match c {
        '0' => 0,
        '1' => 1,
        '2' => 2,
        '3' => 3,
        '4' => 4,
        '5' => 5,
        '6' => 6,
        '7' => 7,
        '8' => 8,
        '9' => 9,
        'a' | 'A' => 10,
        'b' | 'B' => 11,
        'c' | 'C' => 12,
        'd' | 'D' => 13,
        'e' | 'E' => 14,
        'f' | 'F' => 15,
        _ => -1,
    }
}

pub open spec fn is_hex_digit(c: char) -> bool {
    hex_digit_value(c) >= 0
}

/// A well-formed color string: `#` followed by six hex digits.
pub open spec fn is_hex_color(s: Seq<char>) -> bool {
    &&& s.len() == 7
    &&& s[0] == '#'
    &&& forall|i: int| 1 <= i < 7 ==> is_hex_digit(#[trigger] s[i])
}

/// The red channel (0..=255) encoded by a well-formed color string.
pub open spec fn red_channel(s: Seq<char>) -> int {
    16 * hex_digit_value(s[1]) + hex_digit_value(s[2])
}

/// The green channel (0..=255) encoded by a well-formed color string.
pub open spec fn green_channel(s: Seq<char>) -> int {
    16 * hex_digit_value(s[3]) + hex_digit_value(s[4])
}

/// The blue channel (0..=255) encoded by a well-formed color string.
pub open spec fn blue_channel(s: Seq<char>) -> int {
    16 * hex_digit_value(s[5]) + hex_digit_value(s[6])
}

/// Uppercase hex digit for a value in 0..=15.
pub open spec fn hex_char_of(v: int) -> char {
    if v == 0 {
        '0'
    } else if v == 1 {
        '1'
    } else if v == 2 {
        '2'
    } else if v == 3 {
        '3'
    } else if v == 4 {
        '4'
    } else if v == 5 {
        '5'
    } else if v == 6 {
        '6'
    } else if v == 7 {
        '7'
    } else if v == 8 {
        '8'
    } else if v == 9 {
        '9'
    } else if v == 10 {
        'A'
    } else if v == 11 {
        'B'
    } else if v == 12 {
        'C'
    } else if v == 13 {
        'D'
    } else if v == 14 {
        'E'
    } else {
        'F'
    }
}

/// Two-digit uppercase hex encoding of a channel value in 0..=255.
pub open spec fn hex_byte_chars(v: int) -> Seq<char> {
    seq![hex_char_of(v / 16), hex_char_of(v % 16)]
}

/// Canonical `#RRGGBB` encoding of three channel values.
pub open spec fn hex_color_chars(r: int, g: int, b: int) -> Seq<char> {
    seq!['#'] + hex_byte_chars(r) + hex_byte_chars(g) + hex_byte_chars(b)
}

fn hex_digit_val(c: char) -> (v: u8)
    requires
        is_hex_digit(c),
    ensures
        v as int == hex_digit_value(c),
        v < 16,
{
    match c {
        '0' => 0,
        '1' => 1,
        '2' => 2,
        '3' => 3,
        '4' => 4,
        '5' => 5,
        '6' => 6,
        '7' => 7,
        '8' => 8,
        '9' => 9,
        'a' | 'A' => 10,
        'b' | 'B' => 11,
        'c' | 'C' => 12,
        'd' | 'D' => 13,
        'e' | 'E' => 14,
        'f' | 'F' => 15,
        _ => {
            proof {
                assert(false);
            }
            0
        },
    }
}

fn is_hex_digit_exec(c: char) -> (b: bool)
    ensures
        b == is_hex_digit(c),
{
    match c {
        '0' | '1' | '2' | '3' | '4' | '5' | '6' | '7' | '8' | '9' => true,
        'a' | 'A' | 'b' | 'B' | 'c' | 'C' | 'd' | 'D' | 'e' | 'E' | 'f' | 'F' => true,
        _ => false,
    }
}

/// Runtime check for the well-formed color shape `#RRGGBB`.
pub fn is_hex_color_exec(s: &str) -> (b: bool)
    ensures
        b == is_hex_color(s@),
{
    if s.unicode_len() != 7 {
        return false;
    }
    if s.get_char(0) != '#' {
        return false;
    }
    let mut i: usize = 1;
    while i < 7
        invariant
            1 <= i <= 7,
            s@.len() == 7,
            s@[0] == '#',
            forall|j: int| 1 <= j < i ==> is_hex_digit(#[trigger] s@[j]),
        decreases 7 - i,
    {
        if !is_hex_digit_exec(s.get_char(i)) {
            return false;
        }
        i = i + 1;
    }
    true
}

fn hex_digit_str(v: u8) -> (s: &'static str)
    requires
        v < 16,
    ensures
        s@ =~= seq![hex_char_of(v as int)],
{
    if v == 0 {
        let s = "0";
        proof {
            reveal_strlit("0");
        }
        s
    } else if v == 1 {
        let s = "1";
        proof {
            reveal_strlit("1");
        }
        s
    } else if v == 2 {
        let s = "2";
        proof {
            reveal_strlit("2");
        }
        s
    } else if v == 3 {
        let s = "3";
        proof {
            reveal_strlit("3");
        }
        s
    } else if v == 4 {
        let s = "4";
        proof {
            reveal_strlit("4");
        }
        s
    } else if v == 5 {
        let s = "5";
        proof {
            reveal_strlit("5");
        }
        s
    } else if v == 6 {
        let s = "6";
        proof {
            reveal_strlit("6");
        }
        s
    } else if v == 7 {
        let s = "7";
        proof {
            reveal_strlit("7");
        }
        s
    } else if v == 8 {
        let s = "8";
        proof {
            reveal_strlit("8");
        }
        s
    } else if v == 9 {
        let s = "9";
        proof {
            reveal_strlit("9");
        }
        s
    } else if v == 10 {
        let s = "A";
        proof {
            reveal_strlit("A");
        }
        s
    } else if v == 11 {
        let s = "B";
        proof {
            reveal_strlit("B");
        }
        s
    } else if v == 12 {
        let s = "C";
        proof {
            reveal_strlit("C");
        }
        s
    } else if v == 13 {
        let s = "D";
        proof {
            reveal_strlit("D");
        }
        s
    } else if v == 14 {
        let s = "E";
        proof {
            reveal_strlit("E");
        }
        s
    } else {
        let s = "F";
        proof {
            reveal_strlit("F");
        }
        s
    }
}

/// Absolute difference of two integers.
pub open spec fn abs_diff(a: int, b: int) -> int {
    if a >= b {
        a - b
    } else {
        b - a
    }
}

/// Whether a color counts as near-grayscale: every pairwise channel
/// difference is within 0.02 of the normalized scale, i.e. at most 5/255.
pub open spec fn is_near_gray(r: int, g: int, b: int) -> bool {
    abs_diff(r, g) <= 5 && abs_diff(r, b) <= 5 && abs_diff(g, b) <= 5
}

/// Softened value of a near-gray color: the mean luminance, clamped to the
/// normalized range [0.20, 0.85] and rounded half away from zero back to a
/// channel value.
pub open spec fn gray_level(r: int, g: int, b: int) -> int {
    let sum = r + g + b;
    if sum < 153 {
        51
    } else if sum > 650 {
        217
    } else {
        (2 * sum + 3) / 6
    }
}

pub open spec fn max3(r: int, g: int, b: int) -> int {
    if r >= g && r >= b {
        r
    } else if g >= b {
        g
    } else {
        b
    }
}

pub open spec fn min3(r: int, g: int, b: int) -> int {
    if r <= g && r <= b {
        r
    } else if g <= b {
        g
    } else {
        b
    }
}

/// Numerator of the softened HSL lightness over the fixed denominator 510:
/// (max + min) / 510 clamped to [0.30, 0.80].
pub open spec fn light_num(r: int, g: int, b: int) -> int {
    let sum = max3(r, g, b) + min3(r, g, b);
    if sum < 153 {
        153
    } else if sum > 408 {
        408
    } else {
        sum
    }
}

/// Denominator of the raw HSL saturation delta / (1 - |2l - 1|), expressed
/// over channel sums: min(max + min, 510 - (max + min)).
pub open spec fn sat_den_raw(r: int, g: int, b: int) -> int {
    let sum = max3(r, g, b) + min3(r, g, b);
    if sum <= 255 {
        sum
    } else {
        510 - sum
    }
}

/// The softened HSL saturation as an exact fraction, clamped to [0.50, 0.80].
pub open spec fn sat_frac(r: int, g: int, b: int) -> (int, int) {
    let d = max3(r, g, b) - min3(r, g, b);
    let dn = sat_den_raw(r, g, b);
    if 2 * d < dn {
        (1, 2)
    } else if 5 * d > 4 * dn {
        (4, 5)
    } else {
        (d, dn)
    }
}

/// Numerator of the hue over the denominator delta: the hue in degrees is
/// exactly 60 * hue_num / delta, built from the standard six-case piecewise
/// formula, with the red-max case wrapped into [0, 6 * delta).
pub open spec fn hue_num(r: int, g: int, b: int) -> int {
    let mx = max3(r, g, b);
    let d = mx - min3(r, g, b);
    if r == mx {
        let t = g - b;
        if t < 0 {
            t + 6 * d
        } else {
            t
        }
    } else if g == mx {
        (b - r) + 2 * d
    } else {
        (r - g) + 4 * d
    }
}

/// Round 255 * (num / den) half away from zero, for 0 <= num and 0 < den.
pub open spec fn round_channel(num: int, den: int) -> int {
    (510 * num + den) / (2 * den)
}

/// The softened channels of a non-gray color: convert to HSL exactly, clamp
/// lightness to [0.30, 0.80] and saturation to [0.50, 0.80], convert back via
/// the standard chroma/x/m construction, and round each channel. All values
/// are exact fractions over the common denominator 1020 * sd * delta.
/// The back-conversion half of the softening transform, over the derived
/// HSL parameters: spread `d`, clamped lightness numerator `ln` (over 510),
/// clamped saturation `sn / sd`, and hue numerator `hn` (over `d`).
pub open spec fn strain_rgb_from(d: int, ln: int, sn: int, sd: int, hn: int) -> (int, int, int) {
    let a = 510 - abs_diff(2 * ln, 510);
    let u = hn % (2 * d);
    let xf = d - abs_diff(u, d);
    let cn = 2 * a * sn * d;
    let xn = 2 * a * sn * xf;
    let mn_ = 2 * ln * sd * d - a * sn * d;
    let dall = 1020 * sd * d;
    let (vr, vg, vb) = if hn < d {
        (cn, xn, 0)
    } else if hn < 2 * d {
        (xn, cn, 0)
    } else if hn < 3 * d {
        (0, cn, xn)
    } else if hn < 4 * d {
        (0, xn, cn)
    } else if hn < 5 * d {
        (xn, 0, cn)
    } else {
        (cn, 0, xn)
    };
    (
        round_channel(vr + mn_, dall),
        round_channel(vg + mn_, dall),
        round_channel(vb + mn_, dall),
    )
}

pub open spec fn strain_rgb(r: int, g: int, b: int) -> (int, int, int) {
    strain_rgb_from(
        max3(r, g, b) - min3(r, g, b),
        light_num(r, g, b),
        sat_frac(r, g, b).0,
        sat_frac(r, g, b).1,
        hue_num(r, g, b),
    )
}

/// The softened color of any well-formed color, by channel values.
pub open spec fn strain_of_channels(r: int, g: int, b: int) -> Seq<char> {
    if is_near_gray(r, g, b) {
        let v = gray_level(r, g, b);
        hex_color_chars(v, v, v)
    } else {
        let (rr, gg, bb) = strain_rgb(r, g, b);
        hex_color_chars(rr, gg, bb)
    }
}

/// What `reduce_strain` returns for a well-formed color string.
pub open spec fn spec_reduce_strain(s: Seq<char>) -> Seq<char> {
    strain_of_channels(red_channel(s), green_channel(s), blue_channel(s))
}

/// Re-encode three channel values as a canonical uppercase `#RRGGBB` string.
fn encode_hex_color(r: u8, g: u8, b: u8) -> (s: String)
    ensures
        s@ == hex_color_chars(r as int, g as int, b as int),
        is_hex_color(s@),
{
    let mut s = String::new();
    proof {
        reveal_strlit("#");
    }
    s.append("#");
    s.append(hex_digit_str(r / 16));
    s.append(hex_digit_str(r % 16));
    s.append(hex_digit_str(g / 16));
    s.append(hex_digit_str(g % 16));
    s.append(hex_digit_str(b / 16));
    s.append(hex_digit_str(b % 16));
    proof {
        assert(s@ =~= hex_color_chars(r as int, g as int, b as int));
        assert forall|i: int| 1 <= i < 7 implies is_hex_digit(#[trigger] s@[i]) by {
            assert(forall|v: int| 0 <= v < 16 ==> is_hex_digit(#[trigger] hex_char_of(v)));
        }
    }
    s
}

proof fn lemma_mul_le(x: int, xb: int, y: int, yb: int)
    by (nonlinear_arith)
    requires
        0 <= x <= xb,
        0 <= y <= yb,
    ensures
        0 <= x * y <= xb * yb,
{
}

proof fn lemma_strain_sum_bound(
    ln: int,
    sn: int,
    sd: int,
    d: int,
    a: int,
    asn: int,
    asnd: int,
    lsdd: int,
    dall: int,
)
    by (nonlinear_arith)
    requires
        153 <= ln <= 408,
        1 <= sn,
        sn <= sd,
        1 <= sd,
        1 <= d,
        2 * ln < 510 ==> a == 2 * ln,
        2 * ln >= 510 ==> a == 1020 - 2 * ln,
        asn == a * sn,
        asnd == asn * d,
        lsdd == (2 * ln * sd) * d,
        dall == (1020 * sd) * d,
    ensures
        asnd <= lsdd,
        2 * asnd + (lsdd - asnd) <= dall,
        1 <= dall,
{
}

proof fn lemma_round_channel_bound(num: int, den: int)
    by (nonlinear_arith)
    requires
        1 <= den,
        0 <= num <= den,
    ensures
        0 <= (510 * num + den) / (2 * den) <= 255,
{
}

/// The back-conversion half of the softening transform, by exact integer
/// arithmetic over the derived HSL parameters.
#[verifier::rlimit(100)]
#[verifier::spinoff_prover]
fn strain_mix(d: u64, ln: u64, sn: u64, sd: u64, hn: u64) -> (out: (u8, u8, u8))
    requires
        1 <= d <= 255,
        153 <= ln <= 408,
        1 <= sn,
        sn <= sd,
        sd <= 255,
        hn < 6 * d,
    ensures
        (out.0 as int, out.1 as int, out.2 as int) == strain_rgb_from(
            d as int,
            ln as int,
            sn as int,
            sd as int,
            hn as int,
        ),
{
    let a = if 2 * ln >= 510 {
        1020 - 2 * ln
    } else {
        2 * ln
    };
    assert(a as int == 510 - abs_diff(2 * ln as int, 510));
    assert(204 <= a <= 510);
    let u = hn % (2 * d);
    let xf = if u >= d {
        2 * d - u
    } else {
        u
    };
    proof {
        assert(u < 2 * d);
        assert(xf as int == d - abs_diff(u as int, d as int));
        assert(xf <= d);
    }
    proof {
        lemma_mul_le(a as int, 510, sn as int, 255);
    }
    let asn = a * sn;
    proof {
        lemma_mul_le(asn as int, (510 * 255) as int, d as int, 255);
    }
    let asnd = asn * d;
    let cn = 2 * asnd;
    proof {
        lemma_mul_le(asn as int, (510 * 255) as int, xf as int, 255);
        lemma_mul_le(asn as int, asn as int, xf as int, d as int);
    }
    let axf = asn * xf;
    let xn = 2 * axf;
    assert(xn <= cn);
    proof {
        lemma_mul_le(2 * ln as int, 816int, sd as int, 255);
    }
    let lsd = 2 * ln * sd;
    proof {
        lemma_mul_le(lsd as int, (816 * 255) as int, d as int, 255);
    }
    let lsdd = lsd * d;
    let tsd = 1020 * sd;
    proof {
        lemma_mul_le(tsd as int, (1020 * 255) as int, d as int, 255);
    }
    let dall = tsd * d;
    proof {
        lemma_strain_sum_bound(
            ln as int,
            sn as int,
            sd as int,
            d as int,
            a as int,
            asn as int,
            asnd as int,
            lsdd as int,
            dall as int,
        );
        assert(cn as int == 2 * (a as int) * (sn as int) * (d as int)) by (nonlinear_arith)
            requires
                cn as int == 2 * (asnd as int),
                asnd as int == (asn as int) * (d as int),
                asn as int == (a as int) * (sn as int),
        ;
        assert(xn as int == 2 * (a as int) * (sn as int) * (xf as int)) by (nonlinear_arith)
            requires
                xn as int == 2 * (axf as int),
                axf as int == (asn as int) * (xf as int),
                asn as int == (a as int) * (sn as int),
        ;
    }
    let mnum = lsdd - asnd;
    let (vr, vg, vb) = if hn < d {
        (cn, xn, 0)
    } else if hn < 2 * d {
        (xn, cn, 0)
    } else if hn < 3 * d {
        (0, cn, xn)
    } else if hn < 4 * d {
        (0, xn, cn)
    } else if hn < 5 * d {
        (xn, 0, cn)
    } else {
        (cn, 0, xn)
    };
    proof {
        lemma_round_channel_bound(vr as int + mnum as int, dall as int);
        lemma_round_channel_bound(vg as int + mnum as int, dall as int);
        lemma_round_channel_bound(vb as int + mnum as int, dall as int);
    }
    let rr = ((510 * (vr + mnum) + dall) / (2 * dall)) as u8;
    let gg = ((510 * (vg + mnum) + dall) / (2 * dall)) as u8;
    let bb = ((510 * (vb + mnum) + dall) / (2 * dall)) as u8;
    (rr, gg, bb)
}

/// The softened channels of a non-gray color: derive the exact HSL
/// parameters, then convert back.
#[verifier::rlimit(50)]
#[verifier::spinoff_prover]
fn strain_channels(r: u8, g: u8, b: u8) -> (out: (u8, u8, u8))
    requires
        !is_near_gray(r as int, g as int, b as int),
    ensures
        (out.0 as int, out.1 as int, out.2 as int) == strain_rgb(r as int, g as int, b as int),
{
    let ri = r as u64;
    let gi = g as u64;
    let bi = b as u64;
    let mx = if ri >= gi && ri >= bi {
        ri
    } else if gi >= bi {
        gi
    } else {
        bi
    };
    let mn = if ri <= gi && ri <= bi {
        ri
    } else if gi <= bi {
        gi
    } else {
        bi
    };
    let d = mx - mn;
    proof {
        assert(mx == max3(r as int, g as int, b as int));
        assert(mn == min3(r as int, g as int, b as int));
        // a zero spread would mean all channels are equal, i.e. near-gray
        assert(d >= 1);
    }
    let sum = mx + mn;
    assert(1 <= sum <= 509);
    let ln = if sum < 153 {
        153
    } else if sum > 408 {
        408
    } else {
        sum
    };
    let sdr = if sum <= 255 {
        sum
    } else {
        510 - sum
    };
    assert(1 <= sdr <= 255);
    let (sn, sd) = if 2 * d < sdr {
        (1, 2)
    } else if 5 * d > 4 * sdr {
        (4, 5)
    } else {
        (d, sdr)
    };
    assert(1 <= sn <= sd && sd <= 255);
    let hn = if ri == mx {
        if gi >= bi {
            gi - bi
        } else {
            6 * d - (bi - gi)
        }
    } else if gi == mx {
        (bi + 2 * d) - ri
    } else {
        (ri + 4 * d) - gi
    };
    proof {
        assert(hn as int == hue_num(r as int, g as int, b as int));
        assert(hn < 6 * d);
        assert(ln as int == light_num(r as int, g as int, b as int));
        assert(sn as int == sat_frac(r as int, g as int, b as int).0);
        assert(sd as int == sat_frac(r as int, g as int, b as int).1);
    }
    strain_mix(d, ln, sn, sd, hn)
}

/// Soften a color toward a calmer palette: near-gray colors keep their hue
/// and get their luminance clamped to [0.20, 0.85]; all others are converted
/// to HSL exactly, have lightness clamped to [0.30, 0.80] and saturation to
/// [0.50, 0.80], and are converted back, rounding each channel half away
/// from zero. Pure and deterministic.
pub fn reduce_strain(hex: &str) -> (res: String)
    requires
        is_hex_color(hex@),
    ensures
        res@ == spec_reduce_strain(hex@),
        is_hex_color(res@),
{
    let r = 16 * hex_digit_val(hex.get_char(1)) + hex_digit_val(hex.get_char(2));
    let g = 16 * hex_digit_val(hex.get_char(3)) + hex_digit_val(hex.get_char(4));
    let b = 16 * hex_digit_val(hex.get_char(5)) + hex_digit_val(hex.get_char(6));
    let dr_g = if r >= g {
        r - g
    } else {
        g - r
    };
    let dr_b = if r >= b {
        r - b
    } else {
        b - r
    };
    let dg_b = if g >= b {
        g - b
    } else {
        b - g
    };
    if dr_g <= 5 && dr_b <= 5 && dg_b <= 5 {
        let sum = r as u32 + g as u32 + b as u32;
        let v = if sum < 153 {
            51
        } else if sum > 650 {
            217
        } else {
            ((2 * sum + 3) / 6) as u8
        };
        assert(v as int == gray_level(r as int, g as int, b as int));
        encode_hex_color(v, v, v)
    } else {
        let (rr, gg, bb) = strain_channels(r, g, b);
        encode_hex_color(rr, gg, bb)
    }
}

/// Strain-reduction law for near-gray colors: the result is an exact gray
/// whose single channel value is the rounded mean luminance clamped to the
/// normalized range [0.20, 0.85], i.e. a value in [51, 217].
pub proof fn lemma_strain_gray(s: Seq<char>)
    requires
        is_hex_color(s),
        is_near_gray(red_channel(s), green_channel(s), blue_channel(s)),
    ensures
        spec_reduce_strain(s) == hex_color_chars(
            gray_level(red_channel(s), green_channel(s), blue_channel(s)),
            gray_level(red_channel(s), green_channel(s), blue_channel(s)),
            gray_level(red_channel(s), green_channel(s), blue_channel(s)),
        ),
        51 <= gray_level(red_channel(s), green_channel(s), blue_channel(s)) <= 217,
{
}

/// Strain-reduction law for all other colors: the softened lightness lies
/// in the normalized range [0.30, 0.80] (its numerator over 510 lies in
/// [153, 408]) and the softened saturation in [0.50, 0.80] (as a positive
/// fraction `sn / sd` with `sd <= 2 * sn` and `5 * sn <= 4 * sd`).
pub proof fn lemma_strain_bounds(s: Seq<char>)
    requires
        is_hex_color(s),
        !is_near_gray(red_channel(s), green_channel(s), blue_channel(s)),
    ensures
        153 <= light_num(red_channel(s), green_channel(s), blue_channel(s)) <= 408,
        1 <= sat_frac(red_channel(s), green_channel(s), blue_channel(s)).0,
        1 <= sat_frac(red_channel(s), green_channel(s), blue_channel(s)).1,
        sat_frac(red_channel(s), green_channel(s), blue_channel(s)).1 <= 2 * sat_frac(
            red_channel(s),
            green_channel(s),
            blue_channel(s),
        ).0,
        5 * sat_frac(red_channel(s), green_channel(s), blue_channel(s)).0 <= 4 * sat_frac(
            red_channel(s),
            green_channel(s),
            blue_channel(s),
        ).1,
{
    let r = red_channel(s);
    let g = green_channel(s);
    let b = blue_channel(s);
    assert(0 <= hex_digit_value(s[1]) <= 15);
    assert(0 <= hex_digit_value(s[2]) <= 15);
    assert(0 <= hex_digit_value(s[3]) <= 15);
    assert(0 <= hex_digit_value(s[4]) <= 15);
    assert(0 <= hex_digit_value(s[5]) <= 15);
    assert(0 <= hex_digit_value(s[6]) <= 15);
    assert(0 <= r <= 255 && 0 <= g <= 255 && 0 <= b <= 255);
    let mx = max3(r, g, b);
    let mn = min3(r, g, b);
    let d = mx - mn;
    assert(d >= 1);
    assert(1 <= mx + mn <= 509);
}

} // verus!
