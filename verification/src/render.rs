use crate::CANVAS_HEIGHT;
use crate::CANVAS_WIDTH;
use crate::color::Color;
use crate::color::is_hex_color;
use crate::color::reduce_strain;
use crate::color::spec_reduce_strain;
use crate::flag_lib::FlagData;
use crate::flag_lib::Position;
use crate::flag_lib::SymbolModel;
use crate::flag_lib::flag_wf;
use crate::flag_lib::spec_compatible;
use vstd::prelude::*;

verus! {

/// An exact ratio of two canvas quantities, kept unreduced so that the
/// renderer can decide its own precision.
#[derive(PartialEq, Eq, Structural, Clone, Copy, Debug)]
pub struct Fraction {
    pub num: u64,
    pub den: u64,
}

/// One gradient stop: its offset along the stripe as a fraction of 100
/// percent, and its color.
#[derive(PartialEq, Eq, Debug)]
pub struct GradientStop {
    pub offset: Fraction,
    pub color: String,
}

/// How one stripe is painted: a single flat color, or a horizontal linear
/// gradient running from `x1` percent to `x2` percent (top-aligned, y fixed
/// at zero percent) through the listed stops.
#[derive(PartialEq, Eq, Debug)]
pub enum StripeFill {
    Solid { color: String },
    Gradient { x1: u8, x2: u8, stops: Vec<GradientStop> },
}

/// One drawable stripe: its height and vertical offset as exact fractions
/// of the canvas height, and its fill.
#[derive(PartialEq, Eq, Debug)]
pub struct StripeDesc {
    pub height: Fraction,
    pub y_offset: Fraction,
    pub fill: StripeFill,
}

/// A horizontal flip around the vertical line at `translate_x`: the
/// transform `translate(translate_x, 0) scale(-1, 1)`.
#[derive(PartialEq, Eq, Structural, Clone, Copy, Debug)]
pub struct FlipTransform {
    pub translate_x: i32,
}

/// One drawable symbol: the asset key to resolve externally, its placement
/// rectangle, and an optional horizontal flip.
#[derive(PartialEq, Eq, Debug)]
pub struct SymbolDesc {
    pub asset: String,
    pub x: i32,
    pub y: i32,
    pub width: i32,
    pub height: i32,
    pub flip: Option<FlipTransform>,
}

/// Display options for one render: whether symbols are drawn, whether
/// colors are softened, the gradient softness in [0, 49], and a blur radius
/// passed through as a rendering hint.
#[derive(PartialEq, Eq, Structural, Clone, Copy, Debug)]
pub struct RenderOptions {
    pub show_symbols: bool,
    pub reduce_strain: bool,
    pub softness: u8,
    pub blur: u32,
}

/// Everything an external renderer needs for one flag, in paint order:
/// stripes first, then symbols, plus the blur hint and an opacity hint in
/// percent (dimmed to 40 when an incompatible partner flag is selected).
#[derive(PartialEq, Eq, Debug)]
pub struct RenderPlan {
    pub stripes: Vec<StripeDesc>,
    pub symbols: Vec<SymbolDesc>,
    pub blur: u32,
    pub opacity_percent: u8,
}

/// A stop color after the optional strain reduction.
pub open spec fn apply_strain(c: Seq<char>, on: bool) -> Seq<char> {
    if on {
        spec_reduce_strain(c)
    } else {
        c
    }
}

/// What the stripe descriptor at index `i` of `n` must say for a stripe
/// whose gradient band is `band`: height and offset are exact fractions of
/// the 150-unit canvas height; a one-color band is painted flat; a longer
/// band becomes a gradient from `49 - softness` to `51 + softness` percent
/// with evenly spaced stops.
pub open spec fn stripe_desc_ok(
    d: StripeDesc,
    band: Seq<Seq<char>>,
    i: int,
    n: int,
    opts: RenderOptions,
) -> bool {
    &&& d.height.num == 150
    &&& d.height.den as int == n
    &&& d.y_offset.num as int == 150 * i
    &&& d.y_offset.den as int == n
    &&& match d.fill {
        StripeFill::Solid { color } => band.len() == 1 && color@ == apply_strain(
            band[0],
            opts.reduce_strain,
        ),
        StripeFill::Gradient { x1, x2, stops } => {
            &&& band.len() >= 2
            &&& x1 as int == 49 - opts.softness as int
            &&& x2 as int == 51 + opts.softness as int
            &&& stops@.len() == band.len()
            &&& forall|j: int|
                0 <= j < stops@.len() ==> (#[trigger] stops@[j]).offset.num as int == 100 * j
                    && stops@[j].offset.den as int == band.len() - 1 && stops@[j].color@
                    == apply_strain(band[j], opts.reduce_strain)
        },
    }
}

/// What the symbol descriptor for one placement must say: the rectangle of
/// the matching context (the merged-right rectangle is the merged-left one
/// mirrored around the canvas width), and a flip transform exactly when a
/// mirrored symbol sits in the merged-right context.
pub open spec fn symbol_desc_ok(d: SymbolDesc, entry: (SymbolModel, Position)) -> bool {
    let sym = entry.0;
    &&& d.asset@ == sym.src
    &&& match entry.1 {
        Position::Single => {
            &&& d.x == sym.single.x
            &&& d.y == sym.single.y
            &&& d.width == sym.single.width
            &&& d.height == sym.single.height
            &&& d.flip is None
        },
        Position::MergedLeft => {
            &&& d.x == sym.merged_left.x
            &&& d.y == sym.merged_left.y
            &&& d.width == sym.merged_left.width
            &&& d.height == sym.merged_left.height
            &&& d.flip is None
        },
        Position::MergedRight => {
            &&& d.x as int == 250 - sym.merged_left.x - sym.merged_left.width
            &&& d.y == sym.merged_left.y
            &&& d.width == sym.merged_left.width
            &&& d.height == sym.merged_left.height
            &&& d.flip == (if sym.mirror {
                Some(FlipTransform { translate_x: d.x })
            } else {
                None::<FlipTransform>
            })
        },
    }
}

fn strain_color(c: &Color, on: bool) -> (s: String)
    requires
        is_hex_color(c@),
    ensures
        s@ == apply_strain(c@, on),
{
    if on {
        reduce_strain(c.0.as_str())
    } else {
        c.0.clone()
    }
}

/// Project one (possibly mixed) flag and the display options onto a flat
/// list of drawable primitives for a 250 by 150 canvas. The optional
/// `other` flag is the partner selected in the other slot, used only to dim
/// this flag when the pair is incompatible.
pub fn project(flag: &FlagData, options: &RenderOptions, other: Option<&FlagData>) -> (plan:
    RenderPlan)
    requires
        flag_wf(flag@),
        options.softness <= 49,
        flag@.lines.len() < u32::MAX,
        forall|i: int| 0 <= i < flag@.lines.len() ==> (#[trigger] flag@.lines[i]).len() < u32::MAX,
        forall|i: int|
            0 <= i < flag@.symbols.len() ==> i32::MIN <= 250 - (#[trigger] flag@.symbols[i]).0.merged_left.x <= i32::MAX
                && i32::MIN <= 250 - flag@.symbols[i].0.merged_left.x
                - flag@.symbols[i].0.merged_left.width <= i32::MAX,
        match other {
            Some(o) => o@.lines.len() < usize::MAX,
            None => true,
        },
    ensures
        plan.stripes@.len() == flag@.lines.len(),
        forall|i: int|
            0 <= i < flag@.lines.len() ==> stripe_desc_ok(
                #[trigger] plan.stripes@[i],
                flag@.lines[i],
                i,
                flag@.lines.len() as int,
                *options,
            ),
        options.show_symbols ==> plan.symbols@.len() == flag@.symbols.len(),
        options.show_symbols ==> forall|i: int|
            0 <= i < flag@.symbols.len() ==> symbol_desc_ok(
                #[trigger] plan.symbols@[i],
                flag@.symbols[i],
            ),
        !options.show_symbols ==> plan.symbols@.len() == 0,
        plan.blur == options.blur,
        plan.opacity_percent as int == (match other {
            Some(o) => {
                if spec_compatible(flag@.lines.len() as int, o@.lines.len() as int) {
                    100int
                } else {
                    40int
                }
            },
            None => 100int,
        }),
{
    let n = flag.lines.len();
    let hardness = 49 - options.softness;
    let x2 = 100 - hardness;
    let mut stripes: Vec<StripeDesc> = Vec::new();
    let mut i: usize = 0;
    while i < n
        invariant
            0 <= i <= n,
            n == flag@.lines.len(),
            n < u32::MAX,
            flag_wf(flag@),
            forall|t: int|
                0 <= t < flag@.lines.len() ==> (#[trigger] flag@.lines[t]).len() < u32::MAX,
            options.softness <= 49,
            hardness == 49 - options.softness,
            x2 == 100 - hardness,
            stripes@.len() == i,
            forall|t: int|
                0 <= t < i ==> stripe_desc_ok(
                    #[trigger] stripes@[t],
                    flag@.lines[t],
                    t,
                    n as int,
                    *options,
                ),
        decreases n - i,
    {
        let band = &flag.lines[i];
        proof {
            assert(band.deep_view() == flag@.lines[i as int]);
            assert(flag@.lines[i as int].len() >= 1);
        }
        let height = Fraction { num: CANVAS_HEIGHT, den: n as u64 };
        let y_offset = Fraction { num: CANVAS_HEIGHT * (i as u64), den: n as u64 };
        let fill = if band.len() == 1 {
            proof {
                assert(band@[0].deep_view() == flag@.lines[i as int][0]);
                assert(is_hex_color(flag@.lines[i as int][0]));
            }
            StripeFill::Solid { color: strain_color(&band[0], options.reduce_strain) }
        } else {
            let stop_count = band.len();
            let mut stops: Vec<GradientStop> = Vec::new();
            let mut j: usize = 0;
            while j < stop_count
                invariant
                    0 <= j <= stop_count,
                    0 <= i < flag@.lines.len(),
                    flag_wf(flag@),
                    band.deep_view() == flag@.lines[i as int],
                    2 <= stop_count == band@.len(),
                    stop_count < u32::MAX,
                    stops@.len() == j,
                    forall|t: int|
                        0 <= t < j ==> (#[trigger] stops@[t]).offset.num as int == 100 * t
                            && stops@[t].offset.den as int == band@.len() - 1 && stops@[t].color@
                            == apply_strain(
                            flag@.lines[i as int][t],
                            options.reduce_strain,
                        ),
                decreases stop_count - j,
            {
                proof {
                    assert(band@[j as int].deep_view() == flag@.lines[i as int][j as int]);
                    assert(is_hex_color(flag@.lines[i as int][j as int]));
                }
                let c = strain_color(&band[j], options.reduce_strain);
                stops.push(
                    GradientStop {
                        offset: Fraction { num: 100 * (j as u64), den: (stop_count - 1) as u64 },
                        color: c,
                    },
                );
                j = j + 1;
            }
            StripeFill::Gradient { x1: hardness, x2, stops }
        };
        stripes.push(StripeDesc { height, y_offset, fill });
        proof {
            assert(stripe_desc_ok(
                stripes@[i as int],
                flag@.lines[i as int],
                i as int,
                n as int,
                *options,
            ));
        }
        i = i + 1;
    }
    let mut symbols: Vec<SymbolDesc> = Vec::new();
    if options.show_symbols {
        let mut k: usize = 0;
        while k < flag.symbols.len()
            invariant
                0 <= k <= flag.symbols@.len(),
                flag@.symbols.len() == flag.symbols@.len(),
                forall|t: int|
                    0 <= t < flag@.symbols.len() ==> i32::MIN <= 250 - (#[trigger] flag@.symbols[t]).0.merged_left.x <= i32::MAX
                        && i32::MIN <= 250 - flag@.symbols[t].0.merged_left.x
                        - flag@.symbols[t].0.merged_left.width <= i32::MAX,
                symbols@.len() == k,
                forall|t: int|
                    0 <= t < k ==> symbol_desc_ok(#[trigger] symbols@[t], flag@.symbols[t]),
            decreases flag.symbols@.len() - k,
        {
            let entry = &flag.symbols[k];
            let sym = &entry.0;
            proof {
                assert(flag@.symbols[k as int] == (sym@, entry.1));
            }
            let desc = match entry.1 {
                Position::Single => SymbolDesc {
                    asset: sym.src.clone(),
                    x: sym.single.x,
                    y: sym.single.y,
                    width: sym.single.width,
                    height: sym.single.height,
                    flip: None,
                },
                Position::MergedLeft => SymbolDesc {
                    asset: sym.src.clone(),
                    x: sym.merged_left.x,
                    y: sym.merged_left.y,
                    width: sym.merged_left.width,
                    height: sym.merged_left.height,
                    flip: None,
                },
                Position::MergedRight => {
                    let rect = sym.get_merged_right(CANVAS_WIDTH);
                    SymbolDesc {
                        asset: sym.src.clone(),
                        x: rect.x,
                        y: rect.y,
                        width: rect.width,
                        height: rect.height,
                        flip: if sym.mirror {
                            Some(FlipTransform { translate_x: rect.x })
                        } else {
                            None
                        },
                    }
                },
            };
            symbols.push(desc);
            k = k + 1;
        }
    }
    let opacity_percent: u8 = match other {
        Some(o) => {
            if FlagData::is_compatible(flag, o) {
                100
            } else {
                40
            }
        },
        None => 100,
    };
    RenderPlan { stripes, symbols, blur: options.blur, opacity_percent }
}

} // verus!
