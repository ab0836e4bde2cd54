use pride_kitchen::flag_lib::{FlagData, FlagDataJSON, Position, SymbolData, Transform};
use pride_kitchen::render::{
    Fraction, FlipTransform, RenderOptions, StripeFill, project,
};

fn simple_flag(lines: &[&str]) -> FlagData {
    FlagData::from_json(&FlagDataJSON {
        full_name: String::from("Flag"),
        name: String::from("F"),
        lines: lines.iter().map(|l| String::from(*l)).collect(),
        categories: Vec::new(),
        symbol: None,
    })
    .unwrap()
}

fn options() -> RenderOptions {
    RenderOptions { show_symbols: true, reduce_strain: false, softness: 39, blur: 0 }
}

#[test]
fn stripes_divide_the_canvas_height() {
    let f = simple_flag(&["#FF0000", "#FFFFFF", "#0000FF"]);
    let plan = project(&f, &options(), None);
    assert_eq!(plan.stripes.len(), 3);
    for (i, stripe) in plan.stripes.iter().enumerate() {
        assert_eq!(stripe.height, Fraction { num: 150, den: 3 });
        assert_eq!(stripe.y_offset, Fraction { num: 150 * i as u64, den: 3 });
    }
    let colors: Vec<&str> = plan
        .stripes
        .iter()
        .map(|s| match &s.fill {
            StripeFill::Solid { color } => color.as_str(),
            StripeFill::Gradient { .. } => panic!("expected a flat stripe"),
        })
        .collect();
    assert_eq!(colors, vec!["#FF0000", "#FFFFFF", "#0000FF"]);
    assert_eq!(plan.blur, 0);
    assert_eq!(plan.opacity_percent, 100);
}

#[test]
fn mixed_bands_become_gradients() {
    let a = simple_flag(&["#FF0000", "#FFFFFF"]);
    let mut b = simple_flag(&["#000000", "#00FF00"]);
    b.name = String::from("G");
    let m = FlagData::mix(&a, &b).unwrap();
    let plan = project(&m, &options(), None);
    assert_eq!(plan.stripes.len(), 2);
    match &plan.stripes[0].fill {
        StripeFill::Gradient { x1, x2, stops } => {
            // hardness = 49 - 39 = 10, so the band runs from 10% to 90%
            assert_eq!(*x1, 10);
            assert_eq!(*x2, 90);
            assert_eq!(stops.len(), 2);
            assert_eq!(stops[0].offset, Fraction { num: 0, den: 1 });
            assert_eq!(stops[0].color, "#FF0000");
            assert_eq!(stops[1].offset, Fraction { num: 100, den: 1 });
            assert_eq!(stops[1].color, "#000000");
        },
        StripeFill::Solid { .. } => panic!("expected a gradient stripe"),
    }
}

#[test]
fn gradient_stops_are_evenly_spaced() {
    let mut f = simple_flag(&["#FF0000"]);
    // one stripe holding four gradient stops
    f.lines[0].push(pride_kitchen::color::Color(String::from("#FFFFFF")));
    f.lines[0].push(pride_kitchen::color::Color(String::from("#0000FF")));
    f.lines[0].push(pride_kitchen::color::Color(String::from("#000000")));
    let plan = project(&f, &options(), None);
    match &plan.stripes[0].fill {
        StripeFill::Gradient { stops, .. } => {
            let offsets: Vec<Fraction> = stops.iter().map(|s| s.offset).collect();
            assert_eq!(
                offsets,
                vec![
                    Fraction { num: 0, den: 3 },
                    Fraction { num: 100, den: 3 },
                    Fraction { num: 200, den: 3 },
                    Fraction { num: 300, den: 3 },
                ]
            );
        },
        StripeFill::Solid { .. } => panic!("expected a gradient stripe"),
    }
}

#[test]
fn strain_reduction_applies_to_stripe_colors() {
    let f = simple_flag(&["#FF0000"]);
    let mut opts = options();
    opts.reduce_strain = true;
    let plan = project(&f, &opts, None);
    match &plan.stripes[0].fill {
        StripeFill::Solid { color } => assert_eq!(color, "#E61A1A"),
        StripeFill::Gradient { .. } => panic!("expected a flat stripe"),
    }
}

fn symbol_flag(position: Position, mirror: bool) -> FlagData {
    let mut f = simple_flag(&["#FF0000"]);
    f.symbols.push((
        SymbolData {
            src: String::from("heart.svg"),
            single: Transform { x: 100, y: 55, width: 50, height: 40 },
            merged_left: Transform { x: 10, y: 20, width: 30, height: 40 },
            mirror,
        },
        position,
    ));
    f
}

#[test]
fn merged_right_symbol_is_mirrored_and_flipped() {
    let f = symbol_flag(Position::MergedRight, true);
    let plan = project(&f, &options(), None);
    assert_eq!(plan.symbols.len(), 1);
    let s = &plan.symbols[0];
    assert_eq!(s.asset, "heart.svg");
    assert_eq!((s.x, s.y, s.width, s.height), (210, 20, 30, 40));
    assert_eq!(s.flip, Some(FlipTransform { translate_x: 210 }));
}

#[test]
fn merged_right_symbol_without_mirror_has_no_flip() {
    let f = symbol_flag(Position::MergedRight, false);
    let plan = project(&f, &options(), None);
    assert_eq!((plan.symbols[0].x, plan.symbols[0].y), (210, 20));
    assert_eq!(plan.symbols[0].flip, None);
}

#[test]
fn single_and_merged_left_symbols_use_their_own_rects() {
    let f = symbol_flag(Position::Single, true);
    let plan = project(&f, &options(), None);
    let s = &plan.symbols[0];
    assert_eq!((s.x, s.y, s.width, s.height), (100, 55, 50, 40));
    assert_eq!(s.flip, None);

    let g = symbol_flag(Position::MergedLeft, true);
    let plan2 = project(&g, &options(), None);
    let s2 = &plan2.symbols[0];
    assert_eq!((s2.x, s2.y, s2.width, s2.height), (10, 20, 30, 40));
    assert_eq!(s2.flip, None);
}

#[test]
fn symbols_are_omitted_when_hidden() {
    let f = symbol_flag(Position::Single, false);
    let mut opts = options();
    opts.show_symbols = false;
    let plan = project(&f, &opts, None);
    assert!(plan.symbols.is_empty());
}

#[test]
fn incompatible_partner_dims_the_flag() {
    let three = simple_flag(&["#FF0000", "#FFFFFF", "#0000FF"]);
    let six = simple_flag(&[
        "#000000", "#FFFFFF", "#000000", "#FFFFFF", "#000000", "#FFFFFF",
    ]);
    let plan = project(&three, &options(), Some(&six));
    assert_eq!(plan.opacity_percent, 40);
    let two = simple_flag(&["#FF0000", "#0000FF"]);
    let four = simple_flag(&["#000000", "#FFFFFF", "#000000", "#FFFFFF"]);
    let plan2 = project(&two, &options(), Some(&four));
    assert_eq!(plan2.opacity_percent, 100);
}

#[test]
fn blur_is_passed_through() {
    let f = simple_flag(&["#FF0000"]);
    let mut opts = options();
    opts.blur = 12;
    let plan = project(&f, &opts, None);
    assert_eq!(plan.blur, 12);
}
