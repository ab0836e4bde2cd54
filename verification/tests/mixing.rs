use pride_kitchen::color::Color;
use pride_kitchen::flag_lib::{FlagData, FlagDataJSON, FlagError, Position, SymbolData, Transform};

fn entry(full_name: &str, name: &str, lines: &[&str], categories: &[&str]) -> FlagDataJSON {
    FlagDataJSON {
        full_name: String::from(full_name),
        name: String::from(name),
        lines: lines.iter().map(|l| String::from(*l)).collect(),
        categories: categories.iter().map(|c| String::from(*c)).collect(),
        symbol: None,
    }
}

fn flag(full_name: &str, name: &str, lines: &[&str], categories: &[&str]) -> FlagData {
    FlagData::from_json(&entry(full_name, name, lines, categories)).unwrap()
}

fn stripe_colors(flag: &FlagData) -> Vec<Vec<String>> {
    flag.lines
        .iter()
        .map(|stripe| stripe.iter().map(|c| c.0.clone()).collect())
        .collect()
}

#[test]
fn from_json_builds_one_color_per_stripe() {
    let f = flag("Flag A", "A", &["#FF0000", "#FFFFFF"], &["a", "b", "a"]);
    assert_eq!(f.full_name, "Flag A");
    assert_eq!(f.name, "A");
    assert_eq!(
        f.lines,
        vec![
            vec![Color(String::from("#FF0000"))],
            vec![Color(String::from("#FFFFFF"))],
        ]
    );
    assert_eq!(f.categories, vec![String::from("a"), String::from("b")]);
    assert!(f.symbols.is_empty());
}

#[test]
fn from_json_rejects_malformed_color() {
    let e = entry("Flag A", "A", &["#GG0000"], &[]);
    assert_eq!(FlagData::from_json(&e), Err(FlagError::InvalidColorFormat));
    let e2 = entry("Flag A", "A", &["red"], &[]);
    assert_eq!(FlagData::from_json(&e2), Err(FlagError::InvalidColorFormat));
}

#[test]
fn from_json_rejects_empty_stripe_list() {
    let e = entry("Flag A", "A", &[], &[]);
    assert_eq!(FlagData::from_json(&e), Err(FlagError::EmptyFlag));
}

#[test]
fn from_json_wraps_symbol_as_single() {
    let mut e = entry("Flag A", "A", &["#FF0000"], &[]);
    let sym = SymbolData {
        src: String::from("heart.svg"),
        single: Transform { x: 1, y: 2, width: 3, height: 4 },
        merged_left: Transform { x: 5, y: 6, width: 7, height: 8 },
        mirror: false,
    };
    e.symbol = Some(sym.clone());
    let f = FlagData::from_json(&e).unwrap();
    assert_eq!(f.symbols, vec![(sym, Position::Single)]);
}

#[test]
fn duplicate_middle_inserts_after_middle_index() {
    let f = flag("Flag A", "A", &["#FF0000", "#FFFFFF", "#0000FF"], &[]);
    let d = FlagData::duplicate_middle(&f);
    assert_eq!(
        stripe_colors(&d),
        vec![
            vec![String::from("#FF0000")],
            vec![String::from("#FFFFFF")],
            vec![String::from("#FFFFFF")],
            vec![String::from("#0000FF")],
        ]
    );
    assert_eq!(d.full_name, f.full_name);
    assert_eq!(d.name, f.name);
}

#[test]
fn multiply_repeats_each_stripe_contiguously() {
    let f = flag("Flag A", "A", &["#FF0000", "#FFFFFF"], &[]);
    let m = FlagData::multiply(&f, 3);
    assert_eq!(
        stripe_colors(&m),
        vec![
            vec![String::from("#FF0000")],
            vec![String::from("#FF0000")],
            vec![String::from("#FF0000")],
            vec![String::from("#FFFFFF")],
            vec![String::from("#FFFFFF")],
            vec![String::from("#FFFFFF")],
        ]
    );
}

#[test]
fn mix_with_equal_name_returns_first_unchanged() {
    let f = flag("Flag A", "A", &["#FF0000", "#FFFFFF", "#0000FF"], &["a"]);
    let m = FlagData::mix(&f, &f).unwrap();
    assert_eq!(m, f);
}

#[test]
fn mix_three_and_six_stripes_gives_twelve_bands() {
    // flag A has 3 stripes, so its middle is duplicated to give 4; the
    // least common multiple of 4 and 6 is 12, and every band holds one
    // color of each flag
    let a = flag("Flag A", "A", &["#FF0000", "#FFFFFF", "#0000FF"], &[]);
    let b = flag(
        "Flag B",
        "B",
        &["#000000", "#FFFFFF", "#000000", "#FFFFFF", "#000000", "#FFFFFF"],
        &[],
    );
    let m = FlagData::mix(&a, &b).unwrap();
    assert_eq!(m.lines.len(), 12);
    for band in &m.lines {
        assert_eq!(band.len(), 2);
    }
    let left: Vec<String> = m.lines.iter().map(|band| band[0].0.clone()).collect();
    let right: Vec<String> = m.lines.iter().map(|band| band[1].0.clone()).collect();
    let r = String::from("#FF0000");
    let w = String::from("#FFFFFF");
    let u = String::from("#0000FF");
    let k = String::from("#000000");
    assert_eq!(
        left,
        vec![
            r.clone(), r.clone(), r.clone(),
            w.clone(), w.clone(), w.clone(), w.clone(), w.clone(), w.clone(),
            u.clone(), u.clone(), u.clone(),
        ]
    );
    assert_eq!(
        right,
        vec![
            k.clone(), k.clone(), w.clone(), w.clone(),
            k.clone(), k.clone(), w.clone(), w.clone(),
            k.clone(), k.clone(), w.clone(), w.clone(),
        ]
    );
    assert_eq!(m.name, "A B");
    assert_eq!(m.full_name, "Flag A Flag B");
}

#[test]
fn mix_even_counts_use_plain_lcm() {
    let a = flag("Flag A", "A", &["#111111", "#222222", "#333333", "#444444"], &[]);
    let b = flag(
        "Flag B",
        "B",
        &["#555555", "#666666", "#777777", "#888888", "#999999", "#AAAAAA"],
        &[],
    );
    let m = FlagData::mix(&a, &b).unwrap();
    assert_eq!(m.lines.len(), 12);
}

#[test]
fn mix_unions_categories_in_order() {
    let a = flag("Flag A", "A", &["#FF0000"], &["sexual orientation"]);
    let b = flag("Flag B", "B", &["#0000FF"], &["other", "sexual orientation"]);
    let m = FlagData::mix(&a, &b).unwrap();
    assert_eq!(
        m.categories,
        vec![String::from("sexual orientation"), String::from("other")]
    );
}

#[test]
fn mix_keeps_equal_full_name_but_joins_names() {
    let a = flag("Shared", "A", &["#FF0000"], &[]);
    let b = flag("Shared", "B", &["#0000FF"], &[]);
    let m = FlagData::mix(&a, &b).unwrap();
    assert_eq!(m.full_name, "Shared");
    assert_eq!(m.name, "A B");
}

#[test]
fn mix_retags_symbols_left_and_right() {
    let sym_a = SymbolData {
        src: String::from("heart.svg"),
        single: Transform { x: 1, y: 2, width: 3, height: 4 },
        merged_left: Transform { x: 5, y: 6, width: 7, height: 8 },
        mirror: false,
    };
    let sym_b = SymbolData {
        src: String::from("bear.svg"),
        single: Transform { x: 9, y: 10, width: 11, height: 12 },
        merged_left: Transform { x: 13, y: 14, width: 15, height: 16 },
        mirror: true,
    };
    let mut ea = entry("Flag A", "A", &["#FF0000"], &[]);
    ea.symbol = Some(sym_a.clone());
    let mut eb = entry("Flag B", "B", &["#0000FF"], &[]);
    eb.symbol = Some(sym_b.clone());
    let a = FlagData::from_json(&ea).unwrap();
    let b = FlagData::from_json(&eb).unwrap();
    let m = FlagData::mix(&a, &b).unwrap();
    assert_eq!(
        m.symbols,
        vec![(sym_a, Position::MergedLeft), (sym_b, Position::MergedRight)]
    );
}

#[test]
fn mix_rejects_empty_flag() {
    let a = FlagData {
        full_name: String::from("Empty"),
        name: String::from("E"),
        categories: Vec::new(),
        lines: Vec::new(),
        symbols: Vec::new(),
    };
    let b = flag("Flag B", "B", &["#0000FF"], &[]);
    assert_eq!(FlagData::mix(&a, &b), Err(FlagError::EmptyFlag));
    assert_eq!(FlagData::mix(&b, &a), Err(FlagError::EmptyFlag));
}

#[test]
fn compatibility_checks_divisibility_after_parity_bump() {
    // 3 stripes get bumped to 4 next to the even 6, and neither of 4 and 6
    // divides the other, so the pair is incompatible
    let a = flag("Flag A", "A", &["#FF0000", "#FFFFFF", "#0000FF"], &[]);
    let b = flag(
        "Flag B",
        "B",
        &["#000000", "#FFFFFF", "#000000", "#FFFFFF", "#000000", "#FFFFFF"],
        &[],
    );
    assert!(!FlagData::is_compatible(&a, &b));
}

#[test]
fn compatibility_is_symmetric() {
    let flags = [
        flag("F1", "1", &["#111111"], &[]),
        flag("F2", "2", &["#111111", "#222222"], &[]),
        flag("F3", "3", &["#111111", "#222222", "#333333"], &[]),
        flag(
            "F6",
            "6",
            &["#111111", "#222222", "#333333", "#444444", "#555555", "#666666"],
            &[],
        ),
    ];
    for x in &flags {
        for y in &flags {
            assert_eq!(
                FlagData::is_compatible(x, y),
                FlagData::is_compatible(y, x)
            );
        }
    }
}

#[test]
fn compatible_when_one_count_divides_the_other() {
    let a = flag("Flag A", "A", &["#111111", "#222222"], &[]);
    let b = flag("Flag B", "B", &["#333333", "#444444", "#555555", "#666666"], &[]);
    assert!(FlagData::is_compatible(&a, &b));
    let c = flag("Flag C", "C", &["#111111", "#222222", "#333333"], &[]);
    assert!(FlagData::is_compatible(&c, &c));
}

#[test]
fn merged_right_rect_mirrors_merged_left() {
    let sym = SymbolData {
        src: String::from("heart.svg"),
        single: Transform { x: 0, y: 0, width: 0, height: 0 },
        merged_left: Transform { x: 10, y: 20, width: 30, height: 40 },
        mirror: false,
    };
    let t = sym.get_merged_right(250);
    assert_eq!(t, Transform { x: 210, y: 20, width: 30, height: 40 });
}
