use infoscreen::color::{self, Color, ColorRules, ColorSet};
use infoscreen::timetable::{ColorError, TimeEntryColorSet};

fn set(default: u32, rules: &[(&str, u32)]) -> ColorSet {
    ColorSet { default, map: rules.iter().map(|(p, c)| (p.to_string(), *c)).collect() }
}

#[test]
fn color_codes_are_read() {
    assert_eq!(color::read_color_code(Some("#F00")), (255, 0, 0, 255));
    assert_eq!(color::read_color_code(Some("#1234")), (0x11, 0x22, 0x33, 0x44));
    assert_eq!(color::read_color_code(Some("#DDa0dD")), (0xDD, 0xA0, 0xDD, 255));
    assert_eq!(color::read_color_code(Some("#F0FFFF80")), (0xF0, 0xFF, 0xFF, 0x80));
    assert_eq!(color::read_color_code(Some("#+1+2+3")), (1, 2, 3, 255));
}

#[test]
fn other_color_codes_are_white() {
    for code in ["", "#", "F00", "#GGG", "#12345", "#1234567", "#äää", "#-1-1-1", "#1+1+1+"] {
        assert_eq!(color::read_color_code(Some(code)), (255, 255, 255, 255), "{code}");
    }
    assert_eq!(color::read_color_code(None), (255, 255, 255, 255));
}

#[test]
fn colors_hold_their_parts() {
    assert_eq!(Color::from_rgb_u8(1, 2, 3), Color { argb: 0xFF010203 });
    assert_eq!(Color::from_argb_encoded(0x80102030), Color { argb: 0x80102030 });
    assert_eq!(Color::unset(), Color { argb: 0 });
    assert_eq!(color::color_code_number(Some("#01020304")), 0x01020304);
    assert_eq!(color::color_of_code(Some("#01020304")), Color { argb: 0xFF010203 });
    assert_eq!(color::color_of_code(None), Color { argb: 0xFFFFFFFF });
}

#[test]
fn the_first_matching_rule_gives_the_color() {
    let rules = ColorRules::compile(set(1, &[("^IN", 2), ("N$", 3), ("IN", 4)])).unwrap();
    assert_eq!(rules.color_of("IN5").argb, 2);
    assert_eq!(rules.color_of("MIN").argb, 3);
    assert_eq!(rules.color_of("MIN2").argb, 4);
    assert_eq!(rules.color_of("MB").argb, 1);
    assert_eq!(rules.default_color().argb, 1);
}

#[test]
fn hits_pick_the_first_color() {
    let rules = set(9, &[("a", 1), ("b", 2)]).map;
    assert_eq!(color::pick_color(&vec![false, true], &rules, 9).argb, 2);
    assert_eq!(color::pick_color(&vec![true, true], &rules, 9).argb, 1);
    assert_eq!(color::pick_color(&vec![false, false], &rules, 9).argb, 9);
}

#[test]
fn patterns_have_to_compile() {
    assert!(ColorRules::compile(set(0, &[("a", 1), ("(", 2)])).is_none());
    let r = TimeEntryColorSet::compile(set(0, &[("[", 1)]), set(0, &[("(", 1)]));
    assert_eq!(r.err(), Some(ColorError::Course));
    let r = TimeEntryColorSet::compile(set(0, &[("x", 1)]), set(0, &[("(", 1)]));
    assert_eq!(r.err(), Some(ColorError::Location));
    assert!(TimeEntryColorSet::compile(set(0, &[]), set(0, &[])).is_ok());
}
