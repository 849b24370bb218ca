use color_profile::color::{Color, Rgb, VARIANT_COUNT};

#[test]
fn labels_are_the_category_names() {
    assert_eq!(Color::Red.label(), "Red");
    assert_eq!(Color::Orange.label(), "Orange");
    assert_eq!(Color::Yellow.label(), "Yellow");
    assert_eq!(Color::Green.label(), "Green");
    assert_eq!(Color::Cyan.label(), "Cyan");
    assert_eq!(Color::Blue.label(), "Blue");
    assert_eq!(Color::Magenta.label(), "Magenta");
}

#[test]
fn display_colors_are_fixed() {
    assert_eq!(Color::Red.color(), Rgb { red: 255, green: 0, blue: 0 });
    assert_eq!(Color::Orange.color(), Rgb { red: 255, green: 127, blue: 0 });
    assert_eq!(Color::Yellow.color(), Rgb { red: 255, green: 255, blue: 0 });
    assert_eq!(Color::Green.color(), Rgb { red: 0, green: 255, blue: 0 });
    assert_eq!(Color::Cyan.color(), Rgb { red: 0, green: 255, blue: 255 });
    assert_eq!(Color::Blue.color(), Rgb { red: 0, green: 0, blue: 255 });
    assert_eq!(Color::Magenta.color(), Rgb { red: 255, green: 0, blue: 255 });
}

#[test]
fn seven_variants_in_fixed_order() {
    let all = Color::variants();
    assert_eq!(
        all,
        vec![
            Color::Red,
            Color::Orange,
            Color::Yellow,
            Color::Green,
            Color::Cyan,
            Color::Blue,
            Color::Magenta,
        ]
    );
    assert_eq!(Color::variant_count(), 7);
    assert_eq!(VARIANT_COUNT, 7);
}

#[test]
fn ordinals_match_positions() {
    let all = Color::variants();
    for (i, c) in all.iter().enumerate() {
        assert_eq!(c.ordinal(), i);
        assert_eq!(Color::from_ordinal(i), Some(*c));
    }
    assert_eq!(Color::from_ordinal(7), None);
    assert_eq!(Color::from_ordinal(usize::MAX), None);
}

#[test]
fn variants_are_pairwise_distinct() {
    let all = Color::variants();
    for i in 0..all.len() {
        for j in 0..all.len() {
            assert_eq!(all[i] == all[j], i == j);
            assert_eq!(all[i].label() == all[j].label(), i == j);
            assert_eq!(all[i].color() == all[j].color(), i == j);
        }
    }
}
