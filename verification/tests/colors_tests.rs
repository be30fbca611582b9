use git_log_pretty::colors::{hash_to_background_color, hex_to_rgb, hsv_to_rgb, Color};
use std::collections::hash_map::DefaultHasher;
use std::hash::{Hash, Hasher};

fn std_hash(text: &str) -> u64 {
    let mut hasher = DefaultHasher::new();
    text.hash(&mut hasher);
    hasher.finish()
}

fn float_formula(h: f32, s: f32, v: f32) -> (u8, u8, u8) {
    let c = v * s;
    let x = c * (1.0 - ((h / 60.0) % 2.0 - 1.0).abs());
    let m = v - c;
    let (r, g, b) = if h < 60.0 {
        (c, x, 0.0)
    } else if h < 120.0 {
        (x, c, 0.0)
    } else if h < 180.0 {
        (0.0, c, x)
    } else if h < 240.0 {
        (0.0, x, c)
    } else if h < 300.0 {
        (x, 0.0, c)
    } else {
        (c, 0.0, x)
    };
    (((r + m) * 255.0) as u8, ((g + m) * 255.0) as u8, ((b + m) * 255.0) as u8)
}

#[test]
fn hsv_primary_and_secondary_colors() {
    assert_eq!(hsv_to_rgb(0, 100, 100), (255, 0, 0));
    assert_eq!(hsv_to_rgb(60, 100, 100), (255, 255, 0));
    assert_eq!(hsv_to_rgb(120, 100, 100), (0, 255, 0));
    assert_eq!(hsv_to_rgb(180, 100, 100), (0, 255, 255));
    assert_eq!(hsv_to_rgb(240, 100, 100), (0, 0, 255));
    assert_eq!(hsv_to_rgb(300, 100, 100), (255, 0, 255));
}

#[test]
fn hsv_muted_tone_in_each_sector() {
    assert_eq!(hsv_to_rgb(0, 50, 50), (127, 63, 63));
    assert_eq!(hsv_to_rgb(30, 50, 50), (127, 95, 63));
    assert_eq!(hsv_to_rgb(90, 50, 50), (95, 127, 63));
    assert_eq!(hsv_to_rgb(210, 50, 50), (63, 95, 127));
    assert_eq!(hsv_to_rgb(330, 50, 50), (127, 63, 95));
}

#[test]
fn hsv_vibrant_tone_in_each_sector() {
    assert_eq!(hsv_to_rgb(0, 70, 80), (204, 61, 61));
    assert_eq!(hsv_to_rgb(150, 70, 80), (61, 204, 132));
    assert_eq!(hsv_to_rgb(200, 70, 80), (61, 156, 204));
    assert_eq!(hsv_to_rgb(270, 70, 80), (132, 61, 204));
    assert_eq!(hsv_to_rgb(359, 70, 80), (204, 61, 63));
}

#[test]
fn hsv_cuts_a_whole_level_exactly() {
    // 17 * 64 / 16 is 68 without a remainder.
    assert_eq!(hsv_to_rgb(4, 50, 50), (127, 68, 63));
}

#[test]
fn hsv_without_saturation_is_grey() {
    assert_eq!(hsv_to_rgb(0, 0, 100), (255, 255, 255));
    assert_eq!(hsv_to_rgb(123, 0, 50), (127, 127, 127));
    assert_eq!(hsv_to_rgb(200, 100, 0), (0, 0, 0));
}

#[test]
fn hsv_levels_stay_within_a_byte() {
    assert_eq!(hsv_to_rgb(0, 200, 100), (255, 0, 0));
    assert_eq!(hsv_to_rgb(0, 0, 200), (255, 255, 255));
    assert_eq!(hsv_to_rgb(400, 100, 100), (255, 0, 170));
}

#[test]
fn hsv_is_within_one_level_of_the_floating_point_formula() {
    let tones: [(u8, u8, f32, f32); 2] = [(50, 50, 0.5, 0.5), (70, 80, 0.7, 0.8)];
    for (s, v, sf, vf) in tones {
        for h in 0..360u16 {
            let (r, g, b) = hsv_to_rgb(h, s, v);
            let (fr, fg, fb) = float_formula(h as f32, sf, vf);
            assert!(r.abs_diff(fr) <= 1 && g.abs_diff(fg) <= 1 && b.abs_diff(fb) <= 1);
            assert!(r >= fr && g >= fg && b >= fb);
        }
    }
}

#[test]
fn label_color_is_the_same_on_every_call() {
    for text in ["feat", "fix", "chore", "", "Ünïcode"] {
        for dark in [true, false] {
            assert_eq!(
                hash_to_background_color(text, dark),
                hash_to_background_color(text, dark)
            );
        }
    }
}

#[test]
fn label_color_takes_its_hue_from_the_standard_hash() {
    for text in ["feat", "fix", "docs", "refactor", "", "β"] {
        let hue = (std_hash(text) % 360) as u16;
        let (r, g, b) = hsv_to_rgb(hue, 50, 50);
        assert_eq!(hash_to_background_color(text, true), Color::Rgb { r, g, b });
        let (r, g, b) = hsv_to_rgb(hue, 70, 80);
        assert_eq!(hash_to_background_color(text, false), Color::Rgb { r, g, b });
    }
}

#[test]
fn label_color_is_muted_on_dark_and_vibrant_on_light() {
    let dark = hash_to_background_color("feat", true);
    let light = hash_to_background_color("feat", false);
    match (dark, light) {
        (Color::Rgb { r, g, b }, Color::Rgb { r: lr, g: lg, b: lb }) => {
            assert_eq!(r.max(g).max(b), 127);
            assert_eq!(r.min(g).min(b), 63);
            assert_eq!(lr.max(lg).max(lb), 204);
            assert_eq!(lr.min(lg).min(lb), 61);
        }
        _ => panic!("a label color is a triple"),
    }
}

#[test]
fn hex_with_hash_sign() {
    assert_eq!(hex_to_rgb("#ff00aa"), Color::Rgb { r: 255, g: 0, b: 170 });
}

#[test]
fn hex_without_hash_sign() {
    assert_eq!(hex_to_rgb("ff00aa"), Color::Rgb { r: 255, g: 0, b: 170 });
    assert_eq!(hex_to_rgb("000000"), Color::Rgb { r: 0, g: 0, b: 0 });
    assert_eq!(hex_to_rgb("7e8ea8"), Color::Rgb { r: 126, g: 142, b: 168 });
}

#[test]
fn hex_in_upper_and_mixed_case() {
    assert_eq!(hex_to_rgb("#FF00AA"), Color::Rgb { r: 255, g: 0, b: 170 });
    assert_eq!(hex_to_rgb("#Ff0aA9"), Color::Rgb { r: 255, g: 10, b: 169 });
}

#[test]
fn hex_round_trips_every_level() {
    let digits: Vec<char> = "0123456789abcdef".chars().collect();
    for level in 0..=255u8 {
        let pair: String =
            [digits[(level / 16) as usize], digits[(level % 16) as usize]].iter().collect();
        let text = format!("#{}00{}", pair, pair);
        assert_eq!(hex_to_rgb(&text), Color::Rgb { r: level, g: 0, b: level });
    }
}

#[test]
fn hex_of_wrong_length_is_white() {
    assert_eq!(hex_to_rgb(""), Color::White);
    assert_eq!(hex_to_rgb("#"), Color::White);
    assert_eq!(hex_to_rgb("#fff"), Color::White);
    assert_eq!(hex_to_rgb("#ff00aab"), Color::White);
    assert_eq!(hex_to_rgb("ff00a"), Color::White);
}

#[test]
fn hex_with_other_characters_is_white() {
    assert_eq!(hex_to_rgb("#gg00aa"), Color::White);
    assert_eq!(hex_to_rgb("#ff 0aa"), Color::White);
    assert_eq!(hex_to_rgb("+f+f+f"), Color::White);
    assert_eq!(hex_to_rgb("#ff00a\u{e9}"), Color::White);
    assert_eq!(hex_to_rgb("a\u{e9}234"), Color::White);
}

#[test]
fn hex_takes_one_hash_sign_only() {
    assert_eq!(hex_to_rgb("##ff00aa"), Color::White);
    assert_eq!(hex_to_rgb("ff00aa#"), Color::White);
}
