use model_viewer::config::{hex_code_to_color, parse_rate, parse_u32, Config, ConfigError, RgbaColor};
use model_viewer::ratio::Ratio;

fn opts(pairs: &[(&str, &str)]) -> Vec<(String, String)> {
    pairs.iter().map(|(k, v)| (k.to_string(), v.to_string())).collect()
}

fn byte(b: u64) -> Ratio {
    Ratio { num: b, den: 255 }
}

#[test]
fn hex_white_six_digits() {
    let c = hex_code_to_color("#FFFFFF").unwrap();
    assert_eq!(c, RgbaColor { red: byte(255), green: byte(255), blue: byte(255), alpha: byte(255) });
}

#[test]
fn hex_black_with_alpha() {
    let c = hex_code_to_color("#000000FF").unwrap();
    assert_eq!(c, RgbaColor { red: byte(0), green: byte(0), blue: byte(0), alpha: byte(255) });
}

#[test]
fn hex_not_a_color() {
    assert_eq!(hex_code_to_color("not-a-color"), Err(ConfigError::InvalidColorFormat));
}

#[test]
fn hex_six_digits_is_opaque() {
    let c = hex_code_to_color("#12ab9C").unwrap();
    assert_eq!(c.red, byte(0x12));
    assert_eq!(c.green, byte(0xab));
    assert_eq!(c.blue, byte(0x9c));
    assert_eq!(c.alpha, byte(255));
}

#[test]
fn hex_eight_digits_channels() {
    let c = hex_code_to_color("#11223344").unwrap();
    assert_eq!(c, RgbaColor { red: byte(0x11), green: byte(0x22), blue: byte(0x33), alpha: byte(0x44) });
}

#[test]
fn hex_rejects_bad_shapes() {
    for s in ["", "#", "#12345", "#1234567", "#123456789", "FFFFFF", "#GGGGGG", "#12 456", "x#FFFFFF"] {
        assert_eq!(hex_code_to_color(s), Err(ConfigError::InvalidColorFormat), "{}", s);
    }
}

#[test]
fn u32_parsing() {
    assert_eq!(parse_u32("800"), Some(800));
    assert_eq!(parse_u32("+7"), Some(7));
    assert_eq!(parse_u32("0"), Some(0));
    assert_eq!(parse_u32("4294967295"), Some(u32::MAX));
    assert_eq!(parse_u32("4294967296"), None);
    assert_eq!(parse_u32(""), None);
    assert_eq!(parse_u32("+"), None);
    assert_eq!(parse_u32("-1"), None);
    assert_eq!(parse_u32("12a"), None);
}

#[test]
fn rate_parsing() {
    assert_eq!(parse_rate("30"), Some(Ratio { num: 1, den: 30 }));
    assert_eq!(parse_rate("29.97"), Some(Ratio { num: 100, den: 2997 }));
    assert_eq!(parse_rate("+.5"), Some(Ratio { num: 10, den: 5 }));
    assert_eq!(parse_rate("60."), Some(Ratio { num: 1, den: 60 }));
    assert_eq!(parse_rate("0"), None);
    assert_eq!(parse_rate("0.000"), None);
    assert_eq!(parse_rate("."), None);
    assert_eq!(parse_rate("1.2.3"), None);
    assert_eq!(parse_rate("-5"), None);
    assert_eq!(parse_rate("fast"), None);
    assert_eq!(parse_rate("99999999999999999999"), Some(Ratio { num: 1, den: u64::MAX }));
}

#[test]
fn rate_with_exponent() {
    assert_eq!(parse_rate("1e2"), Some(Ratio { num: 1, den: 100 }));
    assert_eq!(parse_rate("1E+2"), Some(Ratio { num: 1, den: 100 }));
    assert_eq!(parse_rate("2.5e-1"), Some(Ratio { num: 100, den: 25 }));
    assert_eq!(parse_rate("6.e1"), Some(Ratio { num: 1, den: 60 }));
    assert_eq!(parse_rate("1e19"), Some(Ratio { num: 1, den: 10_000_000_000_000_000_000 }));
    assert_eq!(parse_rate("1e-19"), Some(Ratio { num: 10_000_000_000_000_000_000, den: 1 }));
    assert_eq!(parse_rate("0.0e5"), None);
    assert_eq!(parse_rate("0e5"), None);
    assert_eq!(parse_rate("1e"), None);
    assert_eq!(parse_rate("e5"), None);
    assert_eq!(parse_rate(".e5"), None);
    assert_eq!(parse_rate("1e+-2"), None);
    assert_eq!(parse_rate("1e2.5"), None);
    assert_eq!(parse_rate("1e2e3"), None);
}

#[test]
fn rate_with_many_zeros() {
    assert_eq!(
        parse_rate("30.000000000000000000000000"),
        Some(Ratio { num: 100_000_000_000_000_000, den: 3_000_000_000_000_000_000 })
    );
    assert_eq!(parse_rate("000000000000000000000000030"), Some(Ratio { num: 1, den: 30 }));
    assert_eq!(parse_rate("0.0000000000000000000000005e25"), Some(Ratio { num: 1, den: 5 }));
}

#[test]
fn rate_too_fast_or_too_slow_is_clamped() {
    assert_eq!(parse_rate("1e20"), Some(Ratio { num: 1, den: u64::MAX }));
    assert_eq!(parse_rate("1e99999999999999999999999"), Some(Ratio { num: 1, den: u64::MAX }));
    assert_eq!(parse_rate("1e-20"), Some(Ratio { num: u64::MAX, den: 1 }));
    assert_eq!(parse_rate("8e-20"), Some(Ratio { num: u64::MAX, den: 1 }));
    assert_eq!(parse_rate("1e-99999999999999999999999"), Some(Ratio { num: u64::MAX, den: 1 }));
}

#[test]
fn rate_keeps_nineteen_significant_digits() {
    assert_eq!(
        parse_rate("29.970000000000000000001"),
        Some(Ratio { num: 100_000_000_000_000_000, den: 2_997_000_000_000_000_000 })
    );
    assert_eq!(
        parse_rate("1.23456789012345678901"),
        Some(Ratio { num: 1_000_000_000_000_000_000, den: 1_234_567_890_123_456_789 })
    );
    assert_eq!(
        parse_rate("1234567890123456789e-30"),
        Some(Ratio { num: 10_000_000_000_000_000_000, den: 12_345_678 })
    );
    assert_eq!(parse_rate("1234567890123456789012345"), Some(Ratio { num: 1, den: u64::MAX }));
}

#[test]
fn animation_fps_far_beyond_range() {
    let c = Config::from_cli_args(&opts(&[("animation-fps", "1e20")])).unwrap();
    assert_eq!(c.animation_framerate, Ratio { num: 1, den: u64::MAX });
}

#[test]
fn animation_fps_with_exponent() {
    let c = Config::from_cli_args(&opts(&[("animation-fps", "1e2")])).unwrap();
    assert_eq!(c.animation_framerate, Ratio { num: 1, den: 100 });
}

#[test]
fn default_config() {
    let c = Config::default();
    assert_eq!(c.window_width, 640);
    assert_eq!(c.window_height, 480);
    assert_eq!(c.bg_color.red, Ratio { num: 3, den: 10 });
    assert_eq!(c.bg_color.alpha, Ratio { num: 1, den: 1 });
    assert_eq!(c.z_near, Ratio { num: 1, den: 100 });
    assert_eq!(c.z_far, Ratio { num: 4000, den: 1 });
    assert_eq!(c.fov_y, Ratio { num: 11, den: 10 });
    assert_eq!(c.animation_framerate, Ratio { num: 1, den: 60 });
    assert_eq!(c.max_render_framerate, None);
    assert_eq!(c.fps_interval, 2_000_000_000);
}

#[test]
fn no_options_gives_default() {
    assert_eq!(Config::from_cli_args(&opts(&[])), Ok(Config::default()));
}

#[test]
fn animation_fps_sets_period() {
    let c = Config::from_cli_args(&opts(&[("animation-fps", "30")])).unwrap();
    assert_eq!(c.animation_framerate, Ratio { num: 1, den: 30 });
}

#[test]
fn zero_max_render_fps_is_rejected() {
    assert_eq!(Config::from_cli_args(&opts(&[("max-render-fps", "0")])), Err(ConfigError::ParseError));
}

#[test]
fn max_render_fps_sets_cap() {
    let c = Config::from_cli_args(&opts(&[("max-render-fps", "120")])).unwrap();
    assert_eq!(c.max_render_framerate, Some(Ratio { num: 1, den: 120 }));
}

#[test]
fn window_size_options() {
    let c = Config::from_cli_args(&opts(&[("window-width", "1024"), ("window-height", "768")])).unwrap();
    assert_eq!((c.window_width, c.window_height), (1024, 768));
    assert_eq!(Config::from_cli_args(&opts(&[("window-width", "wide")])), Err(ConfigError::ParseError));
    assert_eq!(Config::from_cli_args(&opts(&[("window-height", "-3")])), Err(ConfigError::ParseError));
}

#[test]
fn later_option_wins() {
    let c = Config::from_cli_args(&opts(&[("window-width", "100"), ("window-width", "200")])).unwrap();
    assert_eq!(c.window_width, 200);
}

#[test]
fn unknown_options_are_ignored() {
    let c = Config::from_cli_args(&opts(&[("verbose", "yes"), ("window-height", "10")])).unwrap();
    let mut expected = Config::default();
    expected.window_height = 10;
    assert_eq!(c, expected);
}

#[test]
fn bg_color_option() {
    let c = Config::from_cli_args(&opts(&[("bg-color", "#FF000080")])).unwrap();
    assert_eq!(c.bg_color, RgbaColor { red: byte(255), green: byte(0), blue: byte(0), alpha: byte(0x80) });
    assert_eq!(Config::from_cli_args(&opts(&[("bg-color", "red")])), Err(ConfigError::InvalidColorFormat));
}

#[test]
fn first_failure_decides_error() {
    let r = Config::from_cli_args(&opts(&[("bg-color", "red"), ("animation-fps", "0")]));
    assert_eq!(r, Err(ConfigError::InvalidColorFormat));
}
