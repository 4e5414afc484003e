use quadtree_over_media::args::{
    check_rank, color_from, parse_color, parse_number, parse_vec2, split_fields, ImgCompression,
    PngCompression, RankError, ERR_NAN, ERR_NOT_VEC2, ERR_QUAD_TOO_SMALL,
};
use quadtree_over_media::utils::{Rgba, Vec2};

#[test]
fn parses_vec2_comma() {
    assert_eq!(parse_vec2("10,20").unwrap(), Vec2 { x: 10, y: 20 });
}

#[test]
fn parses_vec2_comma_noise() {
    assert_eq!(parse_vec2("-10,20-").unwrap(), Vec2 { x: 10, y: 20 });
}

#[test]
fn parses_vec2_equals() {
    assert_eq!(parse_vec2("007=006").unwrap(), Vec2 { x: 7, y: 6 });
}

#[test]
fn parses_vec2_round_brackets() {
    assert_eq!(parse_vec2("(015,27)").unwrap(), Vec2 { x: 15, y: 27 });
}

#[test]
fn parses_vec2_square_brackets() {
    assert_eq!(parse_vec2("[15,027]").unwrap(), Vec2 { x: 15, y: 27 });
}

#[test]
fn parses_vec2_braces() {
    assert_eq!(parse_vec2("{264,664}").unwrap(), Vec2 { x: 264, y: 664 });
}

#[test]
fn parses_vec2_err_nan_a() {
    assert_eq!(parse_vec2("£€1@4$%").unwrap_err(), ERR_NAN);
}

#[test]
fn parses_vec2_err_nan_b() {
    assert_eq!(parse_vec2("a-a").unwrap_err(), ERR_NAN);
}

#[test]
fn parses_vec2_err_not_vec2_a() {
    assert_eq!(parse_vec2("42").unwrap_err(), ERR_NOT_VEC2);
}

#[test]
fn parses_vec2_err_not_vec2_b() {
    assert_eq!(parse_vec2("10-11-12").unwrap_err(), ERR_NOT_VEC2);
}

#[test]
fn parses_vec2_err_too_small() {
    assert_eq!(parse_vec2("2,2").unwrap_err(), ERR_QUAD_TOO_SMALL);
}

#[test]
fn parses_vec2_edges() {
    assert_eq!(parse_vec2("").unwrap_err(), ERR_NOT_VEC2);
    assert_eq!(parse_vec2(",;").unwrap_err(), ERR_NOT_VEC2);
    assert_eq!(parse_vec2("4,4").unwrap(), Vec2 { x: 4, y: 4 });
    assert_eq!(parse_vec2("4,3").unwrap_err(), ERR_QUAD_TOO_SMALL);
    assert_eq!(parse_vec2("3,400").unwrap_err(), ERR_QUAD_TOO_SMALL);
    // the order of pairs looks at x first: a flat size passes
    assert_eq!(parse_vec2("5,0").unwrap(), Vec2 { x: 5, y: 0 });
    assert_eq!(parse_vec2("4294967295;4294967295").unwrap(), Vec2 { x: u32::MAX, y: u32::MAX });
    assert_eq!(parse_vec2("4294967296;5").unwrap_err(), ERR_NAN);
    assert_eq!(parse_vec2("99999999999999999999999;5").unwrap_err(), ERR_NAN);
    assert_eq!(parse_vec2("5 ,6").unwrap_err(), ERR_NAN);
    assert_eq!(parse_vec2("٥,6").unwrap_err(), ERR_NAN);
}

#[test]
fn splits_fields_at_punctuation() {
    let chars: Vec<char> = "[ab,,c d]e".chars().collect();
    let fields: Vec<String> = split_fields(&chars).into_iter().map(|f| f.into_iter().collect()).collect();
    assert_eq!(fields, vec!["ab", "c d", "e"]);
    assert!(split_fields(&Vec::new()).is_empty());
    let every: Vec<char> = "!\"#$%&'()*+,-./:;<=>?@[\\]^_`{|}~".chars().collect();
    assert!(split_fields(&every).is_empty());
    let none: Vec<char> = " 09AZaz\u{7f}é".chars().collect();
    assert_eq!(split_fields(&none), vec![none]);
}

#[test]
fn parses_numbers() {
    let digits = |s: &str| -> Vec<char> { s.chars().collect() };
    assert_eq!(parse_number(&digits("0")), Some(0));
    assert_eq!(parse_number(&digits("0042")), Some(42));
    assert_eq!(parse_number(&digits("4294967295")), Some(u32::MAX));
    assert_eq!(parse_number(&digits("4294967296")), None);
    assert_eq!(parse_number(&digits("")), None);
    assert_eq!(parse_number(&digits("12a")), None);
    assert_eq!(parse_number(&digits("/")), None);
    assert_eq!(parse_number(&digits(":")), None);
}

#[test]
fn rank_of_input_and_output() {
    assert_eq!(check_rank(false, false), Ok(0));
    assert_eq!(check_rank(true, true), Ok(u8::MAX));
    assert_eq!(check_rank(true, false), Err(RankError::OutputIsNoDirectory));
    assert_eq!(check_rank(false, true), Err(RankError::OutputIsDirectory));
}

#[test]
fn compression_levels() {
    assert_eq!(ImgCompression::Max.jpeg_quality(), 10);
    assert_eq!(ImgCompression::High.jpeg_quality(), 40);
    assert_eq!(ImgCompression::Default.jpeg_quality(), 70);
    assert_eq!(ImgCompression::Low.jpeg_quality(), 82);
    assert_eq!(ImgCompression::No.jpeg_quality(), 100);
    assert_eq!(ImgCompression::Max.png_compression(), PngCompression::Best);
    assert_eq!(ImgCompression::High.png_compression(), PngCompression::Best);
    assert_eq!(ImgCompression::Default.png_compression(), PngCompression::Default);
    assert_eq!(ImgCompression::Low.png_compression(), PngCompression::Fast);
    assert_eq!(ImgCompression::No.png_compression(), PngCompression::Fast);
}

fn parses_rgba(color_str: &str) -> Rgba {
    parse_color(color_str).unwrap()
}

fn channels(r: u8, g: u8, b: u8, a: u8) -> Rgba {
    Rgba { r, g, b, a }
}

#[test]
fn parses_rgba_rgb() {
    assert_eq!(parses_rgba("rgb(250,251,252)"), channels(250, 251, 252, 255));
}

#[test]
fn parses_rgba_hex() {
    assert_eq!(parses_rgba("#a1b2c3"), channels(161, 178, 195, 255));
}

#[test]
fn parses_rgba_hexa() {
    assert_eq!(parses_rgba("#ff00007f"), channels(255, 0, 0, 127));
}

#[test]
fn parses_rgba_txt() {
    assert_eq!(parses_rgba("red"), channels(255, 0, 0, 255));
}

#[test]
fn parse_color_says_what_is_wrong() {
    assert!(parse_color("no colour at all").is_err());
    assert!(!parse_color("#12").unwrap_err().is_empty());
}

#[test]
fn color_from_keeps_the_order_of_channels() {
    assert_eq!(color_from(Ok([1, 2, 3, 4])), Ok(channels(1, 2, 3, 4)));
    assert_eq!(color_from(Err("bad".to_string())), Err("bad".to_string()));
}
