use palette_texture::{hex_digit, hex_pair, parse_colors, Color, ColorError};

#[test]
fn test_parse_colors() {
    let input = "#FF5733,33FF57,#5733FF";
    let expected = vec![Color::new(255, 87, 51), Color::new(51, 255, 87), Color::new(87, 51, 255)];

    let result = parse_colors(input).expect("Failed to parse colors");

    assert_eq!(result, expected);
}

#[test]
fn short_token_is_badly_formed() {
    assert_eq!(parse_colors("#FFF"), Err(ColorError::InvalidFormat));
}

#[test]
fn long_token_is_badly_formed() {
    assert_eq!(parse_colors("#FF57331"), Err(ColorError::InvalidFormat));
    assert_eq!(parse_colors("##FF5733"), Err(ColorError::InvalidFormat));
}

#[test]
fn non_hex_token_is_rejected_with_its_text() {
    assert_eq!(parse_colors("GGHHII"), Err(ColorError::InvalidHexDigit("GGHHII".to_string())));
}

#[test]
fn rejected_token_keeps_its_hash_but_not_its_spaces() {
    assert_eq!(
        parse_colors("#FF5733, #12345G "),
        Err(ColorError::InvalidHexDigit("#12345G".to_string()))
    );
}

#[test]
fn empty_token_between_commas_is_skipped() {
    let result = parse_colors("#FF5733,,#5733FF").expect("two colors");
    assert_eq!(result, vec![Color::new(255, 87, 51), Color::new(87, 51, 255)]);
}

#[test]
fn spaces_and_case_are_accepted() {
    let result = parse_colors(" ff5733 ,\t#00aaFF\n,,#").expect("two colors");
    assert_eq!(result, vec![Color::new(255, 87, 51), Color::new(0, 170, 255)]);
}

#[test]
fn unicode_whitespace_is_trimmed() {
    let result = parse_colors("\u{3000}#010203\u{a0}").expect("one color");
    assert_eq!(result, vec![Color::new(1, 2, 3)]);
}

#[test]
fn empty_input_gives_no_colors() {
    assert_eq!(parse_colors(""), Ok(vec![]));
    assert_eq!(parse_colors(" , # ,"), Ok(vec![]));
}

#[test]
fn first_bad_token_decides_the_error() {
    assert_eq!(parse_colors("#FFF,GGGGGG"), Err(ColorError::InvalidFormat));
    assert_eq!(
        parse_colors("GGGGGG,#FFF"),
        Err(ColorError::InvalidHexDigit("GGGGGG".to_string()))
    );
}

#[test]
fn length_counts_characters() {
    assert_eq!(
        parse_colors("\u{e9}\u{e9}\u{e9}123"),
        Err(ColorError::InvalidHexDigit("\u{e9}\u{e9}\u{e9}123".to_string()))
    );
    assert_eq!(parse_colors("\u{e9}1234"), Err(ColorError::InvalidFormat));
}

#[test]
fn sign_is_not_a_digit() {
    assert_eq!(parse_colors("+F+F+F"), Err(ColorError::InvalidHexDigit("+F+F+F".to_string())));
}

#[test]
fn hex_digits_have_their_values() {
    assert_eq!(hex_digit('0'), Some(0));
    assert_eq!(hex_digit('9'), Some(9));
    assert_eq!(hex_digit('a'), Some(10));
    assert_eq!(hex_digit('F'), Some(15));
    assert_eq!(hex_digit('g'), None);
    assert_eq!(hex_digit('#'), None);
    assert_eq!(hex_pair('F', 'F'), Some(255));
    assert_eq!(hex_pair('5', '7'), Some(87));
    assert_eq!(hex_pair('0', 'x'), None);
}
