use plant_lsystem::{hex_to_rgb, ColourError};

#[test]
fn hex_to_rgb_reads_the_three_channels() {
    assert_eq!(hex_to_rgb("#F2F7F2"), Ok((0xF2, 0xF7, 0xF2)));
    assert_eq!(hex_to_rgb("#FF9FB2"), Ok((255, 159, 178)));
    assert_eq!(hex_to_rgb("#000000"), Ok((0, 0, 0)));
    assert_eq!(hex_to_rgb("#ffffff"), Ok((255, 255, 255)));
    assert_eq!(hex_to_rgb("#0a1B9c"), Ok((10, 27, 156)));
}

#[test]
fn hex_to_rgb_does_not_look_at_the_first_byte() {
    assert_eq!(hex_to_rgb("x102030"), Ok((16, 32, 48)));
}

#[test]
fn hex_to_rgb_takes_a_plus_sign_before_one_digit() {
    assert_eq!(hex_to_rgb("#+a+0+F"), Ok((10, 0, 15)));
    assert_eq!(u8::from_str_radix("+a", 16), Ok(10));
}

#[test]
fn hex_to_rgb_agrees_with_the_parsing_of_std() {
    let bytes: Vec<u8> = vec![b'0', b'9', b'a', b'f', b'g', b'A', b'F', b'G', b'+', b'-', b' ', b'/', b':', b'@', b'`'];
    for high in bytes.iter() {
        for low in bytes.iter() {
            let pair = format!("{}{}", *high as char, *low as char);
            let text = format!("#{}00ff", pair);
            let expected = u8::from_str_radix(&pair, 16).ok().map(|r| (r, 0u8, 255u8));
            assert_eq!(hex_to_rgb(&text).ok(), expected);
        }
    }
}

#[test]
fn hex_to_rgb_wrong_length() {
    assert_eq!(hex_to_rgb(""), Err(ColourError::WrongLength));
    assert_eq!(hex_to_rgb("#FFF"), Err(ColourError::WrongLength));
    assert_eq!(hex_to_rgb("#FF9FB2A"), Err(ColourError::WrongLength));
    assert_eq!(hex_to_rgb("#GGGGGGG"), Err(ColourError::WrongLength));
}

#[test]
fn hex_to_rgb_wrong_digit() {
    assert_eq!(hex_to_rgb("#GG0000"), Err(ColourError::WrongDigit));
    assert_eq!(hex_to_rgb("#00 100"), Err(ColourError::WrongDigit));
    assert_eq!(hex_to_rgb("#0000-1"), Err(ColourError::WrongDigit));
    assert_eq!(hex_to_rgb("#++0000"), Err(ColourError::WrongDigit));
    assert_eq!(hex_to_rgb("#é0000"), Err(ColourError::WrongDigit));
}
