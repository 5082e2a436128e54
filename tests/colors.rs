use juliafatou::colors::{
    colors_from_config, colors_from_random, palette, return_colors, ColorError, ColorStyle, Rgb,
};

fn rgb(r: u8, g: u8, b: u8) -> Rgb {
    Rgb { r, g, b }
}

#[test]
fn greyscale_palette_runs_white_to_black() {
    let p = palette(&ColorStyle::Greyscale).unwrap();
    assert_eq!(p, [rgb(255, 255, 255), rgb(127, 127, 127), rgb(0, 0, 0)]);
}

#[test]
fn bookworm_palette() {
    let p = return_colors(&ColorStyle::Bookworm, None, None).unwrap();
    assert_eq!(p, [rgb(5, 71, 92), rgb(10, 120, 115), rgb(184, 216, 215)]);
}

#[test]
fn palette_is_none_for_config_and_random() {
    assert_eq!(palette(&ColorStyle::Config), None);
    assert_eq!(palette(&ColorStyle::Random), None);
}

#[test]
fn config_text_gives_three_colors() {
    let text = "R,G,B\n1,2,3\n40,50,60\n255,0,128\n";
    let expected = [rgb(1, 2, 3), rgb(40, 50, 60), rgb(255, 0, 128)];
    assert_eq!(colors_from_config(text), Ok(expected));
    assert_eq!(return_colors(&ColorStyle::Config, Some(text), None), Ok(expected));
}

#[test]
fn config_text_without_final_newline() {
    let text = "R,G,B\n1,2,3\n4,5,6\n7,8,9";
    assert_eq!(colors_from_config(text), Ok([rgb(1, 2, 3), rgb(4, 5, 6), rgb(7, 8, 9)]));
}

#[test]
fn config_text_with_crlf_lines() {
    let text = "R,G,B\r\n1,2,3\r\n4,5,6\r\n7,8,9\r\n";
    assert_eq!(colors_from_config(text), Ok([rgb(1, 2, 3), rgb(4, 5, 6), rgb(7, 8, 9)]));
}

#[test]
fn config_with_too_few_lines_is_an_error() {
    assert_eq!(colors_from_config("R,G,B\n1,2,3\n4,5,6\n"), Err(ColorError::WrongLineCount));
    assert_eq!(colors_from_config(""), Err(ColorError::WrongLineCount));
    assert_eq!(
        return_colors(&ColorStyle::Config, Some("R,G,B\n1,2,3"), None),
        Err(ColorError::WrongLineCount)
    );
}

#[test]
fn config_with_too_many_lines_is_an_error() {
    assert_eq!(colors_from_config("h\n1,2,3\n4,5,6\n7,8,9\n1,1,1\n"), Err(ColorError::WrongLineCount));
}

#[test]
fn config_line_with_missing_fields_is_an_error() {
    assert_eq!(colors_from_config("h\n1,2\n4,5,6\n7,8,9\n"), Err(ColorError::BadComponent));
    assert_eq!(colors_from_config("h\n1,2,3\n7\n7,8,9\n"), Err(ColorError::BadComponent));
}

#[test]
fn config_line_with_extra_fields_is_an_error() {
    assert_eq!(colors_from_config("h\n1,2,3\n4,5,6\n4,5,6,99\n"), Err(ColorError::BadComponent));
    assert_eq!(colors_from_config("h\n1,2,3,\n4,5,6\n7,8,9\n"), Err(ColorError::BadComponent));
}

#[test]
fn config_with_bad_component_is_an_error() {
    assert_eq!(colors_from_config("h\n256,0,0\n1,1,1\n2,2,2\n"), Err(ColorError::BadComponent));
    assert_eq!(colors_from_config("h\n1, 2,3\n1,1,1\n2,2,2\n"), Err(ColorError::BadComponent));
    assert_eq!(colors_from_config("h\n\n1,1,1\n2,2,2\n"), Err(ColorError::BadComponent));
    assert_eq!(colors_from_config("h\n1,,3\n1,1,1\n2,2,2\n"), Err(ColorError::BadComponent));
}

#[test]
fn config_style_without_text_is_an_error() {
    assert_eq!(return_colors(&ColorStyle::Config, None, None), Err(ColorError::MissingConfig));
}

#[test]
fn random_bytes_give_three_colors() {
    let bytes = [1, 2, 3, 4, 5, 6, 7, 8, 9];
    let expected = [rgb(1, 2, 3), rgb(4, 5, 6), rgb(7, 8, 9)];
    assert_eq!(colors_from_random(&bytes), expected);
    assert_eq!(return_colors(&ColorStyle::Random, None, Some(bytes)), Ok(expected));
    assert_eq!(return_colors(&ColorStyle::Random, None, None), Err(ColorError::MissingRandom));
}
