use juliafatou::pair::{parse_pair, split_pair};

#[test]
fn parse_pair_reads_dimensions() {
    assert_eq!(parse_pair("800x600", 'x'), Some((800, 600)));
    assert_eq!(parse_pair("10x10", 'x'), Some((10, 10)));
}

#[test]
fn parse_pair_accepts_leading_plus() {
    assert_eq!(parse_pair("+5x7", 'x'), Some((5, 7)));
}

#[test]
fn parse_pair_without_separator_is_none() {
    assert_eq!(parse_pair("800", 'x'), None);
    assert_eq!(parse_pair("", 'x'), None);
}

#[test]
fn parse_pair_with_bad_half_is_none() {
    assert_eq!(parse_pair("ax5", 'x'), None);
    assert_eq!(parse_pair("5x", 'x'), None);
    assert_eq!(parse_pair("x5", 'x'), None);
    assert_eq!(parse_pair("1x2x3", 'x'), None);
    assert_eq!(parse_pair("-1x2", 'x'), None);
    assert_eq!(parse_pair(" 1x2", 'x'), None);
}

#[test]
fn parse_pair_rejects_overflow() {
    assert_eq!(parse_pair("99999999999999999999999x1", 'x'), None);
    let max = format!("{}x0", usize::MAX);
    assert_eq!(parse_pair(&max, 'x'), Some((usize::MAX, 0)));
}

#[test]
fn parse_pair_other_separator() {
    assert_eq!(parse_pair("3:4", ':'), Some((3, 4)));
    assert_eq!(parse_pair("3:4", 'x'), None);
}

#[test]
fn split_pair_splits_at_first_separator() {
    assert_eq!(split_pair("-0.4,0.6", ','), Some((String::from("-0.4"), String::from("0.6"))));
    assert_eq!(split_pair("a,b,c", ','), Some((String::from("a"), String::from("b,c"))));
    assert_eq!(split_pair(",", ','), Some((String::new(), String::new())));
    assert_eq!(split_pair("0.0", ':'), None);
}

#[test]
fn split_pair_then_float_parse_reads_complex() {
    let (re, im) = split_pair("-0.4,0.6", ',').unwrap();
    assert_eq!(re.parse::<f64>().unwrap(), -0.4);
    assert_eq!(im.parse::<f64>().unwrap(), 0.6);
}
