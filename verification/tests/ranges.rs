use oxipng::ranges::parse_numeric_range_opts;

fn values(input: &str, min: u8, max: u8) -> Result<Vec<u8>, String> {
    parse_numeric_range_opts(input, min, max).map(|set| set.into_iter().collect())
}

#[test]
fn one_value() {
    assert_eq!(values("3", 0, 9), Ok(vec![3]));
    assert_eq!(values("+4", 0, 9), Ok(vec![4]));
    assert_eq!(values("007", 0, 9), Ok(vec![7]));
}

#[test]
fn a_range() {
    assert_eq!(values("0-3", 0, 9), Ok(vec![0, 1, 2, 3]));
    assert_eq!(values("7-9", 0, 9), Ok(vec![7, 8, 9]));
    assert_eq!(values("3-3", 0, 9), Err("Not a valid input".to_string()));
    assert_eq!(values("5-2", 0, 9), Err("Not a valid input".to_string()));
    assert_eq!(values("1-10", 0, 9), Err("Not a valid input".to_string()));
}

#[test]
fn a_list() {
    assert_eq!(values("1,3,5", 0, 9), Ok(vec![1, 3, 5]));
    assert_eq!(values("5,0", 0, 9), Ok(vec![5, 0]));
    assert_eq!(values("1,1", 0, 9), Err("Not a valid input".to_string()));
    assert_eq!(values("1,x", 0, 9), Err("Not a valid input".to_string()));
    assert_eq!(values("1,", 0, 9), Err("Not a valid input".to_string()));
}

#[test]
fn nothing_valid() {
    assert_eq!(values("10", 0, 9), Err("Not a valid input".to_string()));
    assert_eq!(values("a", 0, 9), Err("Not a valid input".to_string()));
    assert_eq!(values("", 0, 9), Err("Not a valid input".to_string()));
    assert_eq!(values("256", 0, 255), Err("Not a valid input".to_string()));
    assert_eq!(values("255", 0, 255), Ok(vec![255]));
}
