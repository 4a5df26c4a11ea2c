use spiking_network::model_file::parse_layer_sizes;

fn parse(s: &str) -> Option<Vec<u32>> {
    parse_layer_sizes(s.as_bytes())
}

#[test]
fn parses_debug_printed_sizes() {
    assert_eq!(parse("[4, 3, 12, 4, 5, 4, 6]"), Some(vec![4, 3, 12, 4, 5, 4, 6]));
    assert_eq!(parse("[7]"), Some(vec![7]));
}

#[test]
fn trims_spaces_and_brackets_at_both_ends() {
    assert_eq!(parse("  [[1, 2]] "), Some(vec![1, 2]));
    assert_eq!(parse("1, 2"), Some(vec![1, 2]));
}

#[test]
fn accepts_a_plus_sign_and_the_largest_u32() {
    assert_eq!(parse("[+7, 4294967295]"), Some(vec![7, 4294967295]));
    assert_eq!(parse("[007]"), Some(vec![7]));
}

#[test]
fn refuses_what_is_not_a_list_of_u32() {
    assert_eq!(parse("[]"), None);
    assert_eq!(parse(""), None);
    assert_eq!(parse("[4,3]"), None);
    assert_eq!(parse("[4, , 3]"), None);
    assert_eq!(parse("[4294967296]"), None);
    assert_eq!(parse("[-1]"), None);
    assert_eq!(parse("[+]"), None);
    assert_eq!(parse("[1.5]"), None);
    assert_eq!(parse("[4,  3]"), None);
}
