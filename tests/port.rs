use silly_proxy::port::parse_port;

fn args(items: &[&str]) -> Vec<String> {
    items.iter().map(|s| s.to_string()).collect()
}

#[test]
fn port_in_range_is_accepted() {
    assert_eq!(Some(8080), parse_port(&args(&["proxy", "8080"])));
    assert_eq!(Some(1024), parse_port(&args(&["proxy", "1024"])));
    assert_eq!(Some(65535), parse_port(&args(&["proxy", "65535"])));
    assert_eq!(Some(2000), parse_port(&args(&["proxy", "+2000"])));
}

#[test]
fn port_out_of_range_is_refused() {
    assert_eq!(None, parse_port(&args(&["proxy", "1023"])));
    assert_eq!(None, parse_port(&args(&["proxy", "80"])));
    assert_eq!(None, parse_port(&args(&["proxy", "65536"])));
    assert_eq!(None, parse_port(&args(&["proxy", "99999999999"])));
}

#[test]
fn port_not_a_number_is_refused() {
    assert_eq!(None, parse_port(&args(&["proxy", "abc"])));
    assert_eq!(None, parse_port(&args(&["proxy", ""])));
    assert_eq!(None, parse_port(&args(&["proxy", "+"])));
    assert_eq!(None, parse_port(&args(&["proxy", "-8080"])));
    assert_eq!(None, parse_port(&args(&["proxy", " 8080"])));
}

#[test]
fn port_wrong_argument_count_is_refused() {
    assert_eq!(None, parse_port(&args(&[])));
    assert_eq!(None, parse_port(&args(&["proxy"])));
    assert_eq!(None, parse_port(&args(&["proxy", "8080", "9090"])));
}
