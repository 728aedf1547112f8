use largest_dirs::depth::{depth_limit, UNBOUNDED};

#[test]
fn no_request_is_no_bound() {
    assert_eq!(depth_limit(None), usize::MAX);
    assert_eq!(UNBOUNDED, usize::MAX);
}

#[test]
fn a_request_is_taken_as_it_is() {
    assert_eq!(depth_limit(Some(0)), 0);
    assert_eq!(depth_limit(Some(1)), 1);
    assert_eq!(depth_limit(Some(3)), 3);
    assert_eq!(depth_limit(Some(1_000_000)), 1_000_000);
}

#[test]
fn a_negative_request_lands_near_the_top() {
    assert_eq!(depth_limit(Some(-1)), usize::MAX);
    assert_eq!(depth_limit(Some(-2)), usize::MAX - 1);
}

#[test]
fn every_request_is_taken_modulo_the_range() {
    let requests: [i64; 9] = [
        i64::MIN,
        i64::MIN + 1,
        -4294967297,
        -4294967296,
        -1,
        0,
        4294967295,
        4294967296,
        i64::MAX,
    ];
    for d in requests {
        assert_eq!(depth_limit(Some(d)), d as usize, "request {}", d);
    }
}
