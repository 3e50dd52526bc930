use miniactor::default_args::{f, f_default};

#[test]
fn simple_test() {
    assert_eq!(f_default(), 20);
    assert_eq!(f(20), 30);
}
