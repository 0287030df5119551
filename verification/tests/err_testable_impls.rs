use subcase::err_testable::ErrTestable;

#[test]
fn ok_result_is_no_failure() {
    let r: Result<u32, String> = Ok(5);
    assert!(!ErrTestable::is_err(&r));
}

#[test]
fn err_result_is_a_failure() {
    let r: Result<u32, String> = Err(String::from("boom"));
    assert!(ErrTestable::is_err(&r));
}

#[test]
fn some_option_is_no_failure() {
    let o: Option<u32> = Some(1);
    assert!(!ErrTestable::is_err(&o));
}

#[test]
fn none_option_is_a_failure() {
    let o: Option<u32> = None;
    assert!(ErrTestable::is_err(&o));
}

#[test]
fn unit_never_fails() {
    let u: () = ();
    assert!(!u.is_err());
}
