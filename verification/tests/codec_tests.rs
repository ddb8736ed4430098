use task_scheduler::task_ident::TaskIdent;

fn ident(priority: usize, name: &str, id: usize, pid: &str) -> TaskIdent {
    TaskIdent::new(priority, name.to_string(), id, pid.to_string())
}

#[test]
fn filename_encoding_is_canonical() {
    let i = ident(3, "job", 7, "abcDEF1234");
    assert_eq!(i.to_filename(), "3-abcDEF1234-7-job");
    let j = ident(0, "", 0, "p");
    assert_eq!(j.to_filename(), "0-p-0-");
}

#[test]
fn round_trip_plain() {
    let i = ident(5, "encode", 42, "tokentoken");
    let parsed = TaskIdent::from_filename(&i.to_filename()).unwrap();
    assert!(parsed == i);
}

#[test]
fn round_trip_name_with_separator() {
    let i = ident(1, "a-b-c", 9, "abcdefghij");
    let parsed = TaskIdent::from_filename(&i.to_filename()).unwrap();
    assert!(parsed == i);
    assert_eq!(parsed.name, "a-b-c");
}

#[test]
fn round_trip_large_numbers() {
    let i = ident(usize::MAX, "big", usize::MAX - 1, "zzzzzzzzzz");
    let parsed = TaskIdent::from_filename(&i.to_filename()).unwrap();
    assert!(parsed == i);
}

#[test]
fn parse_rejects_missing_separators() {
    assert!(TaskIdent::from_filename("").is_err());
    assert!(TaskIdent::from_filename("123").is_err());
    assert!(TaskIdent::from_filename("1-abc").is_err());
    assert!(TaskIdent::from_filename("1-abc-2").is_err());
}

#[test]
fn parse_rejects_bad_numbers() {
    // leading zero
    assert!(TaskIdent::from_filename("01-ab-2-n").is_err());
    // empty numeric field
    assert!(TaskIdent::from_filename("-ab-2-n").is_err());
    assert!(TaskIdent::from_filename("1-ab--n").is_err());
    // non-digits
    assert!(TaskIdent::from_filename("x-ab-2-n").is_err());
    assert!(TaskIdent::from_filename("1-ab-y-n").is_err());
    // out of range
    assert!(TaskIdent::from_filename("184467440737095516160-ab-2-n").is_err());
}

#[test]
fn parse_rejects_empty_process_token() {
    assert!(TaskIdent::from_filename("1--2-n").is_err());
}

#[test]
fn parse_accepts_exact_form() {
    let parsed = TaskIdent::from_filename("2-procidproc-11-my task").unwrap();
    assert_eq!(parsed.priority, 2);
    assert_eq!(parsed.process_id, "procidproc");
    assert_eq!(parsed.id, 11);
    assert_eq!(parsed.name, "my task");
}
