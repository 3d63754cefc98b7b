use sonic::task_id::{push_decimal, TaskId};

#[test]
fn round_trip_display() {
    let id = TaskId::new("hello");
    assert_eq!(id.to_string(), "hello");
    assert_eq!(id.as_str(), "hello");
}

#[test]
fn clone_is_cheap_and_equal() {
    let a = TaskId::new("x");
    let b = a.clone();
    assert_eq!(a, b);
}

#[test]
fn from_various_string_kinds() {
    let _: TaskId = "lit".into();
    let _: TaskId = String::from("owned").into();
    let _: TaskId = (&String::from("ref")).into();
}

#[test]
fn conversions_keep_the_text() {
    let a: TaskId = "lit".into();
    let b: TaskId = String::from("owned").into();
    let c: TaskId = (&String::from("ref")).into();
    assert_eq!(a.as_str(), "lit");
    assert_eq!(b.as_str(), "owned");
    assert_eq!(c.as_str(), "ref");
    assert_eq!(TaskId::from_string(String::from("s")).as_str(), "s");
}

#[test]
fn different_text_is_a_different_id() {
    assert_ne!(TaskId::new("a"), TaskId::new("b"));
    assert_eq!(TaskId::new(""), TaskId::new(""));
}

#[test]
fn decimal_rendering() {
    let mut s = String::from("task-");
    push_decimal(&mut s, 0);
    assert_eq!(s, "task-0");
    let mut s = String::new();
    push_decimal(&mut s, 1234567890);
    assert_eq!(s, "1234567890");
    let mut s = String::new();
    push_decimal(&mut s, u64::MAX);
    assert_eq!(s, u64::MAX.to_string());
}
