use cpm_scheduler::activity::uid_from_uuid_text;
use cpm_scheduler::input::split_commas;
use cpm_scheduler::text::{count_text, int_text, join, push_text};

#[test]
fn integers_in_decimal() {
    assert_eq!(int_text(0), "0");
    assert_eq!(int_text(7), "7");
    assert_eq!(int_text(14), "14");
    assert_eq!(int_text(-305), "-305");
    assert_eq!(int_text(i64::MAX as i128), "9223372036854775807");
    assert_eq!(int_text(i128::MAX), "170141183460469231731687303715884105727");
    assert_eq!(int_text(i128::MIN), "-170141183460469231731687303715884105728");
    assert_eq!(count_text(0), "0");
    assert_eq!(count_text(1200), "1200");
}

#[test]
fn joining() {
    let none: Vec<String> = Vec::new();
    assert_eq!(join(&none, ", "), "");
    assert_eq!(join(&vec!["A".to_string()], ", "), "A");
    assert_eq!(join(&vec!["A".to_string(), "B".to_string(), "C".to_string()], ", "), "A, B, C");
    let mut s = "ab".to_string();
    push_text(&mut s, "cd");
    assert_eq!(s, "abcd");
}

#[test]
fn splitting_on_commas() {
    assert_eq!(split_commas(""), vec![""]);
    assert_eq!(split_commas("A"), vec!["A"]);
    assert_eq!(split_commas("A, B,,C "), vec!["A", " B", "", "C "]);
    assert_eq!(split_commas(",x,"), vec!["", "x", ""]);
}

#[test]
fn uid_from_text() {
    assert_eq!(uid_from_uuid_text("3fa85f64-5717-4562-b3fc-2c963f66afa6"), "3FA85F64");
    assert_eq!(uid_from_uuid_text("0123abcd"), "0123ABCD");
}
