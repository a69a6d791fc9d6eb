use rust_monster::ptrs_vs_arrays::array_of_pointers;
use rust_monster::ptrs_vs_arrays::common::to_index;
use rust_monster::ptrs_vs_arrays::pointer_to_array;

#[test]
fn array_of_pointers_empty_sum() {
    let ms = array_of_pointers::MapSum::new();
    assert_eq!(ms.sum(""), 0);
}

#[test]
fn array_of_pointers_one_string() {
    let mut ms = array_of_pointers::MapSum::new();
    ms.insert("foo", 3);
    assert_eq!(ms.sum(""), 3);
    assert_eq!(ms.sum("f"), 3);
    assert_eq!(ms.sum("foo"), 3);
    assert_eq!(ms.sum("bar"), 0);
}

#[test]
fn array_of_pointers_two_strings() {
    let mut ms = array_of_pointers::MapSum::new();
    ms.insert("foo", 3);
    ms.insert("fee", 2);
    assert_eq!(ms.sum(""), 5);
    assert_eq!(ms.sum("f"), 5);
    assert_eq!(ms.sum("foo"), 3);
    assert_eq!(ms.sum("fe"), 2);
    assert_eq!(ms.sum("bar"), 0);
}

#[test]
fn array_of_pointers_prefix() {
    let mut ms = array_of_pointers::MapSum::new();
    ms.insert("foo", 3);
    ms.insert("food", 2);
    assert_eq!(ms.sum(""), 5);
    assert_eq!(ms.sum("f"), 5);
    assert_eq!(ms.sum("foo"), 5);
    assert_eq!(ms.sum("food"), 2);
    assert_eq!(ms.sum("bar"), 0);
}

#[test]
fn array_of_pointers_new_number_replaces_old() {
    let mut ms = array_of_pointers::MapSum::new();
    ms.insert("apple", 3);
    ms.insert("app", 2);
    assert_eq!(ms.sum("ap"), 5);
    ms.insert("apple", -4);
    assert_eq!(ms.sum("ap"), -2);
    assert_eq!(ms.sum("app"), -2);
    assert_eq!(ms.sum("appl"), -4);
    assert_eq!(ms.sum("apples"), 0);
    ms.insert("", 10);
    assert_eq!(ms.sum(""), 8);
    assert_eq!(ms.sum("z"), 0);
}

#[test]
fn pointer_to_array_empty_sum() {
    let ms = pointer_to_array::MapSum::new();
    assert_eq!(ms.sum(""), 0);
}

#[test]
fn pointer_to_array_one_string() {
    let mut ms = pointer_to_array::MapSum::new();
    ms.insert("foo", 3);
    assert_eq!(ms.sum(""), 3);
    assert_eq!(ms.sum("f"), 3);
    assert_eq!(ms.sum("foo"), 3);
    assert_eq!(ms.sum("bar"), 0);
}

#[test]
fn pointer_to_array_two_strings() {
    let mut ms = pointer_to_array::MapSum::new();
    ms.insert("foo", 3);
    ms.insert("fee", 2);
    assert_eq!(ms.sum(""), 5);
    assert_eq!(ms.sum("f"), 5);
    assert_eq!(ms.sum("foo"), 3);
    assert_eq!(ms.sum("fe"), 2);
    assert_eq!(ms.sum("bar"), 0);
}

#[test]
fn pointer_to_array_prefix() {
    let mut ms = pointer_to_array::MapSum::new();
    ms.insert("foo", 3);
    ms.insert("food", 2);
    assert_eq!(ms.sum(""), 5);
    assert_eq!(ms.sum("f"), 5);
    assert_eq!(ms.sum("foo"), 5);
    assert_eq!(ms.sum("food"), 2);
    assert_eq!(ms.sum("bar"), 0);
}

#[test]
fn pointer_to_array_new_number_replaces_old() {
    let mut ms = pointer_to_array::MapSum::new();
    ms.insert("apple", 3);
    ms.insert("app", 2);
    assert_eq!(ms.sum("ap"), 5);
    ms.insert("apple", -4);
    assert_eq!(ms.sum("ap"), -2);
    assert_eq!(ms.sum("app"), -2);
    assert_eq!(ms.sum("appl"), -4);
    assert_eq!(ms.sum("apples"), 0);
    ms.insert("", 10);
    assert_eq!(ms.sum(""), 8);
    assert_eq!(ms.sum("z"), 0);
}

#[test]
fn letters_are_counted_from_a() {
    assert_eq!(to_index(b'a'), 0);
    assert_eq!(to_index(b'f'), 5);
    assert_eq!(to_index(b'z'), 25);
}
