use arraymap_codec::{string_append, string_append_str, std_isize, std_usize};

#[test]
fn append_str_slice() {
    let s = string_append_str(String::from("ab"), "cd");
    assert_eq!(s, "abcd");
}

#[test]
fn append_owned_string() {
    let t = String::from("cd");
    let s = string_append(String::from("ab"), &t);
    assert_eq!(s, "abcd");
}

#[test]
fn append_empty_pieces() {
    assert_eq!(string_append_str(String::new(), ""), "");
    assert_eq!(string_append_str(String::new(), "x"), "x");
    assert_eq!(string_append(String::from("x"), &String::new()), "x");
}

#[test]
fn numeric_width_aliases() {
    let u: std_usize = u64::MAX;
    let i: std_isize = i64::MIN;
    assert_eq!(u, u64::MAX);
    assert_eq!(i, i64::MIN);
}
