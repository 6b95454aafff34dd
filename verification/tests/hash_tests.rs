use rusty_map::hashable::Hashable;

#[test]
fn unsigned_hashes_are_the_value() {
    assert_eq!(5u8.hash(), 5);
    assert_eq!(500u16.hash(), 500);
    assert_eq!(70000u32.hash(), 70000);
    assert_eq!(123456789u64.hash(), 123456789);
    assert_eq!(98765usize.hash(), 98765);
}

#[test]
fn wide_hashes_truncate_to_machine_width() {
    assert_eq!(u128::MAX.hash(), usize::MAX);
    assert_eq!((usize::MAX as u128 + 1).hash(), 0);
    assert_eq!(u64::MAX.hash(), u64::MAX as usize);
}

#[test]
fn signed_hashes_reinterpret_as_unsigned() {
    assert_eq!((-1i8).hash(), -1i8 as usize);
    assert_eq!((-1i16).hash(), -1i16 as usize);
    assert_eq!((-1i32).hash(), -1i32 as usize);
    assert_eq!((-1i128).hash(), -1i128 as usize);
    assert_eq!((-1isize).hash(), -1isize as usize);
    assert_eq!(42i32.hash(), 42);
    assert_eq!(i128::MIN.hash(), i128::MIN as usize);
}

#[test]
fn signed_64_bit_hashes_by_wrapping_absolute_value() {
    assert_eq!((-5i64).hash(), 5);
    assert_eq!(5i64.hash(), 5);
    assert_eq!(i64::MIN.hash(), i64::MIN.wrapping_abs() as usize);
}

#[test]
fn char_hashes_by_code_point() {
    assert_eq!('A'.hash(), 65);
    assert_eq!('\0'.hash(), 0);
    assert_eq!('\u{1F600}'.hash(), 0x1F600);
}

#[test]
fn bool_hashes_to_zero_or_one() {
    assert_eq!(true.hash(), 1);
    assert_eq!(false.hash(), 0);
}

#[test]
fn text_hashes_by_djb2() {
    // The classic djb2 fold, computed independently.
    let mut expected: usize = 5381;
    for byte in "abc".bytes() {
        expected = (expected << 5).wrapping_add(expected).wrapping_add(byte as usize);
    }
    assert_eq!("abc".to_string().hash(), expected);
    assert_eq!("abc".hash(), expected);
    assert_eq!("".to_string().hash(), 5381);
    assert_eq!("".hash(), 5381);
}

#[test]
fn key_eq_follows_contents() {
    assert!(3u64.key_eq(&3));
    assert!(!3u64.key_eq(&4));
    assert!("abc".to_string().key_eq(&"abc".to_string()));
    assert!(!"abc".to_string().key_eq(&"abd".to_string()));
    assert!(!"abc".to_string().key_eq(&"ab".to_string()));
    assert!('q'.key_eq(&'q'));
    assert!(!true.key_eq(&false));
}
