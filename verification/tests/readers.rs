use rust_monster::readers::{
    digit_to_num, drop_spaces, drop_whitespace, is_eol, is_whitespace, InPlaceRead, Input,
    ProblemReader,
};

#[test]
fn read_unsigned_test() {
    let s = "1234 4321".as_bytes();
    let mut reader = Input::new(s.to_vec());
    assert_eq!(u64::read_in_place(&mut reader), 1234);
    reader.fill_buf();
    reader.consume(1);
    assert_eq!(u64::read_in_place(&mut reader), 4321);
}

#[test]
fn read_signed_test() {
    let s = "-1234 4321 -999".as_bytes();
    let mut reader = Input::new(s.to_vec());
    assert_eq!(i64::read_in_place(&mut reader), -1234);
    reader.fill_buf();
    reader.consume(1);
    assert_eq!(i64::read_in_place(&mut reader), 4321);
    reader.fill_buf();
    reader.consume(1);
    assert_eq!(i64::read_in_place(&mut reader), -999);
}

#[test]
fn read_string_test() {
    let s = "FOO BAR\nBAZ".as_bytes();
    let mut reader = Input::new(s.to_vec());
    assert_eq!(String::read_in_place(&mut reader), "FOO BAR");
    // no need to skip whitespace
    assert_eq!(String::read_in_place(&mut reader), "BAZ");
}

#[test]
fn drop_whitespace_test() {
    let s = "  -1234 4321 999  ".as_bytes();
    let mut reader = Input::new(s.to_vec());
    drop_whitespace(&mut reader);
    assert_eq!(i64::read_in_place(&mut reader), -1234);
    drop_whitespace(&mut reader);
    assert_eq!(i64::read_in_place(&mut reader), 4321);
    drop_whitespace(&mut reader);
    assert_eq!(u64::read_in_place(&mut reader), 999);
    drop_whitespace(&mut reader);
}

#[test]
fn problem_reader_test() {
    let mut problem = ProblemReader::from_string("  -1234 4321 999  ".to_string());
    assert_eq!(problem.read::<i64>(), -1234);
    assert_eq!(problem.read::<i64>(), 4321);
    assert_eq!(problem.read::<u64>(), 999);
}

#[test]
fn problem_line_reader_test() {
    let mut problem = ProblemReader::from_string("-1234 4321\n999".to_string());
    let mut line = problem.read_line::<i64>();
    assert_eq!(line.next(), Some(-1234));
    assert_eq!(line.next(), Some(4321));
    assert_eq!(line.next(), None);
    assert_eq!(line.next(), None);
    assert_eq!(problem.read::<u64>(), 999);
}

#[test]
fn problem_count_reader_test() {
    let mut problem = ProblemReader::from_string("-1234 4321\n999 111".to_string());
    let mut values = problem.read_count::<i64>(3);
    assert_eq!(values.next(), Some(-1234));
    assert_eq!(values.next(), Some(4321));
    assert_eq!(values.next(), Some(999));
    assert_eq!(values.next(), None);
    assert_eq!(problem.read::<u64>(), 111);
}

#[test]
fn digits_and_blanks() {
    assert_eq!(digit_to_num(b'0'), Some(0));
    assert_eq!(digit_to_num(b'7'), Some(7));
    assert_eq!(digit_to_num(b'9'), Some(9));
    assert_eq!(digit_to_num(b'/'), None);
    assert_eq!(digit_to_num(b':'), None);
    assert!(is_whitespace(b' '));
    assert!(is_whitespace(b'\n'));
    assert!(!is_whitespace(b'\t'));
    assert!(!is_whitespace(b'1'));
}

#[test]
fn number_without_digits_is_zero() {
    let mut reader = Input::new(b"x12".to_vec());
    assert_eq!(u64::read_in_place(&mut reader), 0);
    assert_eq!(reader.pos, 0);
    let mut reader = Input::new(b"-x".to_vec());
    assert_eq!(i64::read_in_place(&mut reader), 0);
    assert_eq!(reader.pos, 1);
    let mut reader = Input::new(b"18446744073709551615".to_vec());
    assert_eq!(u64::read_in_place(&mut reader), u64::MAX);
    assert_eq!(reader.fill_buf(), b"");
}

#[test]
fn spaces_end_at_the_newline() {
    let mut reader = Input::new(b"  \n 5".to_vec());
    assert!(!is_eol(&reader));
    drop_spaces(&mut reader);
    assert_eq!(reader.pos, 2);
    assert!(is_eol(&reader));
    drop_whitespace(&mut reader);
    assert_eq!(reader.pos, 4);
    assert!(!is_eol(&reader));
    assert_eq!(u64::read_in_place(&mut reader), 5);
    assert!(is_eol(&reader));
}

#[test]
fn lines_are_text_without_the_newline() {
    let mut reader = Input::new("gr\u{fc}n\n\nlast".as_bytes().to_vec());
    assert_eq!(String::read_in_place(&mut reader), "gr\u{fc}n");
    assert_eq!(String::read_in_place(&mut reader), "");
    assert_eq!(String::read_in_place(&mut reader), "last");
    assert_eq!(String::read_in_place(&mut reader), "");
    assert_eq!(reader.pos, reader.bytes.len());
}
