use flog::collector::{flush, log, Collector};
use flog::LogItem;

/// The bytes an item contributes to the log, read back through a collector.
fn bytes_of(item: LogItem) -> Vec<u8> {
    let mut collector = Collector::new();
    let mut out = log(&mut collector, item).unwrap_or_default();
    out.extend(flush(&mut collector));
    out
}

fn field(text: &str) -> Vec<u8> {
    let mut expected = vec![b' '; 20 - text.len()];
    expected.extend_from_slice(text.as_bytes());
    expected
}

/// Reads a number field back: leading spaces, then decimal digits.
fn read_field(bytes: &[u8]) -> u64 {
    let digits: Vec<u8> = bytes.iter().copied().skip_while(|b| *b == b' ').collect();
    assert!(digits.iter().all(|b| b.is_ascii_digit()));
    digits.iter().fold(0u64, |acc, b| acc * 10 + (*b - b'0') as u64)
}

#[test]
fn new_item_is_empty() {
    assert_eq!(bytes_of(LogItem::new()), Vec::<u8>::new());
}

#[test]
fn default_item_is_empty() {
    assert_eq!(bytes_of(LogItem::default()), Vec::<u8>::new());
}

#[test]
fn u64_zero_is_only_padding() {
    let mut item = LogItem::new();
    item.u64(0);
    assert_eq!(bytes_of(item), vec![b' '; 20]);
}

#[test]
fn u64_right_aligns_digits() {
    let mut item = LogItem::new();
    item.u64(42);
    assert_eq!(bytes_of(item), field("42"));
}

#[test]
fn u64_single_digit() {
    let mut item = LogItem::new();
    item.u64(7);
    assert_eq!(bytes_of(item), field("7"));
}

#[test]
fn u64_inner_zeros_are_kept() {
    let mut item = LogItem::new();
    item.u64(1_000_205);
    assert_eq!(bytes_of(item), field("1000205"));
}

#[test]
fn u64_max_fills_the_field() {
    let mut item = LogItem::new();
    item.u64(u64::MAX);
    assert_eq!(bytes_of(item), b"18446744073709551615".to_vec());
}

#[test]
fn u64_twenty_digits_on_an_empty_item() {
    let mut item = LogItem::new();
    item.u64(10_000_000_000_000_000_000);
    assert_eq!(bytes_of(item), b"10000000000000000000".to_vec());
}

#[test]
fn u64_appends_after_existing_bytes() {
    let mut item = LogItem::new();
    item.str("n=").u64(1234);
    let mut expected = b"n=".to_vec();
    expected.extend(field("1234"));
    assert_eq!(bytes_of(item), expected);
}

#[test]
fn u64_field_reads_back() {
    for n in [0u64, 1, 9, 10, 99, 100, 65_535, 4_294_967_296, 999_999_999_999, u64::MAX - 1, u64::MAX] {
        let mut item = LogItem::new();
        item.u64(n);
        let bytes = bytes_of(item);
        assert_eq!(bytes.len(), 20);
        assert_eq!(read_field(&bytes), n);
    }
}

#[test]
fn u64_fields_of_different_numbers_differ() {
    let mut a = LogItem::new();
    a.u64(10);
    let mut b = LogItem::new();
    b.u64(100);
    assert_ne!(bytes_of(a), bytes_of(b));
}

#[test]
fn str_appends_utf8_bytes() {
    let mut item = LogItem::new();
    item.str("héllo").str(" €");
    assert_eq!(bytes_of(item), "héllo €".as_bytes().to_vec());
}

#[test]
fn str_empty_appends_nothing() {
    let mut item = LogItem::new();
    item.str("a").str("").str("b");
    assert_eq!(bytes_of(item), b"ab".to_vec());
}

#[test]
fn char_ascii_is_one_byte() {
    let mut item = LogItem::new();
    item.char('[').char('\n');
    assert_eq!(bytes_of(item), b"[\n".to_vec());
}

#[test]
fn char_keeps_low_eight_bits_of_code_point() {
    let mut item = LogItem::new();
    item.char('é').char('€');
    assert_eq!(bytes_of(item), vec![0xE9, 0xAC]);
}

#[test]
fn chained_line_as_in_use() {
    let mut item = LogItem::new();
    item.char('[').u64(15).str("] ").u64(3).str(" start\n");
    let mut expected = b"[".to_vec();
    expected.extend(field("15"));
    expected.extend_from_slice(b"] ");
    expected.extend(field("3"));
    expected.extend_from_slice(b" start\n");
    assert_eq!(bytes_of(item), expected);
}

#[test]
fn from_string_holds_its_bytes() {
    let item = LogItem::from(String::from("ünïcode line\n"));
    assert_eq!(bytes_of(item), "ünïcode line\n".as_bytes().to_vec());
}

#[test]
fn from_string_then_append() {
    let mut item: LogItem = String::from("x=").into();
    item.u64(5);
    let mut expected = b"x=".to_vec();
    expected.extend(field("5"));
    assert_eq!(bytes_of(item), expected);
}

#[test]
fn from_long_string() {
    let text = "a".repeat(200);
    let item = LogItem::from(text.clone());
    assert_eq!(bytes_of(item), text.into_bytes());
}

#[test]
fn u64_fields_sort_in_numeric_order() {
    let numbers = [0u64, 1, 5, 9, 10, 11, 99, 100, 101, 1_000_000, u64::MAX - 1, u64::MAX];
    for &a in &numbers {
        for &b in &numbers {
            let mut x = LogItem::new();
            x.str("t=").u64(a);
            let mut y = LogItem::new();
            y.str("t=").u64(b);
            let (x, y) = (bytes_of(x), bytes_of(y));
            assert_eq!(x < y, a < b);
            assert_eq!(x == y, a == b);
        }
    }
}
