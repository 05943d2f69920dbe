use flog::collector::{flush, log, log_str, Collector, BUFFER_SIZE};
use flog::LogItem;

fn item_of(text: &str) -> LogItem {
    let mut item = LogItem::new();
    item.str(text);
    item
}

#[test]
fn buffer_size_value() {
    assert_eq!(BUFFER_SIZE, 16384);
}

#[test]
fn small_log_is_not_written() {
    let mut collector = Collector::new();
    assert!(log(&mut collector, item_of("hello\n")).is_none());
    assert_eq!(flush(&mut collector), b"hello\n".to_vec());
}

#[test]
fn flush_empties_the_collector() {
    let mut collector = Collector::new();
    assert!(log_str(&mut collector, "abc").is_none());
    assert_eq!(flush(&mut collector), b"abc".to_vec());
    assert_eq!(flush(&mut collector), Vec::<u8>::new());
}

#[test]
fn flush_of_new_collector_is_empty() {
    let mut collector = Collector::new();
    assert_eq!(flush(&mut collector), Vec::<u8>::new());
}

#[test]
fn exactly_buffer_size_stays_pending() {
    let mut collector = Collector::new();
    let text = "x".repeat(BUFFER_SIZE);
    assert!(log_str(&mut collector, &text).is_none());
    assert_eq!(flush(&mut collector), text.into_bytes());
}

#[test]
fn one_byte_over_buffer_size_is_written() {
    let mut collector = Collector::new();
    let text = "x".repeat(BUFFER_SIZE);
    assert!(log_str(&mut collector, &text).is_none());
    let chunk = log(&mut collector, item_of("y")).expect("a chunk to write");
    assert_eq!(chunk.len(), BUFFER_SIZE + 1);
    assert_eq!(&chunk[..BUFFER_SIZE], text.as_bytes());
    assert_eq!(chunk[BUFFER_SIZE], b'y');
    assert_eq!(flush(&mut collector), Vec::<u8>::new());
}

#[test]
fn single_large_item_is_written_at_once() {
    let mut collector = Collector::new();
    assert!(log_str(&mut collector, "head ").is_none());
    let big = "z".repeat(2 * BUFFER_SIZE);
    let chunk = log(&mut collector, item_of(&big)).expect("a chunk to write");
    let mut expected = b"head ".to_vec();
    expected.extend_from_slice(big.as_bytes());
    assert_eq!(chunk, expected);
    assert_eq!(flush(&mut collector), Vec::<u8>::new());
}

#[test]
fn log_str_with_utf8() {
    let mut collector = Collector::new();
    assert!(log_str(&mut collector, "größe ✓\n").is_none());
    assert_eq!(flush(&mut collector), "größe ✓\n".as_bytes().to_vec());
}

#[test]
fn every_byte_comes_out_once_in_order() {
    let mut collector = Collector::new();
    let mut logged = Vec::new();
    let mut written = Vec::new();
    let mut chunks = 0;
    for i in 0..5000u64 {
        let mut item = LogItem::new();
        item.char('[').u64(i).str("] line ").u64(i * 7).char('\n');
        let mut check = Collector::new();
        let mut probe = LogItem::new();
        probe.char('[').u64(i).str("] line ").u64(i * 7).char('\n');
        assert!(log(&mut check, probe).is_none());
        logged.extend(flush(&mut check));
        let out = if i % 3 == 0 {
            let text = format!("<{}>", i);
            logged.extend_from_slice(text.as_bytes());
            let first = log(&mut collector, item);
            if let Some(chunk) = first {
                assert!(chunk.len() > BUFFER_SIZE);
                written.extend(chunk);
                chunks += 1;
            }
            log_str(&mut collector, &text)
        } else {
            log(&mut collector, item)
        };
        if let Some(chunk) = out {
            assert!(chunk.len() > BUFFER_SIZE);
            written.extend(chunk);
            chunks += 1;
        }
    }
    assert!(chunks > 0);
    let rest = flush(&mut collector);
    assert!(rest.len() <= BUFFER_SIZE);
    written.extend(rest);
    assert_eq!(written, logged);
}
