use rmenu::feed::{line_item, ItemFeed, LineBatch, BATCH};
use rmenu::items::parse;

#[test]
fn item_feed_drains_batches_in_order_and_signals_eof() {
    let mut feed = ItemFeed::new();
    feed.push(vec![parse("a")]);
    feed.push(vec![parse("b"), parse("c")]);
    let got: Vec<String> = feed.drain().into_iter().map(|i| i.text).collect();
    assert_eq!(got, vec!["a", "b", "c"]);
    assert!(feed.drain().is_empty(), "drain empties the queue");
    assert!(!feed.done());
    feed.mark_done();
    assert!(feed.done());
}

#[test]
fn item_feed_skips_invalid_utf8_without_truncating() {
    let mut feed = ItemFeed::new();
    feed.read_into(&b"good\n\xff not utf8\nlast\n"[..]);
    let got: Vec<String> = feed.drain().into_iter().map(|i| i.text).collect();
    assert_eq!(got, vec!["good", "last"], "a bad line must not end the stream");
}

#[test]
fn line_endings_are_stripped_like_bufread_lines() {
    assert_eq!(line_item(b"crlf\r\n").map(|i| i.text), Some("crlf".to_string()));
    assert_eq!(line_item(b"lf\n").map(|i| i.text), Some("lf".to_string()));
    assert_eq!(line_item(b"last\r").map(|i| i.text), Some("last\r".to_string()));
    assert_eq!(line_item("火狐\n".as_bytes()).map(|i| i.lc), Some("火狐".to_string()));
    assert!(line_item(b"\xc3\x28\n").is_none());
}

#[test]
fn read_into_keeps_an_unterminated_last_line_and_blank_lines() {
    let mut feed = ItemFeed::new();
    feed.read_into(b"one\n\ntwo");
    let got: Vec<String> = feed.drain().into_iter().map(|i| i.text).collect();
    assert_eq!(got, vec!["one", "", "two"]);
}

#[test]
fn batches_are_handed_over_when_full() {
    let mut batch = LineBatch::new();
    for i in 0..BATCH - 1 {
        assert!(batch.push_line(format!("line {i}\n").as_bytes()).is_none());
    }
    let full = batch.push_line(b"last\n").expect("the batch is full");
    assert_eq!(full.len(), BATCH);
    assert_eq!(full[BATCH - 1].text, "last");
    assert!(batch.finish().is_none(), "a handed-over batch starts over empty");
}

#[test]
fn many_lines_arrive_in_order_across_batches() {
    let mut text = String::new();
    for i in 0..(2 * BATCH + 5) {
        text.push_str(&format!("{i}\n"));
    }
    let mut feed = ItemFeed::new();
    feed.read_into(text.as_bytes());
    let got = feed.drain();
    assert_eq!(got.len(), 2 * BATCH + 5);
    assert_eq!(got[BATCH].text, BATCH.to_string());
}
