use wordfreq::aggregator::AggregatorWorker;
use wordfreq::checkpoint::{batch_text, Checkpoint};
use wordfreq::reader::ReaderCursor;
use wordfreq::shared_buffer::SharedBuffer;

fn sample() -> Checkpoint {
    Checkpoint {
        buffer: vec!["a a b\n".to_string(), "é c\n".to_string()],
        cursors: vec![ReaderCursor { file_index: 1, byte_offset: 300 }],
        tables: vec![vec![("a".to_string(), 2), ("b".to_string(), 1)], vec![]],
    }
}

#[test]
fn checkpoint_layout_is_exact() {
    let c = Checkpoint { buffer: vec!["hi".to_string()], cursors: vec![], tables: vec![] };
    let mut expected = vec![1, 0, 0, 0, 0, 0, 0, 0, 2, 0, 0, 0, 0, 0, 0, 0, b'h', b'i'];
    expected.extend_from_slice(&[0u8; 16]);
    assert_eq!(c.encode(), expected);
}

#[test]
fn checkpoint_round_trip() {
    let c = sample();
    let bytes = c.encode();
    let d = Checkpoint::decode(&bytes).unwrap();
    assert_eq!(d.buffer, c.buffer);
    assert_eq!(d.cursors, c.cursors);
    assert_eq!(d.tables, c.tables);
    assert_eq!(d.encode(), bytes);
}

#[test]
fn corrupt_checkpoint_is_refused() {
    let bytes = sample().encode();
    assert!(Checkpoint::decode(&bytes[..bytes.len() - 1].to_vec()).is_none());
    let mut longer = bytes.clone();
    longer.push(0);
    assert!(Checkpoint::decode(&longer).is_none());
    assert!(Checkpoint::decode(&vec![]).is_none());
    let mut bad_utf8 = bytes.clone();
    bad_utf8[16] = 0xff;
    assert!(Checkpoint::decode(&bad_utf8).is_none());
}

#[test]
fn restored_worker_holds_saved_table() {
    let c = sample();
    let w = AggregatorWorker::restore("(\\w+)".to_string(), &c.tables[0]);
    let mut es = w.table_entries();
    es.sort();
    assert_eq!(es, vec![("a".to_string(), 2), ("b".to_string(), 1)]);
    let buf = SharedBuffer::from_items(c.buffer.clone());
    assert_eq!(buf.items(), &c.buffer);
}

#[test]
fn batch_text_checks_utf8() {
    assert_eq!(batch_text(b"ok\n".to_vec()), Some("ok\n".to_string()));
    assert_eq!(batch_text(vec![0xc3, 0x28]), None);
}
