use wordfreq::fields::derivefields;
use wordfreq::aggregator::AggregatorWorker;
use wordfreq::freq_table::{bucket_of, FrequencyTable};
use wordfreq::orchestrator::{build_readers, collect_all, distribute, partition_plan};
use wordfreq::reader::{next_batch, ReaderCursor, ReaderWorker};
use wordfreq::report::{format_report, sorted_entries, token_less_eq};
use wordfreq::shared_buffer::SharedBuffer;
use wordfreq::tokens::tokenize;

fn s(x: &str) -> String {
    x.to_string()
}

/// Runs every reader to the end over in-memory files, pushing batches on `shared`.
fn read_all(readers: &mut Vec<ReaderWorker>, files: &[(&str, &[u8])], shared: &mut SharedBuffer<String>, threshold: usize) {
    for r in readers.iter_mut() {
        while !r.is_finished() {
            let name = r.file_names()[r.position().file_index].clone();
            let content = files.iter().find(|f| f.0 == name).unwrap().1.to_vec();
            if let Some(b) = r.step(&content, threshold) {
                shared.push(String::from_utf8(b).unwrap());
            }
        }
    }
}

fn run_worker(w: &mut AggregatorWorker, shared: &mut SharedBuffer<String>, isolated: bool) {
    while w.fetch(shared, isolated) {
        assert!(w.process_current());
    }
}

#[test]
fn table_put_get_and_overwrite() {
    let mut t = FrequencyTable::new();
    assert!(t.is_empty());
    assert_eq!(t.get(&s("a")), None);
    t.put(s("a"), 3);
    t.put(s("b"), 4);
    assert_eq!(t.get(&s("a")), Some(3));
    t.put(s("a"), 9);
    assert_eq!(t.get(&s("a")), Some(9));
    assert_eq!(t.get(&s("b")), Some(4));
    assert!(!t.is_empty());
    t.clear();
    assert!(t.is_empty());
    assert_eq!(t.get(&s("a")), None);
}

#[test]
fn table_update_with_defaults_to_zero() {
    let mut t = FrequencyTable::new();
    t.update_with(&s("x"), |v| v + 5);
    t.update_with(&s("x"), |v| v * 2);
    assert_eq!(t.get(&s("x")), Some(10));
}

#[test]
fn table_add_count_saturates() {
    let mut t = FrequencyTable::new();
    t.put(s("x"), u64::MAX - 1);
    t.add_count(&s("x"), 5);
    assert_eq!(t.get(&s("x")), Some(u64::MAX));
}

#[test]
fn table_many_keys_share_buckets() {
    let mut t = FrequencyTable::new();
    for i in 0..200u64 {
        t.put(format!("k{}", i), i);
    }
    for i in 0..200u64 {
        assert_eq!(t.get(&format!("k{}", i)), Some(i));
    }
    assert_eq!(t.entries().len(), 200);
}

#[test]
fn bucket_index_exact() {
    // 'a' is 97: (0 * 31 + 97) % 16 == 1; "ab": (1 * 31 + 98) % 16 == 1.
    assert_eq!(bucket_of(&s("")), 0);
    assert_eq!(bucket_of(&s("a")), 1);
    assert_eq!(bucket_of(&s("ab")), 1);
}

#[test]
fn merge_disjoint_is_union() {
    let mut a = FrequencyTable::new();
    a.put(s("x"), 1);
    let mut b = FrequencyTable::new();
    b.put(s("y"), 2);
    let mut target = FrequencyTable::new();
    a.merge_into(&mut target);
    b.merge_into(&mut target);
    assert_eq!(target.get(&s("x")), Some(1));
    assert_eq!(target.get(&s("y")), Some(2));
    assert_eq!(target.entries().len(), 2);
}

#[test]
fn merge_overlap_sums_in_any_order() {
    let mut a = FrequencyTable::new();
    a.put(s("x"), 1);
    a.put(s("z"), 7);
    let mut b = FrequencyTable::new();
    b.put(s("x"), 2);
    let mut ab = FrequencyTable::new();
    a.merge_into(&mut ab);
    b.merge_into(&mut ab);
    let mut ba = FrequencyTable::new();
    b.merge_into(&mut ba);
    a.merge_into(&mut ba);
    assert_eq!(ab.get(&s("x")), Some(3));
    assert_eq!(ba.get(&s("x")), Some(3));
    assert_eq!(sorted_entries(&ab), sorted_entries(&ba));
}

#[test]
fn buffer_is_last_in_first_out() {
    let mut b: SharedBuffer<String> = SharedBuffer::new();
    assert!(b.is_empty());
    assert_eq!(b.pop(), None);
    b.push(s("one"));
    b.push(s("two"));
    assert_eq!(b.len(), 2);
    assert_eq!(b.pop_with_len(), (Some(s("two")), 2));
    assert_eq!(b.pop(), Some(s("one")));
    b.push(s("three"));
    b.clear();
    assert_eq!(b.len(), 0);
}

#[test]
fn batches_cut_after_whole_lines() {
    let content = b"ab\ncd\nef".to_vec();
    assert_eq!(next_batch(&content, 0, 4), Some((b"ab\ncd\n".to_vec(), 6)));
    assert_eq!(next_batch(&content, 6, 4), Some((b"ef".to_vec(), 8)));
    assert_eq!(next_batch(&content, 8, 4), None);
    assert_eq!(next_batch(&content, 0, 0), Some((b"ab\n".to_vec(), 3)));
}

#[test]
fn batches_rebuild_the_file() {
    let content = b"one line\nsecond line here\n\nlast without end".to_vec();
    for threshold in 0..50usize {
        let mut off = 0usize;
        let mut rebuilt: Vec<u8> = Vec::new();
        let mut batches = Vec::new();
        while let Some((b, end)) = next_batch(&content, off, threshold) {
            rebuilt.extend_from_slice(&b);
            batches.push(b);
            off = end;
        }
        assert_eq!(rebuilt, content);
        for b in &batches[..batches.len() - 1] {
            assert_eq!(*b.last().unwrap(), b'\n');
        }
    }
}

#[test]
fn reader_cursor_moves_as_described() {
    let content = b"aaaa\nbb\n".to_vec();
    let mut r = ReaderWorker::new(vec![s("f"), s("g")]);
    assert_eq!(r.step(&content, 3), Some(b"aaaa\n".to_vec()));
    assert_eq!(r.position(), ReaderCursor { file_index: 0, byte_offset: 5 });
    assert_eq!(r.step(&content, 3), Some(b"bb\n".to_vec()));
    assert_eq!(r.position(), ReaderCursor { file_index: 0, byte_offset: 8 });
    assert_eq!(r.step(&content, 3), None);
    assert_eq!(r.position(), ReaderCursor { file_index: 1, byte_offset: 0 });
    assert_eq!(r.step(&b"x".to_vec(), 3), Some(b"x".to_vec()));
    assert!(r.is_finished());
}

#[test]
fn resume_from_checkpoint_matches_full_run() {
    let files: [(&str, &[u8]); 2] = [("f1", b"a a b\nb c\nc c\n"), ("f2", b"d\ne e\n")];
    let names = vec![s("f1"), s("f2")];
    let mut full = SharedBuffer::new();
    let mut readers = vec![ReaderWorker::new(names.clone())];
    read_all(&mut readers, &files, &mut full, 4);
    // Interrupted run: two steps, then a new reader from the saved cursor.
    let mut first = ReaderWorker::new(names.clone());
    let mut resumed_buf = SharedBuffer::new();
    for _ in 0..2 {
        let name = first.file_names()[first.position().file_index].clone();
        let content = files.iter().find(|f| f.0 == name).unwrap().1.to_vec();
        if let Some(b) = first.step(&content, 4) {
            resumed_buf.push(String::from_utf8(b).unwrap());
        }
    }
    let cursor = first.position();
    let mut readers = vec![ReaderWorker::resume(names, cursor)];
    read_all(&mut readers, &files, &mut resumed_buf, 4);
    let mut a = Vec::new();
    while let Some(x) = full.pop() {
        a.push(x);
    }
    let mut b = Vec::new();
    while let Some(x) = resumed_buf.pop() {
        b.push(x);
    }
    assert_eq!(a, b);
}

#[test]
fn tokenize_takes_first_group() {
    let toks = tokenize(&s("(\\w+)"), &s("a a b\nb c\n")).unwrap();
    assert_eq!(toks, vec![Some(s("a")), Some(s("a")), Some(s("b")), Some(s("b")), Some(s("c"))]);
    assert_eq!(tokenize(&s("(unclosed"), &s("x")), None);
}

#[test]
fn stopped_worker_exits_on_empty_buffer() {
    let mut w = AggregatorWorker::new(s("(\\w+)"));
    let mut shared: SharedBuffer<String> = SharedBuffer::new();
    w.stop_when_finished();
    assert!(!w.fetch(&mut shared, false));
    assert!(!w.is_active());
}

#[test]
fn active_worker_keeps_working() {
    let mut w = AggregatorWorker::new(s("(\\w+)"));
    let mut shared: SharedBuffer<String> = SharedBuffer::new();
    w.activate();
    assert!(w.fetch(&mut shared, false));
    shared.push(s("x y"));
    w.stop_when_finished();
    assert!(w.fetch(&mut shared, false));
    assert!(w.process_current());
    assert!(!w.fetch(&mut shared, false));
    let mut t = FrequencyTable::new();
    w.collect(&mut t);
    assert_eq!(t.get(&s("x")), Some(1));
    // A second collect adds nothing.
    w.collect(&mut t);
    assert_eq!(t.get(&s("x")), Some(1));
}

#[test]
fn bad_pattern_keeps_batch() {
    let mut w = AggregatorWorker::new(s("(a"));
    let mut shared: SharedBuffer<String> = SharedBuffer::new();
    shared.push(s("a"));
    assert!(w.fetch(&mut shared, false));
    assert!(!w.process_current());
    assert!(w.fetch(&mut shared, false));
}

#[test]
fn partition_plan_covers_every_file() {
    assert_eq!(partition_plan(5, 3), vec![(0, 1), (1, 2), (2, 3), (3, 5)]);
    assert_eq!(partition_plan(4, 2), vec![(0, 2), (2, 4)]);
    assert_eq!(partition_plan(2, 8), vec![(0, 1), (1, 2)]);
    assert_eq!(partition_plan(0, 1), vec![]);
    let files: Vec<String> = (0..7).map(|i| format!("f{}", i)).collect();
    let readers = build_readers(&files, 3);
    let mut all = Vec::new();
    for r in &readers {
        all.extend(r.file_names().iter().cloned());
    }
    assert_eq!(all, files);
}

#[test]
fn distribute_empties_shared_buffer() {
    let mut shared: SharedBuffer<String> = SharedBuffer::new();
    for i in 0..5 {
        shared.push(format!("b{}", i));
    }
    let mut ws = vec![AggregatorWorker::new(s("(\\w+)")), AggregatorWorker::new(s("(\\w+)"))];
    distribute(&mut shared, &mut ws);
    assert!(shared.is_empty());
    assert_eq!(ws[0].private_buf_size(), 3);
    assert_eq!(ws[1].private_buf_size(), 2);
}

#[test]
fn report_is_sorted_with_exact_counts() {
    let mut t = FrequencyTable::new();
    t.put(s("pear"), 1234);
    t.put(s("apple"), 0);
    t.put(s("app"), 7);
    assert!(token_less_eq(&s("app"), &s("apple")));
    assert!(!token_less_eq(&s("b"), &s("apple")));
    assert_eq!(format_report(&sorted_entries(&t)), "app: 7\napple: 0\npear: 1234\n");
}

#[test]
fn one_reader_one_aggregator_shared_pull() {
    let files: [(&str, &[u8]); 1] = [("in.txt", b"a a b\nb c\n")];
    let mut readers = build_readers(&vec![s("in.txt")], 1);
    let mut shared = SharedBuffer::new();
    let mut ws = vec![AggregatorWorker::new(s("(\\w+)"))];
    ws[0].activate();
    read_all(&mut readers, &files, &mut shared, 1024);
    ws[0].stop_when_finished();
    run_worker(&mut ws[0], &mut shared, false);
    let mut result = FrequencyTable::new();
    collect_all(&mut ws, &mut result);
    assert_eq!(format_report(&sorted_entries(&result)), "a: 2\nb: 2\nc: 1\n");
}

#[test]
fn two_readers_two_aggregators_distribute() {
    let files: [(&str, &[u8]); 2] = [("p1.txt", b"a a b\n"), ("p2.txt", b"b c\n")];
    let mut readers = build_readers(&vec![s("p1.txt"), s("p2.txt")], 2);
    assert_eq!(readers.len(), 2);
    let mut shared = SharedBuffer::new();
    let mut ws = vec![AggregatorWorker::new(s("(\\w+)")), AggregatorWorker::new(s("(\\w+)"))];
    for w in ws.iter_mut() {
        w.stop_when_finished();
    }
    read_all(&mut readers, &files, &mut shared, 1024);
    for w in ws.iter_mut() {
        w.activate();
    }
    distribute(&mut shared, &mut ws);
    for w in ws.iter_mut() {
        w.stop_when_finished();
        run_worker(w, &mut shared, true);
    }
    let mut result = FrequencyTable::new();
    collect_all(&mut ws, &mut result);
    assert_eq!(format_report(&sorted_entries(&result)), "a: 2\nb: 2\nc: 1\n");
}

#[test]
fn derivefields_prepends_numbered_fields() {
    assert_eq!(
        derivefields(&s("u8"), &s("f"), 3, &s("x: u32,")),
        "pub f1: u8, pub f2: u8, x: u32,"
    );
    assert_eq!(derivefields(&s("u8"), &s("f"), 1, &s("x: u32,")), "x: u32,");
    assert_eq!(derivefields(&s("u8"), &s("f"), 0, &s("")), "");
    let many = derivefields(&s("T"), &s("a"), 12, &s(""));
    assert!(many.ends_with("pub a10: T, pub a11: T, "));
}

#[test]
fn merged_counts_sum_to_matches() {
    let pattern = s("(\\w+)");
    let mut w1 = AggregatorWorker::new(pattern.clone());
    let mut w2 = AggregatorWorker::new(pattern.clone());
    let mut shared: SharedBuffer<String> = SharedBuffer::new();
    shared.push(s("x y x\nz\n"));
    shared.push(s("y y\n"));
    w1.stop_when_finished();
    w2.stop_when_finished();
    assert!(w1.fetch(&mut shared, false));
    assert!(w2.fetch(&mut shared, false));
    assert!(w1.process_current());
    assert!(w2.process_current());
    let mut ws = vec![w1, w2];
    let mut result = FrequencyTable::new();
    collect_all(&mut ws, &mut result);
    let total: u64 = result.entries().iter().map(|e| e.1).sum();
    let matches = tokenize(&pattern, &s("x y x\nz\n")).unwrap().len()
        + tokenize(&pattern, &s("y y\n")).unwrap().len();
    assert_eq!(total as usize, matches);
    assert_eq!(total, 6);
}
