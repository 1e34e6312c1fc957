use cdq::errors::NavError;
use cdq::stack::Cache;

#[test]
fn lifo_push_peek_pop() {
    let mut c = Cache::new();
    c.push(b"/home/a".to_vec(), 100);
    c.push(b"/home/b".to_vec(), 101);
    c.push(b"/home/c".to_vec(), 102);

    let top = c.peek().expect("stack holds entries");
    assert_eq!(top.path, b"/home/c".to_vec());

    let p3 = c.try_pop().expect("third entry");
    assert_eq!(p3.path, b"/home/c".to_vec());
    let p2 = c.try_pop().expect("second entry");
    assert_eq!(p2.path, b"/home/b".to_vec());
    let p1 = c.try_pop().expect("first entry");
    assert_eq!(p1.path, b"/home/a".to_vec());
    assert!(c.try_pop().is_none());
}

#[test]
fn push_assigns_increasing_ids_from_one() {
    let mut c = Cache::new();
    let e1 = c.push(b"/a".to_vec(), 0);
    let e2 = c.push(b"/b".to_vec(), 0);
    assert_eq!(e1.id, 1);
    assert_eq!(e2.id, 2);
    c.try_pop();
    let e2_again = c.push(b"/c".to_vec(), 0);
    assert_eq!(e2_again.id, 2);
}

#[test]
fn pop_on_empty_returns_absence_and_leaves_file_unchanged() {
    let mut c = Cache::new();
    let before = c.encode();
    assert!(c.try_pop().is_none());
    let after = c.encode();
    assert_eq!(before, after);
    assert_eq!(after, Vec::<u8>::new());
}

#[test]
fn pop_until_missing_id_reports_not_found_and_keeps_bytes() {
    let mut c = Cache::new();
    c.push(b"/home/a".to_vec(), 1);
    c.push(b"/home/b".to_vec(), 2);
    let before = c.encode();
    let r = c.try_pop_until(99);
    assert!(matches!(r, Err(NavError::NotFound)));
    let after = c.encode();
    assert_eq!(before, after);
}

#[test]
fn pop_until_top_id_behaves_as_single_pop() {
    let mut a = Cache::new();
    let mut b = Cache::new();
    for (path, ts) in [(b"/one".to_vec(), 1u64), (b"/two".to_vec(), 2u64)] {
        a.push(path.clone(), ts);
        b.push(path, ts);
    }
    let top_id = a.peek().unwrap().id;

    let removed = a.try_pop_until(top_id).expect("top id is present");
    let popped = b.try_pop().expect("stack holds entries");

    assert_eq!(removed.len(), 1);
    assert_eq!(removed[0].id, popped.id);
    assert_eq!(removed[0].path, popped.path);
    assert_eq!(a.encode(), b.encode());
}

#[test]
fn store_load_round_trip_preserves_peek() {
    let mut c = Cache::new();
    c.push(b"/home/x".to_vec(), 41);
    let e = c.push(b"/home/y".to_vec(), 42);

    let bytes = c.encode();
    let reloaded = Cache::load(&bytes).expect("own encoding loads back");
    let top = reloaded.peek().expect("reloaded stack is non-empty");
    assert_eq!(top.id, e.id);
    assert_eq!(top.path, e.path);
    assert_eq!(top.timestamp, e.timestamp);
}

#[test]
fn pop_until_bottom_unwinds_everything_in_order() {
    let mut c = Cache::new();
    let a = c.push(b"/home/a".to_vec(), 10);
    let b = c.push(b"/home/b".to_vec(), 11);
    let c3 = c.push(b"/home/c".to_vec(), 12);
    assert_eq!((a.id, b.id, c3.id), (1, 2, 3));

    let removed = c.try_pop_until(1).expect("id 1 is at the bottom");
    let paths: Vec<Vec<u8>> = removed.iter().map(|e| e.path.clone()).collect();
    assert_eq!(
        paths,
        vec![b"/home/c".to_vec(), b"/home/b".to_vec(), b"/home/a".to_vec()]
    );
    assert!(c.peek().is_none());
    assert_eq!(c.encode(), Vec::<u8>::new());
}

#[test]
fn encode_writes_one_line_per_entry() {
    let mut c = Cache::new();
    c.push(b"/home/a dir".to_vec(), 7);
    assert_eq!(c.encode(), b"1 7 /home/a dir\n".to_vec());
    c.push(b"/b".to_vec(), 8);
    assert_eq!(c.encode(), b"1 7 /home/a dir\n2 8 /b\n".to_vec());
}

#[test]
fn load_empty_file_gives_empty_stack() {
    let c = Cache::load(b"").expect("empty file is a valid empty stack");
    assert!(c.peek().is_none());
}

#[test]
fn malformed_trailing_record_is_ignored_on_load() {
    let data = b"1 10 /home/a\n2 11 /home/b\n3 12 /ho";
    let c = Cache::load(data).expect("complete records are readable");
    let top = c.peek().expect("two complete records");
    assert_eq!(top.id, 2);
    assert_eq!(top.path, b"/home/b".to_vec());
}

#[test]
fn malformed_complete_line_is_corrupt_state() {
    let r = Cache::load(b"1 10 /home/a\ngarbage\n");
    assert!(matches!(r, Err(NavError::CorruptState)));
}

#[test]
fn non_increasing_ids_are_corrupt_state() {
    let r = Cache::load(b"2 0 /a\n1 0 /b\n");
    assert!(matches!(r, Err(NavError::CorruptState)));
}

#[test]
fn huge_id_overflow_is_corrupt_state() {
    let ok = Cache::load(b"18446744073709551615 0 /a\n").expect("u64::MAX still fits");
    assert_eq!(ok.peek().unwrap().id, u64::MAX);
    let r = Cache::load(b"18446744073709551616 0 /a\n");
    assert!(matches!(r, Err(NavError::CorruptState)));
}

#[test]
fn record_without_both_separators_is_corrupt_state() {
    assert!(matches!(
        Cache::load(b"1 /home/a\n"),
        Err(NavError::CorruptState)
    ));
    assert!(matches!(Cache::load(b"1 2 \n"), Err(NavError::CorruptState)));
}
