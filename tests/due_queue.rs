use cw_subscription::due_key::{decode_key, decode_key_step, encode_key, DueEntry};
use cw_subscription::due_queue::{DueQueue, QueueError};

fn entry(t: i64, plan: u128, who: &str) -> DueEntry {
    DueEntry {
        due_time: t,
        plan_id: plan,
        subscriber: who.as_bytes().to_vec(),
    }
}

#[test]
fn key_layout_is_exact() {
    let k = encode_key(1, 2, b"ab");
    let mut want = vec![0x80, 0, 0, 0, 0, 0, 0, 1, 0, 16];
    want.extend_from_slice(&[0; 15]);
    want.push(2);
    want.extend_from_slice(b"ab");
    assert_eq!(k, want);
    let neg = encode_key(-1, 0, b"");
    assert_eq!(&neg[..8], &[0x7f, 0xff, 0xff, 0xff, 0xff, 0xff, 0xff, 0xff]);
}

#[test]
fn key_order_crosses_zero() {
    let a = encode_key(-5, 9, b"z");
    let b = encode_key(3, 1, b"a");
    let c = encode_key(3, 2, b"a");
    let d = encode_key(3, 2, b"ab");
    assert!(a < b && b < c && c < d);
    assert!(encode_key(i64::MIN, 0, b"") < encode_key(i64::MAX, 0, b""));
}

#[test]
fn key_round_trip() {
    for e in [
        entry(-123456789, 77, "cro1abc"),
        entry(i64::MAX, u128::MAX, ""),
        entry(i64::MIN, 0, "x"),
    ] {
        let k = e.key();
        assert_eq!(decode_key(&k), Some(e));
    }
    assert_eq!(decode_key(&[0; 25]), None);
    let mut bad = encode_key(1, 1, b"s");
    bad[9] = 15;
    assert_eq!(decode_key(&bad), None);
}

#[test]
fn key_step_reads_length_prefix() {
    let buf = [0u8, 3, 7, 8, 9, 10];
    let (seg, rest) = decode_key_step(&buf).unwrap();
    assert_eq!(seg, &[7, 8, 9]);
    assert_eq!(rest, &[10]);
    assert_eq!(decode_key_step(&[0, 5, 1]), None);
    assert_eq!(decode_key_step(&[0]), None);
    let (seg, rest) = decode_key_step(&[0, 0]).unwrap();
    assert!(seg.is_empty() && rest.is_empty());
}

#[test]
fn schedule_then_listed() {
    let mut q = DueQueue::new();
    let s = entry(1000, 1, "alice");
    assert_eq!(q.schedule(&s), Ok(()));
    assert!(q.contains(&s));
    assert_eq!(q.schedule(&s), Err(QueueError::AlreadyScheduled));
    assert_eq!(q.due_before(1000, 10), vec![s.clone()]);
    assert_eq!(q.due_before(999, 10), vec![]);
}

#[test]
fn reschedule_moves_entry() {
    let mut q = DueQueue::new();
    let s = entry(1000, 1, "alice");
    q.schedule(&s).unwrap();
    assert_eq!(q.reschedule(1, b"alice", 1000, 2000), Ok(()));
    assert_eq!(q.due_before(1500, 10), vec![]);
    assert_eq!(q.due_before(2000, 10), vec![entry(2000, 1, "alice")]);
    assert_eq!(
        q.reschedule(1, b"alice", 1000, 3000),
        Err(QueueError::NotScheduled)
    );
    q.schedule(&entry(3000, 1, "alice")).unwrap();
    assert_eq!(
        q.reschedule(1, b"alice", 2000, 3000),
        Err(QueueError::AlreadyScheduled)
    );
    assert!(q.contains(&entry(2000, 1, "alice")));
    assert_eq!(q.reschedule(1, b"alice", 2000, 2000), Ok(()));
    assert!(q.contains(&entry(2000, 1, "alice")));
}

#[test]
fn unschedule_removes() {
    let mut q = DueQueue::new();
    let s = entry(5, 3, "bob");
    assert_eq!(q.unschedule(&s), Err(QueueError::NotScheduled));
    q.schedule(&s).unwrap();
    assert_eq!(q.unschedule(&s), Ok(()));
    assert!(!q.contains(&s));
    assert_eq!(q.due_before(i64::MAX, 10), vec![]);
}

#[test]
fn due_before_is_ordered_and_limited() {
    let mut q = DueQueue::new();
    let all = vec![
        entry(-10, 5, "a"),
        entry(0, 1, "b"),
        entry(0, 2, "a"),
        entry(0, 2, "ab"),
        entry(7, 0, ""),
        entry(100, 0, "late"),
    ];
    for e in all.iter().rev() {
        q.schedule(e).unwrap();
    }
    assert_eq!(q.due_before(7, 10), all[..5].to_vec());
    assert_eq!(q.due_before(7, 3), all[..3].to_vec());
    assert_eq!(q.due_before(7, 0), vec![]);
    assert_eq!(q.due_before(i64::MAX, 100), all);
    assert_eq!(q.due_before(-11, 10), vec![]);
    let listed = q.due_before(i64::MAX, 100);
    for w in listed.windows(2) {
        assert!(w[0].key() < w[1].key());
    }
}

#[test]
fn due_after_pages_through() {
    let mut q = DueQueue::new();
    let all = vec![
        entry(1, 1, "a"),
        entry(1, 1, "b"),
        entry(2, 0, "a"),
        entry(3, 9, "c"),
        entry(50, 0, "z"),
    ];
    for e in all.iter() {
        q.schedule(e).unwrap();
    }
    let first = q.due_before(10, 2);
    assert_eq!(first, all[..2].to_vec());
    let second = q.due_after(first.last().unwrap(), 10, 2);
    assert_eq!(second, all[2..4].to_vec());
    let third = q.due_after(second.last().unwrap(), 10, 2);
    assert_eq!(third, vec![]);
    // a cursor that is not in the index still bounds the page
    assert_eq!(q.due_after(&entry(1, 1, "aa"), 100, 10), all[1..].to_vec());
}
