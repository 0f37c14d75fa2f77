use seqtool::error::CliError;
use seqtool::pipeline::{worker_count, Pipeline, Ready};

#[test]
fn results_come_out_in_order() {
    let mut p: Pipeline<u32> = Pipeline::new(2);
    assert_eq!(p.window(), 4);
    let a = p.try_dispatch().unwrap();
    let b = p.try_dispatch().unwrap();
    let c = p.try_dispatch().unwrap();
    assert_eq!((a, b, c), (0, 1, 2));
    assert!(p.complete(c, Ok(30)));
    assert!(p.complete(b, Ok(20)));
    assert!(matches!(p.next_ready(), Ready::Wait));
    assert!(p.complete(a, Ok(10)));
    assert!(!p.complete(a, Ok(11)));
    assert!(matches!(p.next_ready(), Ready::Item(0, 10)));
    assert!(matches!(p.next_ready(), Ready::Item(1, 20)));
    assert!(matches!(p.next_ready(), Ready::Item(2, 30)));
    assert!(matches!(p.next_ready(), Ready::Wait));
    assert_eq!(p.finalized(), 3);
    assert_eq!(p.dispatched(), 3);
}

#[test]
fn window_is_twice_the_workers() {
    assert_eq!(Pipeline::<u8>::new(1).window(), 2);
    assert_eq!(Pipeline::<u8>::new(8).window(), 16);
    assert_eq!(Pipeline::<u8>::new(u32::MAX).window(), 2 * (u32::MAX as u64));
}

#[test]
fn no_threads_means_one_worker() {
    assert_eq!(worker_count(0), 1);
    assert_eq!(worker_count(1), 1);
    assert_eq!(worker_count(7), 7);
    assert_eq!(Pipeline::<u8>::new(0).window(), 2);
}

#[test]
fn window_bounds_records_in_flight() {
    let mut p: Pipeline<u64> = Pipeline::new(3);
    let mut high = 0;
    let mut delivered = Vec::new();
    let mut pending = Vec::new();
    for round in 0..1000u64 {
        while let Some(seq) = p.try_dispatch() {
            pending.push(seq);
        }
        assert_eq!(p.in_flight(), 6);
        high = high.max(p.in_flight());
        // workers report in an order that changes from round to round
        let at = (round as usize * 7) % pending.len();
        let seq = pending.remove(at);
        assert!(p.complete(seq, Ok(seq * 10)));
        while let Ready::Item(seq, value) = p.next_ready() {
            assert_eq!(value, seq * 10);
            delivered.push(seq);
        }
    }
    assert_eq!(high, 6);
    assert!(!delivered.is_empty());
    for (i, seq) in delivered.iter().enumerate() {
        assert_eq!(*seq, i as u64);
    }
}

#[test]
fn ring_is_reused_after_wrapping() {
    let mut p: Pipeline<u64> = Pipeline::new(1);
    for i in 0..10u64 {
        let a = p.try_dispatch().unwrap();
        let b = p.try_dispatch().unwrap();
        assert_eq!((a, b), (2 * i, 2 * i + 1));
        assert!(p.try_dispatch().is_none());
        assert!(p.complete(b, Ok(b)));
        assert!(matches!(p.next_ready(), Ready::Wait));
        assert!(p.complete(a, Ok(a)));
        assert!(p.is_drained());
        assert!(matches!(p.next_ready(), Ready::Item(s, v) if s == a && v == a));
        assert!(matches!(p.next_ready(), Ready::Item(s, v) if s == b && v == b));
    }
}

#[test]
fn stop_ends_dispatch_and_delivery() {
    let mut p: Pipeline<u8> = Pipeline::new(2);
    let a = p.try_dispatch().unwrap();
    let b = p.try_dispatch().unwrap();
    assert!(p.complete(a, Ok(1)));
    assert!(matches!(p.next_ready(), Ready::Item(0, 1)));
    p.stop();
    assert!(!p.is_open());
    assert!(p.try_dispatch().is_none());
    assert!(!p.is_drained());
    // a worker that was still busy reports; nothing is delivered any more
    assert!(p.complete(b, Ok(2)));
    assert!(p.is_drained());
    assert!(matches!(p.next_ready(), Ready::Closed));
    assert_eq!(p.finalized(), 1);
}

#[test]
fn failure_is_delivered_in_its_turn() {
    let mut p: Pipeline<u8> = Pipeline::new(2);
    let a = p.try_dispatch().unwrap();
    let b = p.try_dispatch().unwrap();
    let c = p.try_dispatch().unwrap();
    assert!(p.complete(c, Err(CliError::other("third"))));
    assert!(p.complete(b, Err(CliError::other("second"))));
    assert!(matches!(p.next_ready(), Ready::Wait));
    assert!(p.complete(a, Ok(1)));
    assert!(matches!(p.next_ready(), Ready::Item(0, 1)));
    match p.next_ready() {
        Ready::Failed(seq, e) => {
            assert_eq!(seq, 1);
            assert_eq!(e.message(), "second");
        }
        _ => panic!("the failure of the second record was due"),
    }
    assert!(matches!(p.next_ready(), Ready::Closed));
    assert!(p.try_dispatch().is_none());
    assert_eq!(p.finalized(), 2);
}

#[test]
fn report_for_unknown_record_is_dropped() {
    let mut p: Pipeline<u8> = Pipeline::new(1);
    assert!(!p.complete(0, Ok(1)));
    let a = p.try_dispatch().unwrap();
    assert!(!p.complete(a + 1, Ok(1)));
    assert!(p.complete(a, Ok(1)));
    assert!(matches!(p.next_ready(), Ready::Item(0, 1)));
    assert!(!p.complete(a, Ok(1)));
}
