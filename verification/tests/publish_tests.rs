use nanometers_server::codec::encode_snapshot;
use nanometers_server::{AcceptOutcome, PublishAction, Publisher, RingError, WriteOutcome};

fn storage_of(p: &Publisher) -> Vec<u32> {
    let rb = p.ring();
    (0..rb.capacity()).map(|i| rb.sample_at(i)).collect()
}

#[test]
fn no_pending_consumer_does_nothing() {
    // The accept step with nobody connecting is pure bookkeeping: it
    // returns at once with no action and no error.
    let mut p = Publisher::new(8);
    let action = p.on_block(&[1, 2, 3], AcceptOutcome::NoConnection).unwrap();
    assert!(matches!(action, PublishAction::DoNothing));
    assert_eq!(p.ring().cursor(), 3);
}

#[test]
fn pending_consumer_gets_the_post_append_snapshot() {
    let mut p = Publisher::new(4);
    p.on_block(&[1, 2], AcceptOutcome::NoConnection).unwrap();
    let action = p.on_block(&[3], AcceptOutcome::Connected).unwrap();
    match action {
        PublishAction::SendSnapshot(bytes) => {
            // The snapshot reflects this block's append too.
            assert_eq!(bytes, encode_snapshot(p.ring()));
            assert_eq!(bytes.len(), 4 * 5);
        }
        PublishAction::DoNothing => panic!("a pending consumer must receive a snapshot"),
    }
}

#[test]
fn write_failure_is_swallowed_and_the_next_cycle_proceeds() {
    let mut failed = Publisher::new(6);
    let mut clean = Publisher::new(6);
    for k in 0..5u32 {
        let frame = [2 * k, 2 * k + 1];
        let a1 = failed.on_block(&frame, AcceptOutcome::Connected).unwrap();
        let a2 = clean.on_block(&frame, AcceptOutcome::Connected).unwrap();
        assert!(matches!(a1, PublishAction::SendSnapshot(_)));
        assert!(matches!(a2, PublishAction::SendSnapshot(_)));
        // One consumer vanishes mid-transfer, the other reads fine:
        // the buffers must stay identical regardless.
        failed.on_write_outcome(WriteOutcome::WriteFailed);
        clean.on_write_outcome(WriteOutcome::WriteOk);
        assert_eq!(failed.ring().cursor(), clean.ring().cursor());
        assert_eq!(storage_of(&failed), storage_of(&clean));
    }
}

#[test]
fn oversized_block_is_rejected_and_the_cycle_recovers() {
    let mut p = Publisher::new(3);
    p.on_block(&[1], AcceptOutcome::NoConnection).unwrap();
    let before = storage_of(&p);
    let r = p.on_block(&[9, 9, 9, 9], AcceptOutcome::Connected);
    assert_eq!(r.unwrap_err(), RingError::FrameExceedsCapacity);
    assert_eq!(p.ring().cursor(), 1);
    assert_eq!(storage_of(&p), before);
    // The next block is unaffected by the rejection.
    assert!(p.on_block(&[2], AcceptOutcome::NoConnection).is_ok());
    assert_eq!(p.ring().cursor(), 2);
}

#[test]
fn a_thousand_cycles_with_no_consumer() {
    // No consumer ever connects: after a thousand blocks the buffer
    // matches the pure wraparound arithmetic.
    let cap = 5usize;
    let mut p = Publisher::new(cap);
    let mut model = vec![0u32; cap];
    let mut pos = 0usize;
    let mut total = 0usize;
    for k in 0..1000u32 {
        let frame = [k, k + 1];
        let action = p.on_block(&frame, AcceptOutcome::NoConnection).unwrap();
        assert!(matches!(action, PublishAction::DoNothing));
        for &w in frame.iter() {
            model[pos] = w;
            pos = (pos + 1) % cap;
        }
        total += 2;
    }
    let expect_cursor = if total % cap == 0 { cap } else { total % cap };
    assert_eq!(p.ring().cursor(), expect_cursor);
    assert_eq!(storage_of(&p), model);
}
