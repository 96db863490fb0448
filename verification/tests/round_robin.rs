use tubular::lb::{self, LbAction, MAX_SOCKETS};
use tubular::loader::pool_layout;
use tubular::sk_lookup::{SK_DROP, SK_PASS};

/// Drives one lookup through the program's steps against a simulated pool.
fn run(port: u32, pool_size: Option<u64>, counter: &mut Option<u64>, pool: &[bool], assign_ret: i64) -> (u32, Option<u32>) {
    let mut action = lb::on_lookup(port);
    let mut slot_tried = None;
    loop {
        action = match action {
            LbAction::Verdict(v) => return (v, slot_tried),
            LbAction::ReadPoolSize => lb::on_pool_size(pool_size),
            LbAction::ReadCounter { pool_size } => lb::on_counter(pool_size, *counter),
            LbAction::Claim { next_counter, slot } => {
                *counter = Some(next_counter);
                slot_tried = Some(slot);
                lb::on_socket(pool.get(slot as usize).copied().unwrap_or(false))
            }
            LbAction::AssignSocket => lb::on_assign(assign_ret),
            LbAction::Spin => panic!("spin"),
        }
    }
}

#[test]
fn other_ports_pass_untouched() {
    assert_eq!(lb::on_lookup(22), LbAction::Verdict(SK_PASS));
    assert_eq!(lb::on_lookup(80), LbAction::Verdict(SK_PASS));
    assert_eq!(lb::on_lookup(443), LbAction::ReadPoolSize);
}

#[test]
fn empty_or_unreadable_pool_drops() {
    assert_eq!(lb::on_pool_size(Some(0)), LbAction::Verdict(SK_DROP));
    assert_eq!(lb::on_pool_size(None), LbAction::Verdict(SK_DROP));
    assert_eq!(lb::on_pool_size(Some(3)), LbAction::ReadCounter { pool_size: 3 });
    assert_eq!(lb::on_counter(3, None), LbAction::Verdict(SK_DROP));
}

#[test]
fn counter_picks_slot_and_advances() {
    assert_eq!(lb::on_counter(3, Some(7)), LbAction::Claim { next_counter: 8, slot: 1 });
    assert_eq!(lb::on_counter(3, Some(u64::MAX)), LbAction::Claim { next_counter: 0, slot: 0 });
}

#[test]
fn socket_and_assign_steps() {
    assert_eq!(lb::on_socket(false), LbAction::Verdict(SK_DROP));
    assert_eq!(lb::on_socket(true), LbAction::AssignSocket);
    assert_eq!(lb::on_assign(0), LbAction::Verdict(SK_PASS));
    assert_eq!(lb::on_assign(-17), LbAction::Verdict(SK_DROP));
    assert_eq!(lb::panic(), LbAction::Spin);
}

#[test]
fn three_sockets_are_tried_in_turn() {
    let mut counter = Some(0);
    let pool = [true, true, true];
    let slots: Vec<Option<u32>> = (0..6).map(|_| run(443, Some(3), &mut counter, &pool, 0).1).collect();
    assert_eq!(slots, vec![Some(0), Some(1), Some(2), Some(0), Some(1), Some(2)]);
    assert_eq!(counter, Some(6));
}

#[test]
fn every_window_of_pool_size_lookups_covers_each_slot_once() {
    for size in 1u64..=7 {
        for start in [0u64, 5, 1000] {
            let mut counter = Some(start);
            let pool = vec![true; size as usize];
            let mut seen = vec![0; size as usize];
            for _ in 0..size {
                let (verdict, slot) = run(443, Some(size), &mut counter, &pool, 0);
                assert_eq!(verdict, SK_PASS);
                seen[slot.unwrap() as usize] += 1;
            }
            assert!(seen.iter().all(|&n| n == 1));
        }
    }
}

#[test]
fn missing_socket_or_failed_assign_drops() {
    let mut counter = Some(1);
    assert_eq!(run(443, Some(2), &mut counter, &[true, false], 0), (SK_DROP, Some(1)));
    assert_eq!(run(443, Some(2), &mut counter, &[true, false], -1), (SK_DROP, Some(0)));
    assert_eq!(counter, Some(3));
}

#[test]
fn loader_layout_covers_every_claimed_slot() {
    let fds = vec![10, 11, 12, 13, 14];
    let layout = pool_layout(&fds);
    assert_eq!(layout.pool_size, 5);
    assert_eq!(layout.slots, vec![(0, 10), (1, 11), (2, 12), (3, 13), (4, 14)]);
    for c in [0u64, 4, 5, 99, u64::MAX] {
        match lb::on_counter(layout.pool_size, Some(c)) {
            LbAction::Claim { slot, .. } => {
                assert!(slot < MAX_SOCKETS);
                assert_eq!(layout.slots[slot as usize], (slot, fds[slot as usize]));
            }
            other => panic!("{other:?}"),
        }
    }
}
