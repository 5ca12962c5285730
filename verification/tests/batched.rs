use rmc::batched::{cycle_count, group_batch_index, group_update_index};
use rmc::philox::keyed_draw;

#[test]
fn group_update_selection_is_shared_within_group() {
    let update = group_update_index(7, 0, 12);
    assert_eq!(update, group_update_index(7, 0, 12));
    assert!(update < 8);
}

#[test]
fn group_update_index_reduces_the_reserved_draw() {
    let expected = (keyed_draw(11, 3, 99, u32::MAX)[0] % 8) as usize;
    assert_eq!(group_update_index(11, 3, 99), expected);
}

#[test]
fn cycle_count_rounds_partial_cycles_up() {
    assert_eq!(cycle_count(25, 5), 5);
    assert_eq!(cycle_count(26, 5), 6);
    assert_eq!(cycle_count(0, 5), 0);
    assert_eq!(cycle_count(7, 0), 7);
    assert_eq!(cycle_count(u64::MAX, 2), u64::MAX / 2 + 1);
}

#[test]
fn group_batches_spread_chains_in_order() {
    let batches: Vec<usize> = (0..4).map(|chain| group_batch_index(chain, 4, 4)).collect();
    assert_eq!(batches, vec![0, 1, 2, 3]);
    let batches: Vec<usize> = (0..5).map(|chain| group_batch_index(chain, 2, 5)).collect();
    assert_eq!(batches, vec![0, 0, 0, 1, 1]);
    assert_eq!(group_batch_index(9, 3, 4), 2);
}
