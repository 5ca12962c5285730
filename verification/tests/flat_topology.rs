use rmc::arcs::{check_links, check_list_and_storage, check_phonons_above};
use rmc::flat::{FlatTopology, NULL};

fn links(t: &FlatTopology) -> Vec<u32> {
    (0..t.capacity() as u32).map(|slot| t.link(slot)).collect()
}

fn phonons(t: &FlatTopology) -> Vec<u32> {
    (0..t.capacity() as u32).map(|slot| t.phonons_above(slot)).collect()
}

fn fake_order_one(max_order_gpu: usize) -> FlatTopology {
    let mut t = FlatTopology::with_capacity(max_order_gpu);
    t.set_to_fake_order_one();
    t
}

#[test]
fn topology_zero_order_layout() {
    let t = FlatTopology::with_capacity(256);
    assert_eq!(t.capacity(), 514);
    assert_eq!(t.head(), 0);
    assert_eq!(t.tail(), 1);
    assert_eq!(t.link(t.head()), NULL);
    assert_eq!(t.ordered_slots(), vec![0, 1]);
    assert_eq!(t.storage(), &[0, 1]);
    assert_eq!(t.vertex_count(), 2);
    assert_eq!(t.order(), 0);
    assert_eq!(t.next(0), 1);
    assert_eq!(t.next(1), NULL);
    assert_eq!(t.prev(0), NULL);
    assert_eq!(t.prev(1), 0);
    assert_eq!(t.storage_index(0), 0);
    assert_eq!(t.storage_index(1), 1);
    assert_eq!(t.storage_index(2), NULL);
    assert!(t.has_arc_capacity());
}

#[test]
fn topology_fake_order_one_round_trips() {
    let mut t = FlatTopology::with_capacity(4);
    t.set_to_fake_order_one();
    assert_eq!(t.order(), 1);
    assert_eq!(t.link(0), 1);
    assert_eq!(t.link(1), 0);
    assert_eq!(t.ordered_slots(), vec![0, 1]);

    t.clear_fake_order_one();
    assert_eq!(t.order(), 0);
    assert_eq!(t.link(0), NULL);
    assert_eq!(t.link(1), NULL);
    assert_eq!(phonons(&t), vec![0; 10]);
    assert_eq!(t.ordered_slots(), vec![0, 1]);
}

#[test]
fn topology_insert_and_remove_arc() {
    let mut t = fake_order_one(256);
    // The head opens the fake arc, so the first new vertex sits under one phonon.
    let (a, b) = t.insert_arc_between(0, 1).unwrap();
    assert_eq!((a, b), (2, 3));
    assert_eq!(t.ordered_slots(), vec![0, 2, 3, 1]);
    assert_eq!(t.storage(), &[0, 1, 2, 3]);
    assert_eq!(t.link(2), 3);
    assert_eq!(t.link(3), 2);
    assert_eq!(t.phonons_above(0), 0);
    assert_eq!(t.phonons_above(2), 1);
    assert_eq!(t.phonons_above(3), 1);
    assert_eq!(t.phonons_above(1), 0);
    assert_eq!(t.order(), 2);
    assert_eq!(t.head(), 0);
    assert_eq!(t.tail(), 1);

    t.remove_arc(a, b);
    assert_eq!(t.ordered_slots(), vec![0, 1]);
    assert_eq!(t.storage(), &[0, 1]);
    assert_eq!(t.link(2), NULL);
    assert_eq!(t.link(3), NULL);
    assert_eq!(t.phonons_above(2), 0);
    assert_eq!(t.order(), 1);
}

#[test]
fn topology_rejects_capacity_overflow() {
    let mut t = fake_order_one(0);
    assert_eq!(t.capacity(), 2);
    assert!(!t.has_arc_capacity());
    assert!(t.insert_arc_between(0, 1).is_none());
    assert_eq!(t.ordered_slots(), vec![0, 1]);
    assert_eq!(t.order(), 1);
}

#[test]
fn nested_arc_raises_the_vertices_it_spans() {
    let mut t = fake_order_one(8);
    t.insert_arc_between(0, 1).unwrap();
    // The vertex before the tail is slot 3, which closes its arc.
    let (a, b) = t.insert_arc_between(0, 1).unwrap();
    assert_eq!((a, b), (4, 5));
    assert_eq!(t.ordered_slots(), vec![0, 4, 2, 3, 5, 1]);
    assert_eq!(t.phonons_above(4), 1);
    assert_eq!(t.phonons_above(2), 2);
    assert_eq!(t.phonons_above(3), 2);
    assert_eq!(t.phonons_above(5), 1);
    assert_eq!(t.link(4), 5);
    assert_eq!(t.link(5), 4);
    assert_eq!(t.order(), 3);
}

#[test]
fn arc_placed_at_the_end_becomes_the_tail() {
    let mut t = FlatTopology::with_capacity(4);
    let (a, b) = t.insert_arc_between(1, NULL).unwrap();
    assert_eq!(t.ordered_slots(), vec![0, 1, a, b]);
    assert_eq!(t.tail(), b);
    assert_eq!(t.next(b), NULL);
    assert_eq!(t.prev(a), 1);
}

#[test]
fn removing_the_inserted_arc_restores_the_topology() {
    let mut t = fake_order_one(8);
    t.insert_arc_between(0, 1).unwrap();
    let slots = t.ordered_slots();
    let storage = t.storage().to_vec();
    let link_before = links(&t);
    let phonons_before = phonons(&t);
    let indices: Vec<u32> = (0..t.capacity() as u32).map(|s| t.storage_index(s)).collect();
    let order = t.order();

    // The new arc starts inside the arc 2-3 and ends after it, spanning vertex 3.
    let (a, b) = t.insert_arc_between(2, 1).unwrap();
    assert_eq!(t.ordered_slots(), vec![0, 2, a, 3, b, 1]);
    assert_eq!(t.phonons_above(a), 2);
    assert_eq!(t.phonons_above(3), 2);
    assert_eq!(t.phonons_above(b), 1);
    t.remove_arc(a, b);

    assert_eq!(t.ordered_slots(), slots);
    assert_eq!(t.storage(), storage.as_slice());
    assert_eq!(links(&t), link_before);
    assert_eq!(phonons(&t), phonons_before);
    let indices_after: Vec<u32> = (0..t.capacity() as u32).map(|s| t.storage_index(s)).collect();
    assert_eq!(indices_after, indices);
    assert_eq!(t.order(), order);
}

#[test]
fn removing_an_inner_arc_moves_the_last_storage_entry() {
    let mut t = fake_order_one(8);
    t.insert_arc_between(0, 1).unwrap();
    t.insert_arc_between(0, 1).unwrap();
    assert_eq!(t.storage(), &[0, 1, 2, 3, 4, 5]);
    t.remove_arc(2, 3);
    // Slot 2 takes the last entry (5), then slot 3 takes the new last entry (4).
    assert_eq!(t.storage(), &[0, 1, 5, 4]);
    assert_eq!(t.storage_index(5), 2);
    assert_eq!(t.storage_index(4), 3);
    assert_eq!(t.storage_index(2), NULL);
    assert_eq!(t.ordered_slots(), vec![0, 4, 5, 1]);
    assert_eq!(t.phonons_above(4), 1);
    assert_eq!(t.phonons_above(5), 1);
}

#[test]
fn swapping_arc_connectivity_exchanges_partners() {
    let mut t = fake_order_one(8);
    t.insert_arc_between(0, 1).unwrap();
    t.insert_arc_between(0, 1).unwrap();
    // Arcs: 0-1, 4-5, 2-3.
    t.swap_arc_connectivity(2, 5);
    assert_eq!(t.link(2), 4);
    assert_eq!(t.link(4), 2);
    assert_eq!(t.link(5), 3);
    assert_eq!(t.link(3), 5);
    assert_eq!(t.link(0), 1);
    assert_eq!(t.ordered_slots(), vec![0, 4, 2, 3, 5, 1]);
}

#[test]
fn zeroth_order_reset_clears_everything() {
    let mut t = fake_order_one(8);
    t.insert_arc_between(0, 1).unwrap();
    t.set_to_0th_order();
    assert_eq!(t.ordered_slots(), vec![0, 1]);
    assert_eq!(t.storage(), &[0, 1]);
    assert_eq!(links(&t), vec![NULL; 18]);
    assert_eq!(phonons(&t), vec![0; 18]);
    assert_eq!(t.order(), 0);
}

/// Position of each listed slot, indexed by slot.
fn positions(t: &FlatTopology) -> Vec<Option<usize>> {
    let mut pos = vec![None; t.capacity()];
    for (i, slot) in t.ordered_slots().into_iter().enumerate() {
        pos[slot as usize] = Some(i);
    }
    pos
}

fn opens_arc(t: &FlatTopology, slot: u32) -> bool {
    let pos = positions(t);
    let link = t.link(slot);
    link != NULL && pos[link as usize].is_some() && pos[link as usize] > pos[slot as usize]
}

/// Number of arcs opened before and closed after each listed vertex.
fn arcs_over(t: &FlatTopology) -> Vec<u32> {
    let slots = t.ordered_slots();
    let pos = positions(t);
    (0..slots.len())
        .map(|k| {
            (0..k)
                .filter(|&i| {
                    let link = t.link(slots[i]);
                    link != NULL && pos[link as usize].map_or(false, |p| p > k)
                })
                .count() as u32
        })
        .collect()
}

fn listed_phonons(t: &FlatTopology) -> Vec<u32> {
    t.ordered_slots().into_iter().map(|slot| t.phonons_above(slot)).collect()
}

fn insert_checking_flags(t: &mut FlatTopology, left: u32, before_right: u32) -> (u32, u32) {
    let right_left = if before_right == NULL { t.tail() } else { t.prev(before_right) };
    assert_eq!(t.opens_arc_at(left), opens_arc(t, left));
    assert_eq!(t.opens_arc_at(right_left), opens_arc(t, right_left));
    t.insert_arc_between(left, before_right).unwrap()
}

#[test]
fn phonon_counts_track_the_arcs_over_each_vertex() {
    let mut t = fake_order_one(16);
    assert_eq!(listed_phonons(&t), arcs_over(&t));

    let (a1, b1) = insert_checking_flags(&mut t, 0, 1);
    assert_eq!(listed_phonons(&t), arcs_over(&t));
    let (a2, b2) = insert_checking_flags(&mut t, a1, 1);
    assert_eq!(listed_phonons(&t), arcs_over(&t));
    let (a3, b3) = insert_checking_flags(&mut t, 0, b1);
    assert_eq!(listed_phonons(&t), arcs_over(&t));
    let (a4, b4) = insert_checking_flags(&mut t, b2, NULL);
    assert_eq!(listed_phonons(&t), arcs_over(&t));
    assert_eq!(t.order(), 5);
    assert_eq!(t.vertex_count(), 10);

    t.remove_arc(a2, b2);
    assert_eq!(listed_phonons(&t), arcs_over(&t));
    t.remove_arc(a3, b3);
    assert_eq!(listed_phonons(&t), arcs_over(&t));
    t.remove_arc(a1, b1);
    assert_eq!(listed_phonons(&t), arcs_over(&t));
    t.remove_arc(a4, b4);
    assert_eq!(listed_phonons(&t), arcs_over(&t));
    assert_eq!(t.ordered_slots(), vec![0, 1]);
    assert_eq!(t.order(), 1);

    t.clear_fake_order_one();
    assert_eq!(listed_phonons(&t), vec![0, 0]);
}

#[test]
fn validators_accept_well_built_diagrams() {
    let mut t = FlatTopology::with_capacity(8);
    assert!(check_links(&t).is_ok());
    assert!(check_phonons_above(&t).is_ok());
    t.set_to_fake_order_one();
    assert!(check_links(&t).is_ok());
    assert!(check_phonons_above(&t).is_ok());
    t.insert_arc_between(0, 1).unwrap();
    t.insert_arc_between(2, 1).unwrap();
    assert!(check_links(&t).is_ok());
    assert!(check_phonons_above(&t).is_ok());
}

#[test]
fn link_check_rejects_a_count_that_does_not_match_the_order() {
    let mut t = FlatTopology::with_capacity(8);
    t.insert_arc_between(0, 1).unwrap();
    assert_eq!(t.order(), 1);
    assert_eq!(t.vertex_count(), 4);
    assert_eq!(check_links(&t), Err("vertex count 4 does not match order 1".to_string()));
}

#[test]
fn link_check_accepts_exchanged_partners() {
    let mut t = fake_order_one(8);
    t.insert_arc_between(0, 1).unwrap();
    let (a, b) = t.insert_arc_between(0, 1).unwrap();
    t.swap_arc_connectivity(2, a);
    assert_eq!(t.link(b), 2);
    assert_eq!(t.link(a), 3);
    assert!(check_links(&t).is_ok());
    t.set_to_0th_order();
    assert!(check_links(&t).is_ok());
}

#[test]
fn list_and_storage_check_passes_on_built_topologies() {
    let mut t = FlatTopology::with_capacity(8);
    assert_eq!(check_list_and_storage(&t), Ok(()));
    t.set_to_fake_order_one();
    assert_eq!(check_list_and_storage(&t), Ok(()));
    assert!(t.insert_arc_between(0, 1).is_some());
    assert_eq!(t.vertex_count(), 4);
    assert_eq!(check_list_and_storage(&t), Ok(()));
}

#[test]
fn remove_arc_takes_its_ends_in_either_order() {
    let mut t = fake_order_one(8);
    let (a, b) = t.insert_arc_between(0, 1).unwrap();
    assert!(t.precedes(a, b));
    assert!(!t.precedes(b, a));
    t.remove_arc(b, a);
    assert_eq!(t.ordered_slots(), vec![0, 1]);
    assert_eq!(t.order(), 1);
    assert_eq!(phonons(&t), vec![0; t.capacity()]);
    assert_eq!(check_list_and_storage(&t), Ok(()));
}

fn blocked_by_scan(t: &FlatTopology, left: u32, right: u32) -> bool {
    if t.order() == 2 {
        return false;
    }
    let slots = t.ordered_slots();
    let second_last = slots[slots.len() - 2];
    let pl = slots.iter().position(|&s| s == left).unwrap();
    let pr = slots.iter().position(|&s| s == right).unwrap();
    slots[pl + 1..pr]
        .iter()
        .any(|&s| t.phonons_above(s) == 1 && s != second_last)
}

#[test]
fn phonon_removal_is_blocked_only_past_second_order() {
    let mut t = fake_order_one(8);
    let (a, b) = t.insert_arc_between(0, 1).unwrap();
    assert_eq!(t.order(), 2);
    assert!(!t.blocks_phonon_removal(a, b));
    let (c, d) = t.insert_arc_between(a, 1).unwrap();
    assert_eq!(t.order(), 3);
    for (l, r) in [(a, b), (c, d)] {
        let (l, r) = if t.precedes(l, r) { (l, r) } else { (r, l) };
        assert_eq!(t.blocks_phonon_removal(l, r), blocked_by_scan(&t, l, r));
    }
    let (e, f) = t.insert_arc_between(c, d).unwrap();
    assert_eq!(t.order(), 4);
    for (l, r) in [(a, b), (c, d), (e, f)] {
        let (l, r) = if t.precedes(l, r) { (l, r) } else { (r, l) };
        assert_eq!(t.blocks_phonon_removal(l, r), blocked_by_scan(&t, l, r));
    }
}
