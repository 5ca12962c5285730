use rmc::flat::{FlatTopology, NULL};
use rmc::gpu_state::GpuStateBuffers;

#[test]
fn initial_state_round_trips() {
    let buffers = GpuStateBuffers::initial(4, 2);
    let diagram = buffers.to_flat_diagram(1);
    assert_eq!(diagram.capacity(), 10);
    assert_eq!(diagram.order(), 0);
    assert_eq!(diagram.storage(), &[0, 1]);
    assert_eq!(diagram.ordered_slots(), vec![0, 1]);
}

fn snapshot(t: &FlatTopology) -> (Vec<u32>, Vec<u32>, Vec<u32>, Vec<u32>, Vec<u32>, Vec<u32>, Vec<u32>, usize) {
    (
        t.ordered_slots(),
        t.storage().to_vec(),
        t.link_array().to_vec(),
        t.prev_array().to_vec(),
        t.next_array().to_vec(),
        t.storage_index_array().to_vec(),
        t.phonons_above_array().to_vec(),
        t.order(),
    )
}

#[test]
fn packed_chains_read_back_as_written() {
    let mut first = FlatTopology::with_capacity(3);
    first.set_to_fake_order_one();
    first.insert_arc_between(0, 1).unwrap();
    let mut second = FlatTopology::with_capacity(3);
    second.insert_arc_between(1, NULL).unwrap();
    let third = FlatTopology::with_capacity(3);

    let buffers = GpuStateBuffers::from_flat_diagrams(&[first, second, third]);
    let mut expected_first = FlatTopology::with_capacity(3);
    expected_first.set_to_fake_order_one();
    expected_first.insert_arc_between(0, 1).unwrap();
    let mut expected_second = FlatTopology::with_capacity(3);
    expected_second.insert_arc_between(1, NULL).unwrap();

    assert_eq!(snapshot(&buffers.to_flat_diagram(0)), snapshot(&expected_first));
    assert_eq!(snapshot(&buffers.to_flat_diagram(1)), snapshot(&expected_second));
    assert_eq!(snapshot(&buffers.to_flat_diagram(2)), snapshot(&FlatTopology::with_capacity(3)));
    assert_eq!(buffers.to_flat_diagram(0).ordered_slots(), vec![0, 2, 3, 1]);
    assert_eq!(buffers.to_flat_diagram(1).ordered_slots(), vec![0, 1, 2, 3]);
    assert_eq!(buffers.to_flat_diagram(2).ordered_slots(), vec![0, 1]);
}

#[test]
fn read_back_topology_accepts_further_updates() {
    let buffers = GpuStateBuffers::initial(2, 3);
    let mut t = buffers.to_flat_diagram(2);
    t.set_to_fake_order_one();
    let (a, b) = t.insert_arc_between(0, 1).unwrap();
    assert_eq!((a, b), (2, 3));
    t.remove_arc(a, b);
    assert_eq!(t.ordered_slots(), vec![0, 1]);
}
