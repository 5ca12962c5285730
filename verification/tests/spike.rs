use rmc::spike::divergent_loop_reference;

#[test]
fn divergent_loop_has_runtime_bound_and_branches() {
    assert_eq!(
        divergent_loop_reference(&[0, 10, 20, 30], 4),
        vec![8, 19, 32, 38]
    );
}

#[test]
fn divergent_loop_wraps_and_handles_empty_input() {
    assert_eq!(divergent_loop_reference(&[], 3), Vec::<u32>::new());
    assert_eq!(divergent_loop_reference(&[u32::MAX], 1), vec![2]);
    assert_eq!(divergent_loop_reference(&[5, 5, 5], 0), vec![5, 6, 9]);
}
