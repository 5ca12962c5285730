use rmc::philox::{keyed_draw, philox4x32_10, PhiloxRng};

#[test]
fn random123_known_answer_vectors() {
    assert_eq!(
        philox4x32_10([0, 0, 0, 0], [0, 0]),
        [0x6627_e8d5, 0xe169_c58d, 0xbc57_ac4c, 0x9b00_dbd8]
    );
    assert_eq!(
        philox4x32_10([0xffff_ffff; 4], [0xffff_ffff, 0xffff_ffff]),
        [0x408f_276d, 0x41c8_3b0e, 0xa20b_c7c6, 0x6d54_51fd]
    );
    assert_eq!(
        philox4x32_10(
            [0x243f_6a88, 0x85a3_08d3, 0x1319_8a2e, 0x0370_7344],
            [0xa409_3822, 0x299f_31d0],
        ),
        [0xd16c_fe09, 0x94fd_cceb, 0x5001_e420, 0x2412_6ea1]
    );
}

#[test]
fn rng_stream_is_counter_addressable() {
    let mut rng = PhiloxRng::new(7, 12, 34);
    assert_eq!(rng.next_u32(), keyed_draw(7, 12, 34, 0)[0]);
    assert_eq!(rng.next_u32(), keyed_draw(7, 12, 34, 0)[1]);
    assert_eq!(rng.next_u32(), keyed_draw(7, 12, 34, 0)[2]);
    assert_eq!(rng.next_u32(), keyed_draw(7, 12, 34, 0)[3]);
    assert_eq!(rng.next_u32(), keyed_draw(7, 12, 34, 1)[0]);
}

#[test]
fn keyed_draw_lays_out_chain_and_step_in_the_counter() {
    let chain: u64 = 0x0123_4567_89ab_cdef;
    let step: u64 = 0xfedc_ba98_7654_3210;
    let seed: u64 = 0x1111_2222_3333_4444;
    assert_eq!(
        keyed_draw(seed, chain, step, 5),
        philox4x32_10(
            [0x89ab_cdef, 0x0123_4567, 0x7654_3210, 0xfedc_ba98 ^ 5],
            [0x3333_4444, 0x1111_2222],
        )
    );
}

#[test]
fn next_u64_joins_two_words_low_first() {
    let mut words = PhiloxRng::new(3, 4, 5);
    let lo = words.next_u32();
    let hi = words.next_u32();
    let mut wide = PhiloxRng::new(3, 4, 5);
    assert_eq!(wide.next_u64(), u64::from(lo) | (u64::from(hi) << 32));
}

#[test]
fn fill_bytes_uses_little_endian_words_and_consumes_partial_words() {
    let mut rng = PhiloxRng::new(9, 1, 2);
    let mut bytes = [0u8; 6];
    rng.fill_bytes(&mut bytes);
    let first = keyed_draw(9, 1, 2, 0);
    assert_eq!(&bytes[0..4], &first[0].to_le_bytes());
    assert_eq!(&bytes[4..6], &first[1].to_le_bytes()[0..2]);
    assert_eq!(rng.next_u32(), first[2]);
}

#[test]
fn stream_crosses_block_boundaries() {
    let mut rng = PhiloxRng::new(1, 2, 3);
    for block in 0..3u32 {
        let words = keyed_draw(1, 2, 3, block);
        for word in words {
            assert_eq!(rng.next_u32(), word);
        }
    }
}

#[test]
fn distinct_draw_indices_give_distinct_blocks() {
    let blocks: Vec<[u32; 4]> = (0u32..64).map(|d| keyed_draw(7, 3, 11, d)).collect();
    for i in 0..blocks.len() {
        for j in (i + 1)..blocks.len() {
            assert_ne!(blocks[i], blocks[j]);
        }
    }
}
