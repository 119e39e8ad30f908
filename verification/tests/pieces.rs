use gem::aig::{EndpointGroup, RAMBlock, DFF};
use gem::collections::Table;
use gem::flatten::{alloc_free_pos, map_global_read_to_rounds, set_bit_in_u32, NUM_THREADS_V1};
use std::collections::BTreeMap;

/// The rounds in which masked words are read.
fn deal(words: &[(u32, u32)]) -> Option<Vec<Vec<(u32, u32)>>> {
    let masks: BTreeMap<u32, u32> = words.iter().copied().collect();
    map_global_read_to_rounds(&masks)
}

#[test]
fn reads_are_dealt_in_turn() {
    let rounds = deal(&vec![(5, 0xff), (9, 1)]).unwrap();
    assert_eq!(rounds.len(), NUM_THREADS_V1);
    assert_eq!(rounds[0], vec![(5, 0xff)]);
    assert_eq!(rounds[1], vec![(9, 1)]);
    assert!(rounds[2].is_empty());
}

#[test]
fn reads_share_threads() {
    let words: Vec<(u32, u32)> = (0..300).map(|i| (i, 1 << (i % 32))).collect();
    let rounds = deal(&words).unwrap();
    assert_eq!(rounds[0], vec![(0, 1), (256, 1)]);
    assert_eq!(rounds.iter().map(|r| r.len()).sum::<usize>(), 300);
    let full: Vec<(u32, u32)> = (0..8192).map(|i| (i, 2)).collect();
    assert!(deal(&full).unwrap().iter().all(|r| r.len() == 32));
}

#[test]
fn reads_can_be_too_many() {
    assert!(deal(&vec![]).is_none());
    let full: Vec<(u32, u32)> = (0..257).map(|i| (i, u32::MAX)).collect();
    assert!(deal(&full).is_none());
    assert!(deal(&full[..256].to_vec()).is_some());
}

#[test]
fn smaller_chunks_put_wide_words_first() {
    // Narrow words at the front would leave no room for the wide ones.
    let mut words: Vec<(u32, u32)> = (0..256).map(|i| (i, 1)).collect();
    words.extend((256..512).map(|i| (i, u32::MAX >> 1)));
    let rounds = deal(&words).unwrap();
    for r in &rounds {
        assert_eq!(r.iter().map(|(_, m)| m.count_ones()).sum::<u32>(), 32);
    }
}

#[test]
fn positions_are_claimed_once() {
    let mut occ = vec![true; 8192];
    occ[4100] = false;
    occ[8191] = false;
    let mut cursor = 4096;
    assert_eq!(alloc_free_pos(&mut occ, &mut cursor), Some(4100));
    assert!(occ[4100]);
    assert_eq!(cursor, 4101);
    assert_eq!(alloc_free_pos(&mut occ, &mut cursor), Some(8191));
    assert_eq!(alloc_free_pos(&mut occ, &mut cursor), None);
}

#[test]
fn bits_are_set_and_cleared() {
    let mut w = 0x8000_0001;
    set_bit_in_u32(&mut w, 4, 1);
    assert_eq!(w, 0x8000_0011);
    set_bit_in_u32(&mut w, 31, 0);
    assert_eq!(w, 0x11);
    set_bit_in_u32(&mut w, 0, 1);
    assert_eq!(w, 0x11);
}

#[test]
fn tables_keep_insertion_order() {
    let mut t: Table<&str> = Table::new();
    assert_eq!(t.insert(7, "a"), 0);
    assert_eq!(t.insert(3, "b"), 1);
    assert_eq!(t.insert(7, "c"), 0);
    assert_eq!(t.len(), 2);
    assert_eq!(t.get(7), Some(&"c"));
    assert_eq!(t.get(4), None);
    assert_eq!(t.position(3), Some(1));
    assert_eq!(*t.value(1), "b");
}

#[test]
fn endpoint_groups_read_their_inputs() {
    assert_eq!(EndpointGroup::PrimaryOutput(9).for_each_input(), vec![4]);
    assert!(EndpointGroup::PrimaryOutput(1).for_each_input().is_empty());
    assert_eq!(EndpointGroup::StagedIOPin(9).for_each_input(), vec![9]);
    let ff = DFF { d_iv: 12, en_iv: 7, q: 5 };
    assert_eq!(EndpointGroup::DFF(&ff).for_each_input(), vec![3, 6]);
    let mut ram = RAMBlock::default();
    assert!(EndpointGroup::RAMBlock(&ram).for_each_input().is_empty());
    ram.port_r_en_iv = 2;
    ram.port_w_addr_iv[0] = 4;
    ram.port_r_addr_iv[1] = 6;
    ram.port_w_wr_data_iv[31] = 9;
    ram.port_w_wr_en_iv[31] = 10;
    assert_eq!(EndpointGroup::RAMBlock(&ram).for_each_input(), vec![1, 2, 3, 5, 4]);
    assert_eq!(DFF::default(), DFF { d_iv: 0, en_iv: 0, q: 0 });
}

#[test]
fn many_words_are_read_in_turn() {
    let words: Vec<(u32, u32)> = (0..300).map(|i| (i, 1)).collect();
    let rounds = deal(&words).unwrap();
    for t in 0..256usize {
        let mut expected = vec![words[t]];
        if t < 44 {
            expected.push(words[256 + t]);
        }
        assert_eq!(rounds[t], expected);
    }
}

#[test]
fn heavy_chunks_are_read_first() {
    // The last word fits nowhere unless it comes before all others.
    let mut words: Vec<(u32, u32)> = (0..256).map(|i| (i, 1)).collect();
    words.push((256, u32::MAX));
    let rounds = deal(&words).unwrap();
    assert_eq!(rounds[0], vec![words[256]]);
    assert_eq!(rounds[1], vec![words[0], words[255]]);
    for t in 2..256usize {
        assert_eq!(rounds[t], vec![words[t - 1]]);
    }
}

#[test]
fn few_words_are_read_in_one_round() {
    let words: Vec<(u32, u32)> = (0..200).map(|i| (7 * i, u32::MAX >> (i % 32))).collect();
    let rounds = deal(&words).unwrap();
    for t in 0..NUM_THREADS_V1 {
        if t < words.len() {
            assert_eq!(rounds[t], vec![words[t]]);
        } else {
            assert!(rounds[t].is_empty());
        }
    }
}
