use poker_eval_rs::enumord::{
    enum_ordering_decode_hilo_k_hi, enum_ordering_decode_hilo_k_lo, enum_ordering_decode_k, enum_ordering_encode,
    enum_ordering_encode_hilo, enum_ordering_increment, enum_ordering_nentries,
    enum_ordering_nentries_hilo, enum_ordering_rank, EnumOrdering, EnumOrderingMode,
};
use poker_eval_rs::handval::HandVal;

#[test]
fn test_enum_ordering_new() {
    let ordering = EnumOrdering::new(EnumOrderingMode::Hi, 5);
    assert_eq!(ordering.mode, EnumOrderingMode::Hi);
    assert_eq!(ordering.nplayers, 5);
}

#[test]
fn test_enum_ordering_rank() {
    let mut hands = vec![HandVal { value: 3 }, HandVal { value: 5 }, HandVal { value: 2 }];
    let noqual = HandVal { value: 0 };
    let nplayers = 3;
    let mut ranks = vec![0; nplayers];
    enum_ordering_rank(&mut hands, noqual, nplayers, &mut ranks, false);
    assert_eq!(ranks, vec![1, 2, 0]);
}

#[test]
fn test_enum_ordering_encode() {
    let ranks = vec![1, 2, 0];
    let nplayers = 3;
    let encoded = enum_ordering_encode(nplayers, &ranks);
    assert_eq!(encoded, 24);
}

#[test]
fn test_enum_ordering_decode_k() {
    let encoded = 9;
    let nplayers = 3;
    let rank = enum_ordering_decode_k(encoded, nplayers, 1);
    assert_eq!(rank, 2);
}

#[test]
fn test_enum_ordering_decode_k_2_players() {
    let encoding: i32 = 0b0100;
    let nplayers: usize = 2;
    let k0_result = enum_ordering_decode_k(encoding, nplayers, 0);
    assert_eq!(k0_result, 1);
    let k1_result = enum_ordering_decode_k(encoding, nplayers, 1);
    assert_eq!(k1_result, 0);
}

#[test]
fn enum_ordering_decode_gives_back_what_encode_wrote() {
    let ranks = vec![3, 0, 2, 1];
    let e = enum_ordering_encode(4, &ranks);
    for k in 0..4 {
        assert_eq!(enum_ordering_decode_k(e, 4, k), ranks[k]);
    }
}

#[test]
fn enum_ordering_hilo_low_ranks_decode() {
    let hi = vec![1, 0, 2];
    let lo = vec![2, 1, 0];
    let e = enum_ordering_encode_hilo(3, &hi, &lo);
    for k in 0..3 {
        assert_eq!(enum_ordering_decode_hilo_k_lo(e, 3, k), lo[k]);
    }
}

#[test]
fn enum_ordering_hilo_high_ranks_decode() {
    let hi = vec![1, 0, 2];
    let lo = vec![2, 1, 0];
    let e = enum_ordering_encode_hilo(3, &hi, &lo);
    for k in 0..3 {
        assert_eq!(enum_ordering_decode_hilo_k_hi(e, 3, k), hi[k]);
    }
    // One player, high rank 1 and low rank 0.
    let e1 = enum_ordering_encode_hilo(1, &[1], &[0]);
    assert_eq!(enum_ordering_decode_hilo_k_hi(e1, 1, 0), 1);
    assert_eq!(enum_ordering_decode_hilo_k_lo(e1, 1, 0), 0);
}

#[test]
fn enum_ordering_entries_and_increment() {
    // Two bits per player for three players: 2^6 entries.
    assert_eq!(enum_ordering_nentries(3), 64);
    assert_eq!(enum_ordering_nentries_hilo(2), 256);
    let mut ordering = EnumOrdering::new(EnumOrderingMode::Hi, 2);
    let ranks = vec![1, 0];
    enum_ordering_increment(&mut ordering, &ranks);
    let e = enum_ordering_encode(2, &ranks) as usize;
    assert_eq!(ordering.hist[e], 1);
}

#[test]
fn enum_ordering_rank_ignores_unqualified_hands() {
    let mut hands = vec![HandVal { value: 7 }, HandVal { value: 0 }, HandVal { value: 7 }];
    let mut ranks = vec![0; 3];
    enum_ordering_rank(&mut hands, HandVal { value: 0 }, 3, &mut ranks, false);
    assert_eq!(ranks[0], ranks[2]);
}

#[test]
fn ordering_modes_have_numbers() {
    assert_eq!(poker_eval_rs::enumord::EnumOrderingMode::NoOrdering.as_u32(), 0);
    assert_eq!(poker_eval_rs::enumord::EnumOrderingMode::Hi.as_u32(), 1);
    assert_eq!(poker_eval_rs::enumord::EnumOrderingMode::Lo.as_u32(), 2);
    assert_eq!(poker_eval_rs::enumord::EnumOrderingMode::Hilo.as_u32(), 3);
}
