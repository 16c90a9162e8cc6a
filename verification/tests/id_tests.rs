use std::collections::HashSet;
use truck_shapeops::id::{
    current_sequence_value, next_sequential_id, reset_id_sequence, DetContext, DetId, IdSequence, SequentialID, ID,
};

#[test]
fn debug_backward_compatibility() {
    let x: f64 = 3.0;
    let b = format!("{:p}", &x);
    let addr = usize::from_str_radix(&b[2..], 16).unwrap();
    let id: ID<f64> = ID::new(addr);
    let a = id.debug_string();
    assert_eq!(a, b);
}

#[test]
fn detid_monotonic() {
    let mut ctx = DetContext::new();
    let id1 = ctx.next_id();
    let id2 = ctx.next_id();
    let id3 = ctx.next_id();
    assert!(id1 < id2);
    assert!(id2 < id3);
    assert_eq!(id1.raw(), 0);
    assert_eq!(id2.raw(), 1);
    assert_eq!(id3.raw(), 2);
}

#[test]
fn detid_deterministic_across_calls() {
    let mut ctx1 = DetContext::new();
    let ids1: Vec<_> = (0..100).map(|_| ctx1.next_id()).collect();
    let mut ctx2 = DetContext::new();
    let ids2: Vec<_> = (0..100).map(|_| ctx2.next_id()).collect();
    assert_eq!(ids1, ids2, "Same sequence of IDs from fresh contexts");
}

#[test]
fn detid_ord_matches_creation_order() {
    let mut ctx = DetContext::new();
    let mut ids: Vec<DetId> = (0..50).map(|_| ctx.next_id()).collect();
    let in_creation_order = ids.clone();
    ids.sort();
    assert_eq!(ids, in_creation_order, "Sorted order should match creation order");
}

#[test]
fn seqid_monotonic() {
    let mut seq = IdSequence::new();
    reset_id_sequence(&mut seq);
    let id1: SequentialID = SequentialID::new(next_sequential_id(&mut seq));
    let id2: SequentialID = SequentialID::new(next_sequential_id(&mut seq));
    let id3: SequentialID = SequentialID::new(next_sequential_id(&mut seq));
    assert!(id1 < id2);
    assert!(id2 < id3);
    assert_eq!(id1.raw(), 1);
    assert_eq!(id2.raw(), 2);
    assert_eq!(id3.raw(), 3);
}

#[test]
fn seqid_reset_restarts_from_one() {
    let mut seq = IdSequence::new();
    reset_id_sequence(&mut seq);
    let id1: SequentialID = SequentialID::new(next_sequential_id(&mut seq));
    assert_eq!(id1.raw(), 1);
    reset_id_sequence(&mut seq);
    let id2: SequentialID = SequentialID::new(next_sequential_id(&mut seq));
    assert_eq!(id2.raw(), 1, "After reset, counter should restart from 1");
}

#[test]
fn seqid_debug_format() {
    let id: SequentialID = SequentialID::new(42);
    assert_eq!(id.debug_string(), "seq#42");
    assert_eq!(id.display_string(), "seq#42");
}

#[test]
fn seqid_type_safety() {
    struct FakeVertex;
    struct FakeEdge;
    let v_id: SequentialID<FakeVertex> = SequentialID::new(1);
    let e_id: SequentialID<FakeEdge> = SequentialID::new(1);
    assert_eq!(v_id.raw(), e_id.raw());
}

#[test]
fn seqid_hash_and_eq() {
    let mut set: HashSet<SequentialID> = HashSet::new();
    let id1: SequentialID = SequentialID::new(10);
    let id2: SequentialID = SequentialID::new(10);
    let id3: SequentialID = SequentialID::new(20);
    set.insert(id1);
    assert!(set.contains(&id2), "Equal IDs should hash and compare equal");
    assert!(!set.contains(&id3), "Different IDs should not collide");
}

#[test]
fn seqid_ord_matches_creation_order() {
    let mut seq = IdSequence::new();
    reset_id_sequence(&mut seq);
    let mut ids: Vec<SequentialID> = (0..50).map(|_| SequentialID::new(next_sequential_id(&mut seq))).collect();
    let in_creation_order = ids.clone();
    ids.sort();
    assert_eq!(ids, in_creation_order, "Sorted order should match creation order");
}

#[test]
fn sequence_current_value_does_not_advance() {
    let mut seq = IdSequence::new();
    assert_eq!(current_sequence_value(&seq), 1);
    assert_eq!(current_sequence_value(&seq), 1);
    assert_eq!(next_sequential_id(&mut seq), 1);
    assert_eq!(current_sequence_value(&seq), 2);
}

#[test]
fn detid_debug_string_and_raw_roundtrip() {
    let id = DetId::from_raw(7);
    assert_eq!(id.raw(), 7);
    assert_eq!(id.debug_string(), "det#7");
    assert_eq!(DetId::from_raw(1234567890).debug_string(), "det#1234567890");
}

#[test]
fn id_debug_string_hex() {
    let id: ID<u8> = ID::new(0xdead_beef);
    assert_eq!(id.debug_string(), "0xdeadbeef");
    let zero: ID<u8> = ID::new(0);
    assert_eq!(zero.debug_string(), "0x0");
    assert!(ID::<u8>::new(1) < ID::<u8>::new(2));
    assert!(ID::<u8>::new(5) == ID::<u8>::new(5));
}

#[test]
fn det_context_counts_issued_ids() {
    let mut ctx = DetContext::new();
    for _ in 0..3 {
        ctx.next_id();
    }
    assert_eq!(ctx.next_id().raw(), 3);
}

#[test]
fn det_ids_compare_as_their_values() {
    assert_eq!(DetId::from_raw(5), DetId::from_raw(5));
    assert_ne!(DetId::from_raw(5), DetId::from_raw(6));
    assert!(DetId::from_raw(5) < DetId::from_raw(6));
    assert_eq!(DetId::from_raw(9).cmp(&DetId::from_raw(3)), std::cmp::Ordering::Greater);
}
