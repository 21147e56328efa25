use shardring::{CompactPoint, CompactPointV2};

#[test]
fn compact_point_bytes_round_trip() {
    let p = CompactPoint::new(0xdead_beef, 0x1234);
    assert_eq!(p.hash(), 0xdead_beef);
    assert_eq!(p.node_index(), 0x1234);
    let b = p.to_bytes();
    assert_eq!(b, [0xef, 0xbe, 0xad, 0xde, 0x34, 0x12, 0, 0]);
    let q = CompactPoint::from_bytes(&b);
    assert_eq!((q.hash(), q.node_index()), (0xdead_beef, 0x1234));
    let d = CompactPoint::default();
    assert_eq!((d.hash(), d.node_index()), (0, 0));
}

#[test]
fn compact_point_v2_fields() {
    let p = CompactPointV2::new(7, 9);
    assert_eq!((p.hash(), p.node_index()), (7, 9));
    let d = CompactPointV2::default();
    assert_eq!((d.hash(), d.node_index()), (0, 0));
}

#[test]
fn compact_point_v2_takes_six_bytes() {
    assert_eq!(std::mem::size_of::<CompactPointV2>(), CompactPointV2::SIZE);
    assert_eq!(CompactPointV2::SIZE, 6);
    assert_eq!(std::mem::size_of::<CompactPoint>(), CompactPoint::SIZE);
    let p = CompactPointV2::new(0xdead_beef, 0xfffe);
    assert_eq!((p.hash(), p.node_index()), (0xdead_beef, 0xfffe));
}
