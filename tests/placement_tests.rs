use stip::dht::{placement_key, routing_bytes, Dht, DhtEntry};
use stip::pipeline::{route_split_window, route_tile, TileRoute};

fn entry(token: u64, node_id: u16, xfer: Option<&str>) -> DhtEntry {
    DhtEntry {
        token,
        node_id,
        rpc_addr: format!("127.0.0.1:{}", 15606 + node_id),
        xfer_addr: xfer.map(|s| s.to_string()),
    }
}

fn two_nodes() -> Dht {
    Dht::from_entries(vec![
        entry(0, 0, Some("10.0.0.1:15607")),
        entry(1u64 << 63, 1, Some("10.0.0.2:15607")),
    ])
    .unwrap()
}

#[test]
fn locate_picks_largest_token_at_or_below() {
    let d = two_nodes();
    assert_eq!(d.locate(1u64 << 62), Some(0));
    assert_eq!(d.locate(0), Some(0));
    assert_eq!(d.locate(1u64 << 63), Some(1));
    assert_eq!(d.locate(u64::MAX), Some(1));
}

#[test]
fn locate_wraps_around_the_ring() {
    let d = Dht::from_entries(vec![entry(100, 0, None), entry(200, 1, None)]).unwrap();
    assert_eq!(d.locate(5), Some(1));
    assert_eq!(d.locate(150), Some(0));
}

#[test]
fn locate_on_empty_ring() {
    let d = Dht::from_entries(vec![]).unwrap();
    assert_eq!(d.locate(42), None);
}

#[test]
fn duplicate_tokens_are_refused() {
    assert!(Dht::from_entries(vec![entry(7, 0, None), entry(7, 1, None)]).is_none());
}

#[test]
fn owner_does_not_depend_on_entry_order() {
    let a = Dht::from_entries(vec![entry(10, 0, None), entry(20, 1, None), entry(30, 2, None)]).unwrap();
    let b = Dht::from_entries(vec![entry(30, 2, None), entry(10, 0, None), entry(20, 1, None)]).unwrap();
    for key in [0u64, 10, 15, 20, 25, 30, u64::MAX] {
        let oa = a.entries[a.locate(key).unwrap()].node_id;
        let ob = b.entries[b.locate(key).unwrap()].node_id;
        assert_eq!(oa, ob);
    }
}

#[test]
fn members_are_listed_once() {
    let d = Dht::from_entries(vec![entry(1, 4, None), entry(2, 5, None), entry(3, 4, None)]).unwrap();
    assert_eq!(d.members(), vec![4, 5]);
}

#[test]
fn routing_bytes_pad_and_truncate() {
    assert_eq!(routing_bytes("ab", 4), vec![b'a', b'b', 0, 0]);
    assert_eq!(routing_bytes("abcdef", 3), vec![b'a', b'b', b'c']);
    assert_eq!(routing_bytes("abc", 0), Vec::<u8>::new());
}

#[test]
fn placement_key_uses_the_prefix_only() {
    assert_eq!(placement_key("9q8yyk", 4), placement_key("9q8yzz", 4));
    assert_eq!(placement_key("ab", 4), placement_key("ab\0\0", 4));
    assert_ne!(placement_key("9q8y", 4), placement_key("9q8z", 4));
    assert_eq!(placement_key("9q8y", 4), placement_key("9q8y", 4));
}

#[test]
fn zero_coverage_is_dropped() {
    let d = two_nodes();
    assert!(matches!(route_tile(&d, 4, "9q8y", 0.0f64.to_bits()), TileRoute::Empty));
    assert!(matches!(route_tile(&d, 4, "9q8y", (-0.0f64).to_bits()), TileRoute::Empty));
}

#[test]
fn covered_tile_goes_to_owner() {
    let d = two_nodes();
    let key = placement_key("9q8y", 4);
    let owner = d.locate(key).unwrap();
    match route_tile(&d, 4, "9q8y", 0.5f64.to_bits()) {
        TileRoute::Send { owner: o, node_id, xfer_addr } => {
            assert_eq!(o, owner);
            assert_eq!(node_id, d.entries[owner].node_id);
            assert_eq!(Some(xfer_addr), d.entries[owner].xfer_addr.clone());
        }
        _ => panic!("expected the tile to be sent"),
    }
}

#[test]
fn routing_gaps_are_reported() {
    let empty = Dht::from_entries(vec![]).unwrap();
    assert!(matches!(route_tile(&empty, 4, "9q8y", 0.5f64.to_bits()), TileRoute::Unrouted));
    let no_addr = Dht::from_entries(vec![entry(0, 3, None)]).unwrap();
    assert!(matches!(
        route_tile(&no_addr, 4, "9q8y", 0.5f64.to_bits()),
        TileRoute::NoTransferAddress { node_id: 3 }
    ));
}

#[test]
fn single_node_load_sends_one_window() {
    let d = Dht::from_entries(vec![entry(0, 0, Some("127.0.0.1:15607"))]).unwrap();
    let r = route_tile(&d, 4, "9q8y", 0.5f64.to_bits());
    assert!(matches!(r, TileRoute::Send { owner: 0, node_id: 0, .. }));
}

#[test]
fn split_windows_outside_source_are_discarded() {
    let d = two_nodes();
    assert!(matches!(
        route_split_window(&d, 4, "9q8y", "9q9a00", 0.5f64.to_bits()),
        TileRoute::OutsideSource
    ));
    assert!(matches!(
        route_split_window(&d, 4, "9q8y", "9q8y00", 0.5f64.to_bits()),
        TileRoute::Send { .. }
    ));
}

#[test]
fn split_of_sixteen_windows_sends_twelve() {
    let d = two_nodes();
    let alphabet = ['0', '1', '2', '3', '4', '5', '6', '7', '8', '9', 'b', 'c', 'd', 'e', 'f', 'g'];
    let mut sent = 0;
    let mut empty = 0;
    for (i, c) in alphabet.iter().enumerate() {
        let g = format!("9q8y{}0", c);
        let cov = if i % 4 == 0 { 0.0 } else { 0.75 };
        match route_split_window(&d, 4, "9q8y", &g, f64::to_bits(cov)) {
            TileRoute::Send { .. } => sent += 1,
            TileRoute::Empty => empty += 1,
            _ => panic!("unexpected route"),
        }
    }
    assert_eq!(sent, 12);
    assert_eq!(empty, 4);
}
