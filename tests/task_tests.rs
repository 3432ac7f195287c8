use stip::broadcast::{collect_replies, PeerError};
use stip::dht::{Dht, DhtEntry};
use stip::load::{archive_timestamp, find_metadata_entry, parse_subdatasets, LoadError};
use stip::pipeline::{Geocode, SplitTask};
use stip::store::ImageMetadata;
use stip::task::{TaskManager, TaskStatus};

#[test]
fn task_ids_are_monotonic() {
    let mut m = TaskManager::new();
    assert_eq!(m.start(3), Some(0));
    assert_eq!(m.start(5), Some(1));
    assert_eq!(m.list(), vec![0, 1]);
    assert_eq!(m.get(1).unwrap().items_total, 5);
    assert!(m.get(2).is_none());
}

#[test]
fn task_progress_and_sticky_status() {
    let mut m = TaskManager::new();
    let id = m.start(1).unwrap();
    assert!(m.record_completed(id));
    let t = m.get(id).unwrap();
    assert_eq!((t.items_total, t.items_completed, t.items_skipped), (1, 1, 0));
    assert!(matches!(t.status, TaskStatus::Running));
    assert!(m.set_status(id, TaskStatus::Complete));
    assert!(!m.set_status(id, TaskStatus::Failure("late".to_string())));
    assert!(matches!(m.get(id).unwrap().status, TaskStatus::Complete));
    assert!(m.record_skipped(id));
    assert_eq!(m.get(id).unwrap().items_skipped, 1);
    assert!(!m.record_completed(99));
}

#[test]
fn failure_is_terminal() {
    let mut m = TaskManager::new();
    let id = m.start(2).unwrap();
    assert!(m.set_status(id, TaskStatus::Failure("join".to_string())));
    assert!(!m.set_status(id, TaskStatus::Complete));
    match &m.get(id).unwrap().status {
        TaskStatus::Failure(msg) => assert_eq!(msg, "join"),
        _ => panic!("expected failure"),
    }
}

#[test]
fn broadcast_reply_has_every_member() {
    let d = Dht::from_entries(vec![
        DhtEntry { token: 0, node_id: 0, rpc_addr: "a".to_string(), xfer_addr: None },
        DhtEntry { token: 10, node_id: 1, rpc_addr: "b".to_string(), xfer_addr: None },
        DhtEntry { token: 20, node_id: 2, rpc_addr: "c".to_string(), xfer_addr: None },
    ])
    .unwrap();
    let members = d.members();
    let replies = collect_replies(&members, &vec![Ok(7), Ok(3), Err(PeerError::Unreachable)]);
    assert_eq!(replies.len(), 3);
    assert_eq!(replies[0].node_id, 0);
    assert_eq!(replies[0].result, Ok(7));
    assert_eq!(replies[1].result, Ok(3));
    assert_eq!(replies[2].node_id, 2);
    assert_eq!(replies[2].result, Err(PeerError::Unreachable));
}

#[test]
fn metadata_entry_is_found_by_file_name() {
    let names = vec![
        "S2A.SAFE/GRANULE/x.jp2".to_string(),
        "S2A.SAFE/MTD_MSIL1C.xml".to_string(),
        "S2A.SAFE/OTHER_MTD_MSIL1C.xml".to_string(),
    ];
    assert_eq!(find_metadata_entry(&names), Ok(1));
    assert_eq!(find_metadata_entry(&vec!["MTD_MSIL1C.xml".to_string()]), Ok(0));
    assert_eq!(find_metadata_entry(&vec!["a/b.xml".to_string()]), Err(LoadError::MetadataNotFound));
}

#[test]
fn start_time_is_parsed() {
    assert_eq!(archive_timestamp(Some("2019-01-01T00:00:00.000Z")), Ok(1_546_300_800));
    assert_eq!(archive_timestamp(Some("2019-01-01T00:00:10+00:00")), Ok(1_546_300_810));
    assert_eq!(archive_timestamp(Some("yesterday")), Err(LoadError::InvalidStartTime));
    assert_eq!(archive_timestamp(None), Err(LoadError::StartTimeMissing));
}

#[test]
fn subdatasets_are_paired() {
    let md = vec![
        "SUBDATASET_1_NAME=SENTINEL2_L1C:a.xml:10m:EPSG_32610".to_string(),
        "SUBDATASET_1_DESC=Bands B2, B3, B4, B8".to_string(),
        "SUBDATASET_2_NAME=x".to_string(),
        "SUBDATASET_2_DESC=y=z".to_string(),
        "ORPHAN=1".to_string(),
    ];
    let s = parse_subdatasets(&md).unwrap();
    assert_eq!(s.len(), 2);
    assert_eq!(s[0].name, "SENTINEL2_L1C:a.xml:10m:EPSG_32610");
    assert_eq!(s[0].description, "Bands B2, B3, B4, B8");
    assert_eq!(s[1].name, "x");
    assert_eq!(s[1].description, "y");
    assert!(matches!(parse_subdatasets(&vec!["no equals".to_string(), "A=b".to_string()]), Err(LoadError::MalformedSubdataset)));
    assert_eq!(parse_subdatasets(&vec![]).unwrap().len(), 0);
}

fn raw_image(geocode: &str) -> ImageMetadata {
    ImageMetadata {
        band: "B01".to_string(),
        coverage: 0.5f64.to_bits(),
        cloud_coverage: 0.0f64.to_bits(),
        dataset: "raw".to_string(),
        end_date: 10,
        geohash: geocode.to_string(),
        path: String::new(),
        platform: "Sentinel-2".to_string(),
        start_date: 5,
    }
}

#[test]
fn split_task_selects_coarser_raw_images() {
    let t = SplitTask::new("alb".to_string(), 3, None, None, Geocode::Geohash, Some("9q".to_string()), None, 6, false, None, 2);
    assert_eq!(t.key_length(), 3);
    assert!(t.selects(&raw_image("9q8y")));
    assert!(t.selects(&raw_image("9")));
    assert!(!t.selects(&raw_image("9q8yyk")));
    assert!(!t.selects(&raw_image("dr5r")));
    let mut split = raw_image("9q8y");
    split.dataset = "split".to_string();
    assert!(!t.selects(&split));
    let neg = SplitTask::new("alb".to_string(), -1, None, None, Geocode::QuadTile, None, None, 6, false, None, 1);
    assert_eq!(neg.key_length(), 0);
}

#[test]
fn eviction_keeps_running_and_latest_terminal_tasks() {
    let mut m = TaskManager::new();
    for _ in 0..5 {
        m.start(1).unwrap();
    }
    assert!(m.set_status(0, TaskStatus::Complete));
    assert!(m.set_status(1, TaskStatus::Failure("x".to_string())));
    assert!(m.set_status(3, TaskStatus::Complete));
    m.evict_terminal(1);
    assert_eq!(m.list(), vec![2, 3, 4]);
    m.evict_terminal(0);
    assert_eq!(m.list(), vec![2, 4]);
    assert_eq!(m.start(1), Some(5));
}
