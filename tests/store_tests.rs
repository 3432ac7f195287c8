use stip::aggregate::{merge_extents, summarize, Extent};
use stip::geocode::{coverage_ge, starts_with};
use stip::sidecar::{decode_sidecar, encode_sidecar, SidecarRecord};
use stip::store::{decimal, ImageManager, ImageMetadata, SearchFilter, TransferStreamHandler};
use stip::transfer::{encode_header, TransferError, TransferHeader};

fn image(platform: &str, geocode: &str, source: &str, pcov: f64, start: i64) -> ImageMetadata {
    ImageMetadata {
        band: "B01".to_string(),
        coverage: pcov.to_bits(),
        cloud_coverage: f64::NAN.to_bits(),
        dataset: source.to_string(),
        end_date: start + 10,
        geohash: geocode.to_string(),
        path: format!("/data/{}/{}.tif", platform, geocode),
        platform: platform.to_string(),
        start_date: start,
    }
}

fn no_filter() -> SearchFilter {
    SearchFilter {
        band: None,
        end_timestamp: None,
        geocode: None,
        max_cloud_coverage: None,
        min_pixel_coverage: None,
        platform: None,
        recurse: false,
        source: None,
        start_timestamp: None,
    }
}

fn tile_header(tile: &str, subds: u8, pcov: f64) -> TransferHeader {
    TransferHeader {
        album: "alb".to_string(),
        platform: "Sentinel-2".to_string(),
        geocode: "9q8y".to_string(),
        band: "TCI".to_string(),
        source: "raw".to_string(),
        tile: tile.to_string(),
        subdataset_index: subds,
        start_timestamp: 1,
        end_timestamp: 2,
        pixel_coverage: pcov.to_bits(),
        cloud_coverage: f64::NAN.to_bits(),
    }
}

#[test]
fn decimal_text() {
    assert_eq!(decimal(0), "0");
    assert_eq!(decimal(7), "7");
    assert_eq!(decimal(42), "42");
    assert_eq!(decimal(100), "100");
    assert_eq!(decimal(255), "255");
}

#[test]
fn tile_paths_follow_the_layout() {
    let m = ImageManager::new("/data".to_string());
    let h = tile_header("T10SEG", 0, 0.5);
    assert_eq!(m.raster_path(&h), "/data/alb/Sentinel-2/9q8y/TCI/raw/T10SEG-0.tif");
    assert_eq!(m.sidecar_path(&h), "/data/alb/Sentinel-2/9q8y/TCI/raw/T10SEG-0.meta");
    assert_eq!(m.tile_dir("a", "p", "g", "b", "s"), "/data/a/p/g/b/s");
}

#[test]
fn receiver_plans_both_files() {
    let handler = TransferStreamHandler::new(ImageManager::new("/data".to_string()));
    let h = tile_header("T10SEG", 12, 0.5);
    let mut stream = encode_header(&h).unwrap();
    let n = stream.len();
    stream.extend_from_slice(b"RASTER");
    let plan = handler.process(&stream).unwrap();
    assert_eq!(plan.payload_start, n);
    assert_eq!(&stream[plan.payload_start..], b"RASTER");
    assert_eq!(plan.raster_path, "/data/alb/Sentinel-2/9q8y/TCI/raw/T10SEG-12.tif");
    assert_eq!(plan.sidecar_path, "/data/alb/Sentinel-2/9q8y/TCI/raw/T10SEG-12.meta");
    let rec = decode_sidecar(&plan.sidecar).unwrap();
    assert_eq!(
        rec,
        SidecarRecord { start_timestamp: 1, end_timestamp: 2, pixel_coverage: 0.5f64.to_bits(), cloud_coverage: f64::NAN.to_bits() }
    );
}

#[test]
fn receiver_rejects_truncated_stream() {
    let handler = TransferStreamHandler::new(ImageManager::new("/data".to_string()));
    let stream = encode_header(&tile_header("T10SEG", 0, 0.5)).unwrap();
    assert!(matches!(handler.process(&stream[..stream.len() - 1]), Err(TransferError::Truncated)));
}

#[test]
fn repeated_transfer_targets_the_same_files() {
    let handler = TransferStreamHandler::new(ImageManager::new("/d".to_string()));
    let first = handler.process(&encode_header(&tile_header("T1", 0, 0.25)).unwrap()).unwrap();
    let second = handler.process(&encode_header(&tile_header("T1", 0, 0.75)).unwrap()).unwrap();
    assert_eq!(first.raster_path, second.raster_path);
    assert_eq!(first.sidecar_path, second.sidecar_path);
    let rec = decode_sidecar(&second.sidecar).unwrap();
    assert_eq!(rec.pixel_coverage, 0.75f64.to_bits());
    let r = SidecarRecord { start_timestamp: 1, end_timestamp: 2, pixel_coverage: 0.75f64.to_bits(), cloud_coverage: f64::NAN.to_bits() };
    assert_eq!(second.sidecar, encode_sidecar(&r));
}

#[test]
fn coverage_comparison_matches_floats() {
    let values = [0.0, -0.0, 0.5, 0.9, 0.95, 1.0, -1.0, f64::INFINITY, f64::NEG_INFINITY, f64::NAN, 1e-300];
    for a in values {
        for b in values {
            assert_eq!(coverage_ge(a.to_bits(), b.to_bits()), a >= b, "{} >= {}", a, b);
        }
    }
}

#[test]
fn prefix_test_on_text() {
    assert!(starts_with("9q8yyk", "9q8y"));
    assert!(starts_with("9q8y", ""));
    assert!(!starts_with("9q8", "9q8y"));
    assert!(!starts_with("9q9y", "9q8"));
}

#[test]
fn filter_applies_each_constraint() {
    let m = image("Sentinel-2", "9q8yyk", "raw", 0.5, 100);
    let mut f = no_filter();
    assert!(f.matches(&m));
    f.geocode = Some("9q8y".to_string());
    assert!(!f.matches(&m));
    f.recurse = true;
    assert!(f.matches(&m));
    f.platform = Some("NAIP".to_string());
    assert!(!f.matches(&m));
    f.platform = Some("Sentinel-2".to_string());
    f.start_timestamp = Some(101);
    assert!(!f.matches(&m));
    f.start_timestamp = Some(100);
    f.end_timestamp = Some(109);
    assert!(!f.matches(&m));
    f.end_timestamp = Some(110);
    assert!(f.matches(&m));
    f.max_cloud_coverage = Some(0.5f64.to_bits());
    assert!(!f.matches(&m));
}

#[test]
fn search_across_three_nodes_counts_two() {
    let mut f = no_filter();
    f.min_pixel_coverage = Some(0.9f64.to_bits());
    let nodes = vec![
        vec![image("Sentinel-2", "9q8y", "raw", 0.8, 1)],
        vec![image("Sentinel-2", "9q8y", "raw", 0.9, 1)],
        vec![image("Sentinel-2", "9q8y", "raw", 0.95, 1)],
    ];
    let parts: Vec<Vec<Extent>> = nodes.iter().map(|n| summarize(n, &f)).collect();
    let merged = merge_extents(&parts);
    assert_eq!(merged.len(), 1);
    assert_eq!(merged[0].count, 2);
    assert_eq!(merged[0].precision, 4);
    assert_eq!(merged[0].geocode, "9q8y");
}

#[test]
fn search_is_additive_over_nodes() {
    let f = no_filter();
    let all = vec![
        image("Sentinel-2", "9q8y", "raw", 0.5, 1),
        image("Sentinel-2", "9q8y", "raw", 0.6, 2),
        image("Sentinel-2", "9q8z", "raw", 0.5, 1),
        image("NAIP", "9q8y", "split", 0.5, 1),
        image("Sentinel-2", "9q8y", "raw", 0.7, 3),
    ];
    let whole = summarize(&all, &f);
    let parts = vec![summarize(&all[..2].to_vec(), &f), summarize(&all[2..].to_vec(), &f)];
    let merged = merge_extents(&parts);
    assert_eq!(whole.len(), 3);
    assert_eq!(merged.len(), whole.len());
    for e in &whole {
        let m = merged
            .iter()
            .find(|x| x.platform == e.platform && x.geocode == e.geocode && x.source == e.source)
            .unwrap();
        assert_eq!(m.count, e.count);
    }
    let sentinel = whole.iter().find(|x| x.platform == "Sentinel-2" && x.geocode == "9q8y").unwrap();
    assert_eq!(sentinel.count, 3);
}

#[test]
fn duplicate_extents_from_nodes_sum() {
    let e = |n: u64| Extent {
        platform: "P".to_string(),
        geocode: "g".to_string(),
        band: "b".to_string(),
        source: "raw".to_string(),
        precision: 1,
        count: n,
    };
    let merged = merge_extents(&vec![vec![e(2)], vec![e(3)], vec![]]);
    assert_eq!(merged.len(), 1);
    assert_eq!(merged[0].count, 5);
}

#[test]
fn cluster_extents_come_out_in_key_order() {
    let e = |p: &str, g: &str, precision: usize, n: u64| Extent {
        platform: p.to_string(),
        geocode: g.to_string(),
        band: "b".to_string(),
        source: "raw".to_string(),
        precision,
        count: n,
    };
    let parts = vec![
        vec![e("Sentinel-2", "9q8z", 4, 1), e("NAIP", "9q8y", 4, 1)],
        vec![e("Sentinel-2", "9q8y", 4, 2), e("Sentinel-2", "9q", 2, 1), e("NAIP", "9q8y", 4, 4)],
    ];
    let merged = merge_extents(&parts);
    let keys: Vec<(String, String, u64)> = merged.iter().map(|x| (x.platform.clone(), x.geocode.clone(), x.count)).collect();
    assert_eq!(
        keys,
        vec![
            ("NAIP".to_string(), "9q8y".to_string(), 5),
            ("Sentinel-2".to_string(), "9q".to_string(), 1),
            ("Sentinel-2".to_string(), "9q8y".to_string(), 2),
            ("Sentinel-2".to_string(), "9q8z".to_string(), 1),
        ]
    );
}

#[test]
fn search_pattern_fixes_set_levels() {
    let m = ImageManager::new("/data".to_string());
    let mut f = no_filter();
    assert_eq!(m.search_pattern("alb", &f), "/data/alb/*/*/*/*/*.meta");
    f.platform = Some("Sentinel-2".to_string());
    f.geocode = Some("9q".to_string());
    f.source = Some("raw".to_string());
    assert_eq!(m.search_pattern("alb", &f), "/data/alb/Sentinel-2/9q/*/raw/*.meta");
    f.recurse = true;
    assert_eq!(m.search_pattern("alb", &f), "/data/alb/Sentinel-2/9q*/*/raw/*.meta");
}

#[test]
fn receiver_refuses_tiles_without_data() {
    let handler = TransferStreamHandler::new(ImageManager::new("/data".to_string()));
    let stream = encode_header(&tile_header("T10SEG", 0, 0.0)).unwrap();
    assert!(matches!(handler.process(&stream), Err(TransferError::EmptyTile)));
    let stream = encode_header(&tile_header("T10SEG", 0, -0.0)).unwrap();
    assert!(matches!(handler.process(&stream), Err(TransferError::EmptyTile)));
}
