use stip::sidecar::{decode_sidecar, encode_sidecar, SidecarError, SidecarRecord, SIDECAR_LEN};
use stip::transfer::{decode_header, encode_header, TransferError, TransferHeader, OP_WRITE};

fn record(start: i64, end: i64, pcov: f64, ccov: f64) -> SidecarRecord {
    SidecarRecord {
        start_timestamp: start,
        end_timestamp: end,
        pixel_coverage: pcov.to_bits(),
        cloud_coverage: ccov.to_bits(),
    }
}

#[test]
fn sidecar_round_trip_keeps_values() {
    let r = record(1_546_300_800, 1_546_300_900, 0.5, 0.25);
    let bytes = encode_sidecar(&r);
    assert_eq!(bytes.len(), SIDECAR_LEN);
    let back = decode_sidecar(&bytes).unwrap();
    assert_eq!(back, r);
}

#[test]
fn sidecar_round_trip_keeps_nan_bits() {
    let r = record(-5, i64::MAX, 1.0, f64::NAN);
    let back = decode_sidecar(&encode_sidecar(&r)).unwrap();
    assert!(f64::from_bits(back.cloud_coverage).is_nan());
    assert_eq!(back.cloud_coverage, f64::NAN.to_bits());
    assert_eq!(back.start_timestamp, -5);
    assert_eq!(back.end_timestamp, i64::MAX);
}

#[test]
fn sidecar_is_big_endian() {
    let r = record(1, 2, 0.5, 0.0);
    let b = encode_sidecar(&r);
    assert_eq!(&b[0..8], &[0, 0, 0, 0, 0, 0, 0, 1]);
    assert_eq!(&b[8..16], &[0, 0, 0, 0, 0, 0, 0, 2]);
    assert_eq!(&b[16..24], &0.5f64.to_be_bytes());
    assert_eq!(&b[24..32], &[0u8; 8]);
}

#[test]
fn sidecar_truncated_is_rejected() {
    let b = encode_sidecar(&record(1, 2, 0.5, 0.1));
    assert_eq!(decode_sidecar(&b[..31]), Err(SidecarError::Truncated));
    assert_eq!(decode_sidecar(&[]), Err(SidecarError::Truncated));
}

pub fn header(tile: &str, pcov: f64) -> TransferHeader {
    TransferHeader {
        album: "naip".to_string(),
        platform: "Sentinel-2".to_string(),
        geocode: "9q8y".to_string(),
        band: "B01".to_string(),
        source: "raw".to_string(),
        tile: tile.to_string(),
        subdataset_index: 3,
        start_timestamp: 100,
        end_timestamp: 200,
        pixel_coverage: pcov.to_bits(),
        cloud_coverage: f64::NAN.to_bits(),
    }
}

#[test]
fn header_round_trip() {
    let h = header("T10SEG", 0.5);
    let mut bytes = encode_header(&h).unwrap();
    let n = bytes.len();
    assert_eq!(bytes[0], OP_WRITE);
    assert_eq!(bytes[1], 4);
    assert_eq!(&bytes[2..6], b"naip");
    bytes.extend_from_slice(&[9, 9, 9]);
    let (back, at) = decode_header(&bytes).unwrap();
    assert_eq!(at, n);
    assert_eq!(back.album, "naip");
    assert_eq!(back.platform, "Sentinel-2");
    assert_eq!(back.geocode, "9q8y");
    assert_eq!(back.band, "B01");
    assert_eq!(back.source, "raw");
    assert_eq!(back.tile, "T10SEG");
    assert_eq!(back.subdataset_index, 3);
    assert_eq!(back.start_timestamp, 100);
    assert_eq!(back.end_timestamp, 200);
    assert_eq!(back.pixel_coverage, 0.5f64.to_bits());
    assert!(f64::from_bits(back.cloud_coverage).is_nan());
    assert_eq!(&bytes[at..], &[9, 9, 9]);
}

#[test]
fn header_layout_is_exact() {
    let h = header("t", 1.0);
    let bytes = encode_header(&h).unwrap();
    // op, six prefixed fields, subdataset byte, four 8-byte numbers
    assert_eq!(bytes.len(), 1 + (1 + 4) + (1 + 10) + (1 + 4) + (1 + 3) + (1 + 3) + (1 + 1) + 1 + 32);
    let tail = &bytes[bytes.len() - 33..];
    assert_eq!(tail[0], 3);
    assert_eq!(&tail[1..9], &100i64.to_be_bytes());
    assert_eq!(&tail[9..17], &200i64.to_be_bytes());
    assert_eq!(&tail[17..25], &1.0f64.to_be_bytes());
}

#[test]
fn truncated_header_is_rejected() {
    let bytes = encode_header(&header("T10SEG", 0.5)).unwrap();
    for cut in 0..bytes.len() {
        let r = decode_header(&bytes[..cut]);
        assert!(matches!(r, Err(TransferError::Truncated)), "cut at {}", cut);
    }
}

#[test]
fn unsupported_operation_is_rejected() {
    let mut bytes = encode_header(&header("T10SEG", 0.5)).unwrap();
    bytes[0] = 0;
    assert!(matches!(decode_header(&bytes), Err(TransferError::UnsupportedOp(0))));
    bytes[0] = 7;
    assert!(matches!(decode_header(&bytes), Err(TransferError::UnsupportedOp(7))));
}

#[test]
fn invalid_text_is_rejected() {
    let mut bytes = encode_header(&header("T10SEG", 0.5)).unwrap();
    bytes[2] = 0xff;
    assert!(matches!(decode_header(&bytes), Err(TransferError::InvalidText)));
}

#[test]
fn long_field_cannot_be_framed() {
    let mut h = header("T10SEG", 0.5);
    h.tile = "x".repeat(256);
    assert!(matches!(encode_header(&h), Err(TransferError::FieldTooLong)));
    h.tile = "x".repeat(255);
    let bytes = encode_header(&h).unwrap();
    let (back, _) = decode_header(&bytes).unwrap();
    assert_eq!(back.tile.len(), 255);
}

#[test]
fn multibyte_text_round_trips() {
    let mut h = header("T10SEG", 0.5);
    h.album = "Ålbum-日本".to_string();
    let bytes = encode_header(&h).unwrap();
    let (back, _) = decode_header(&bytes).unwrap();
    assert_eq!(back.album, "Ålbum-日本");
}
