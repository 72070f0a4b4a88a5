use captu::ts::pes::{extract_pes_payload, parse_pts};

fn encode_pts(pts: u64) -> [u8; 5] {
    [
        (((pts >> 29) & 0x0E) | 0x01) as u8,
        ((pts >> 22) & 0xFF) as u8,
        ((((pts >> 14) & 0xFE) | 0x01)) as u8,
        ((pts >> 7) & 0xFF) as u8,
        (((pts & 0x7F) << 1) | 0x01) as u8,
    ]
}

#[test]
fn parse_pts_zero() {
    let bytes = encode_pts(0);
    assert_eq!(parse_pts(&bytes), 0);
}

#[test]
fn parse_pts_known_value() {
    let pts: u64 = 90_000;
    let bytes = encode_pts(pts);
    assert_eq!(parse_pts(&bytes), pts);
}

#[test]
fn parse_pts_max_33bit() {
    let pts: u64 = (1 << 33) - 1;
    let bytes = encode_pts(pts);
    assert_eq!(parse_pts(&bytes), pts);
}

#[test]
fn parse_pts_typical_ts_value() {
    let pts: u64 = 90_000 * 3600;
    let bytes = encode_pts(pts);
    assert_eq!(parse_pts(&bytes), pts);
}

fn make_pes(opt_header_len: u8, payload: &[u8]) -> Vec<u8> {
    let header_total = 9 + opt_header_len as usize;
    let mut pes = vec![0u8; header_total];
    pes[8] = opt_header_len;
    pes.extend_from_slice(payload);
    pes
}

#[test]
fn extract_pes_payload_basic() {
    let payload = b"\x80\x01\x02\x03";
    let pes = make_pes(0, payload);
    assert_eq!(extract_pes_payload(&pes), payload);
}

#[test]
fn extract_pes_payload_with_optional_header() {
    let payload = b"\xAA\xBB";
    let pes = make_pes(5, payload);
    assert_eq!(extract_pes_payload(&pes), payload);
}

#[test]
fn extract_pes_payload_too_short_returns_empty() {
    assert_eq!(extract_pes_payload(&[0u8; 8]), Vec::<u8>::new());
}

#[test]
fn extract_pes_payload_header_fills_whole_pes_returns_empty() {
    let pes = vec![0u8; 9];
    assert_eq!(extract_pes_payload(&pes), Vec::<u8>::new());
}
