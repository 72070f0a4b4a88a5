use captu::ts::pes::{
    demux_caption_pes, find_caption_pid, read_pes_blob, scan_psi, write_pes_blob, CaptionPes,
};

fn section_packet(pid: u16, section: &[u8]) -> [u8; 188] {
    assert!(section.len() <= 182, "section too large for single packet");
    let mut pkt = [0xFFu8; 188];
    pkt[0] = 0x47;
    pkt[1] = 0x40 | ((pid >> 8) as u8 & 0x1F);
    pkt[2] = (pid & 0xFF) as u8;
    pkt[3] = 0x10;
    pkt[4] = 0x00;
    pkt[5..5 + section.len()].copy_from_slice(section);
    pkt
}

fn pes_packet(pid: u16, pusi: bool, data: &[u8]) -> [u8; 188] {
    let mut pkt = [0xFFu8; 188];
    pkt[0] = 0x47;
    pkt[1] = (if pusi { 0x40 } else { 0x00 }) | ((pid >> 8) as u8 & 0x1F);
    pkt[2] = (pid & 0xFF) as u8;
    pkt[3] = 0x10;
    let take = data.len().min(184);
    pkt[4..4 + take].copy_from_slice(&data[..take]);
    pkt
}

fn encode_pts(pts: u64) -> [u8; 5] {
    [
        (0x20u8 | ((pts >> 29) & 0x0E) as u8 | 0x01),
        ((pts >> 22) & 0xFF) as u8,
        (((pts >> 14) & 0xFE) as u8 | 0x01),
        ((pts >> 7) & 0xFF) as u8,
        (((pts & 0x7F) << 1) as u8 | 0x01),
    ]
}

fn pat_section(svc_id: u16, pmt_pid: u16) -> Vec<u8> {
    let slen: u16 = 13;
    let mut s = vec![
        0x00,
        0xB0 | ((slen >> 8) as u8 & 0x0F),
        (slen & 0xFF) as u8,
        0x00,
        0x01,
        0xC1,
        0x00,
        0x00,
        (svc_id >> 8) as u8,
        (svc_id & 0xFF) as u8,
        0xE0 | ((pmt_pid >> 8) as u8 & 0x1F),
        (pmt_pid & 0xFF) as u8,
    ];
    s.extend_from_slice(&[0x00, 0x00, 0x00, 0x00]);
    s
}

fn pmt_section_with_arib(svc_id: u16, caption_pid: u16) -> Vec<u8> {
    let slen: u16 = 22;
    let mut s = vec![
        0x02,
        0xB0 | ((slen >> 8) as u8 & 0x0F),
        (slen & 0xFF) as u8,
        (svc_id >> 8) as u8,
        (svc_id & 0xFF) as u8,
        0xC1,
        0x00,
        0x00,
        0xE0,
        0x00,
        0xF0,
        0x00,
        0x06,
        0xE0 | ((caption_pid >> 8) as u8 & 0x1F),
        (caption_pid & 0xFF) as u8,
        0xF0,
        0x04,
        0xFD,
        0x02,
        0x00,
        0x08,
    ];
    s.extend_from_slice(&[0x00, 0x00, 0x00, 0x00]);
    s
}

fn pmt_section_no_arib(svc_id: u16, caption_pid: u16) -> Vec<u8> {
    let slen: u16 = 18;
    let mut s = vec![
        0x02,
        0xB0 | ((slen >> 8) as u8 & 0x0F),
        (slen & 0xFF) as u8,
        (svc_id >> 8) as u8,
        (svc_id & 0xFF) as u8,
        0xC1,
        0x00,
        0x00,
        0xE0,
        0x00,
        0xF0,
        0x00,
        0x06,
        0xE0 | ((caption_pid >> 8) as u8 & 0x1F),
        (caption_pid & 0xFF) as u8,
        0xF0,
        0x00,
    ];
    s.extend_from_slice(&[0x00, 0x00, 0x00, 0x00]);
    s
}

fn pes_header_with_pts(pts_90k: u64, payload: &[u8]) -> Vec<u8> {
    let mut h = Vec::new();
    h.extend_from_slice(&[0x00, 0x00, 0x01, 0xBD]);
    let total_after_length = 3 + 5 + payload.len();
    h.push((total_after_length >> 8) as u8);
    h.push((total_after_length & 0xFF) as u8);
    h.push(0x80);
    h.push(0x80);
    h.push(0x05);
    h.extend_from_slice(&encode_pts(pts_90k));
    h.extend_from_slice(payload);
    h
}

fn stream(packets: &[[u8; 188]]) -> Vec<u8> {
    packets.concat()
}

#[test]
fn scan_psi_nonexistent_file_returns_empty() {
    let psi = scan_psi(&[]);
    assert!(psi.caption_services.is_empty());
    assert!(psi.caption_pid.is_none());
}

#[test]
fn scan_psi_empty_file_returns_empty() {
    let empty: Vec<u8> = Vec::new();
    let psi = scan_psi(&empty);
    assert!(psi.caption_services.is_empty());
    assert!(psi.caption_pid.is_none());
}

#[test]
fn scan_psi_garbage_bytes_returns_empty() {
    let ts = vec![0xAAu8; 188 * 10];
    let psi = scan_psi(&ts);
    assert!(psi.caption_pid.is_none());
}

#[test]
fn scan_psi_pat_only_no_pmt_returns_no_pid() {
    let svc_id: u16 = 1;
    let pmt_pid: u16 = 0x0100;
    let caption_pid: u16 = 0x0200;

    let pat = section_packet(0x0000, &pat_section(svc_id, pmt_pid));

    let filler = pes_packet(0x01FF, false, &[0xFFu8; 184]);

    let ts = stream(&[pat, filler]);
    let psi = scan_psi(&ts);

    assert!(psi.caption_pid.is_none());
    let _ = caption_pid;
}

#[test]
fn scan_psi_finds_caption_pid_with_arib_descriptor() {
    let svc_id: u16 = 0x0001;
    let pmt_pid: u16 = 0x0100;
    let caption_pid: u16 = 0x0200;

    let pat = section_packet(0x0000, &pat_section(svc_id, pmt_pid));
    let pmt = section_packet(pmt_pid, &pmt_section_with_arib(svc_id, caption_pid));

    let ts = stream(&[pat, pmt]);
    let psi = scan_psi(&ts);

    assert_eq!(
        psi.caption_pid,
        Some(caption_pid),
        "should identify caption PID from ARIB descriptor"
    );
    assert!(
        psi.caption_services.contains(&svc_id),
        "service should be listed as a caption service"
    );
}

#[test]
fn scan_psi_fallback_to_stream_type_06_without_arib_descriptor() {
    let svc_id: u16 = 0x0001;
    let pmt_pid: u16 = 0x0100;
    let caption_pid: u16 = 0x0200;

    let pat = section_packet(0x0000, &pat_section(svc_id, pmt_pid));
    let pmt = section_packet(pmt_pid, &pmt_section_no_arib(svc_id, caption_pid));

    let ts = stream(&[pat, pmt]);
    let psi = scan_psi(&ts);

    assert_eq!(
        psi.caption_pid,
        Some(caption_pid),
        "fallback should pick up the stream_type=0x06 PID"
    );
}

#[test]
fn find_caption_pid_nonexistent_file_returns_none() {
    assert!(find_caption_pid(&[]).is_none());
}

#[test]
fn find_caption_pid_returns_pid_from_pmt() {
    let svc_id: u16 = 0x0001;
    let pmt_pid: u16 = 0x0100;
    let caption_pid: u16 = 0x0300;

    let pat = section_packet(0x0000, &pat_section(svc_id, pmt_pid));
    let pmt = section_packet(pmt_pid, &pmt_section_with_arib(svc_id, caption_pid));

    let ts = stream(&[pat, pmt]);
    assert_eq!(find_caption_pid(&ts), Some(caption_pid));
}

#[test]
fn find_caption_pid_empty_stream_returns_none() {
    let empty: Vec<u8> = Vec::new();
    assert!(find_caption_pid(&empty).is_none());
}

#[test]
fn demux_caption_pes_nonexistent_file_returns_empty() {
    let result = demux_caption_pes(&[], 0x0200);
    assert!(result.is_empty());
}

#[test]
fn demux_caption_pes_empty_file_returns_empty() {
    let empty: Vec<u8> = Vec::new();
    let result = demux_caption_pes(&empty, 0x0200);
    assert!(result.is_empty());
}

#[test]
fn demux_caption_pes_wrong_pid_returns_empty() {
    let caption_pid: u16 = 0x0200;
    let wrong_pid: u16 = 0x0201;

    let pts = 90_000u64;
    let payload = [0x80u8, 0x01, 0x02, 0x03];
    let pes_data = pes_header_with_pts(pts, &payload);
    let pkt = pes_packet(caption_pid, true, &pes_data);

    let ts = stream(&[pkt]);
    let result = demux_caption_pes(&ts, wrong_pid);
    assert!(result.is_empty(), "wrong PID should yield no results");
}

#[test]
fn demux_caption_pes_single_packet_within_one_ts_packet() {
    let caption_pid: u16 = 0x0200;
    let pts_90k: u64 = 90_000;
    let payload = [0x80u8, 0xAA, 0xBB];

    let pes_data = pes_header_with_pts(pts_90k, &payload);
    let pkt1 = pes_packet(caption_pid, true, &pes_data);

    let pts2 = 180_000u64;
    let payload2 = [0x80u8, 0xCC];
    let pes_data2 = pes_header_with_pts(pts2, &payload2);
    let pkt2 = pes_packet(caption_pid, true, &pes_data2);

    let ts = stream(&[pkt1, pkt2]);
    let result = demux_caption_pes(&ts, caption_pid);

    assert!(!result.is_empty(), "should get at least one PES unit");
    assert_eq!(result[0].pts_ms, 0, "first PTS should be normalized to 0");
    assert_eq!(
        result[0].payload,
        payload.to_vec(),
        "payload should match what was sent"
    );
}

#[test]
fn demux_caption_pes_pts_normalized_to_first_seen() {
    let caption_pid: u16 = 0x0200;

    let pts_epoch = 90_000u64 * 2;
    let p1 = [0x80u8, 0x01];
    let pes1 = pes_header_with_pts(pts_epoch, &p1);
    let pkt1 = pes_packet(caption_pid, true, &pes1);

    let pts_second = pts_epoch + 90_000;
    let p2 = [0x80u8, 0x02];
    let pes2 = pes_header_with_pts(pts_second, &p2);
    let pkt2 = pes_packet(caption_pid, true, &pes2);

    let pts_third = pts_epoch + 270_000;
    let p3 = [0x80u8, 0x03];
    let pes3 = pes_header_with_pts(pts_third, &p3);
    let pkt3 = pes_packet(caption_pid, true, &pes3);

    let ts = stream(&[pkt1, pkt2, pkt3]);
    let result = demux_caption_pes(&ts, caption_pid);

    assert!(result.len() >= 2, "should have at least 2 flushed units");
    assert_eq!(result[0].pts_ms, 0, "epoch PTS normalizes to 0 ms");
    assert_eq!(result[1].pts_ms, 1000, "second PTS should be 1000 ms");
}

#[test]
fn demux_caption_pes_skips_packet_without_pts() {
    let caption_pid: u16 = 0x0200;

    let payload = [0x80u8, 0x01, 0x02];
    let mut pes = vec![0x00u8, 0x00, 0x01, 0xBD];
    let pes_len = 3 + payload.len();
    pes.push((pes_len >> 8) as u8);
    pes.push((pes_len & 0xFF) as u8);
    pes.push(0x80);
    pes.push(0x00);
    pes.push(0x00);
    pes.extend_from_slice(&payload);

    let pkt = pes_packet(caption_pid, true, &pes);
    let ts = stream(&[pkt]);
    let result = demux_caption_pes(&ts, caption_pid);
    assert!(
        result.is_empty(),
        "packet without PTS should not produce output"
    );
}

#[test]
fn demux_caption_pes_adaptation_field_only_skipped() {
    let caption_pid: u16 = 0x0200;

    let mut pkt = [0xFFu8; 188];
    pkt[0] = 0x47;
    pkt[1] = 0x40 | ((caption_pid >> 8) as u8 & 0x1F);
    pkt[2] = (caption_pid & 0xFF) as u8;
    pkt[3] = 0x20;

    let ts = stream(&[pkt]);
    let result = demux_caption_pes(&ts, caption_pid);
    assert!(result.is_empty());
}

#[test]
fn demux_caption_pes_continuation_packet_extends_pes() {
    let caption_pid: u16 = 0x0200;
    let pts_90k: u64 = 90_000;

    let long_payload = vec![0x80u8; 180];
    let pes_data = pes_header_with_pts(pts_90k, &long_payload);
    assert!(
        pes_data.len() > 184,
        "PES must span multiple TS packets for this test"
    );

    let pkt1 = pes_packet(caption_pid, true, &pes_data[..184.min(pes_data.len())]);
    let pkt2 = pes_packet(caption_pid, false, &pes_data[184.min(pes_data.len())..]);
    let flush_data = pes_header_with_pts(pts_90k + 90_000, &[0x80u8]);
    let pkt3 = pes_packet(caption_pid, true, &flush_data);

    let ts = stream(&[pkt1, pkt2, pkt3]);
    let result = demux_caption_pes(&ts, caption_pid);

    assert!(!result.is_empty(), "continuation PES should be reassembled");
    assert_eq!(
        result[0].payload, long_payload,
        "multi-packet PES payload should be fully reassembled"
    );
}

#[test]
fn pes_blob_write_read_integration() {
    let items = vec![
        CaptionPes {
            pts_ms: 0,
            payload: vec![0x80, 0xAA],
        },
        CaptionPes {
            pts_ms: 2000,
            payload: vec![0x80, 0xBB, 0xCC],
        },
    ];

    let blob = write_pes_blob(&items);
    let loaded = read_pes_blob(&blob).expect("read");

    assert_eq!(loaded.len(), 2);
    assert_eq!(loaded[0].pts_ms, 0);
    assert_eq!(loaded[1].pts_ms, 2000);
    assert_eq!(loaded[1].payload, vec![0x80u8, 0xBB, 0xCC]);
}
