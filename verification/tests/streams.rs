use captu::ts::pes::{
    demux_caption_pes, read_pes_blob, scan_psi, write_pes_blob, CaptionDemuxer, CaptionPes,
    PesBlobError,
};
use captu::ts::pts::{PtsNormalizer, PTS_WRAP};

const PID: u16 = 0x0130;

fn pts_bytes(pts: u64) -> [u8; 5] {
    [
        0x21 | ((pts >> 29) & 0x0E) as u8,
        (pts >> 22) as u8,
        0x01 | ((pts >> 14) & 0xFE) as u8,
        (pts >> 7) as u8,
        0x01 | ((pts << 1) & 0xFE) as u8,
    ]
}

fn pes(pts: u64, payload: &[u8]) -> Vec<u8> {
    let len = 8 + payload.len();
    let mut v = vec![0, 0, 1, 0xBD, (len >> 8) as u8, len as u8, 0x80, 0x80, 5];
    v.extend_from_slice(&pts_bytes(pts));
    v.extend_from_slice(payload);
    v
}

fn packet(pid: u16, start: bool, payload: &[u8]) -> Vec<u8> {
    let mut p = vec![
        0x47,
        (if start { 0x40 } else { 0 }) | (pid >> 8) as u8,
        pid as u8,
        0x10,
    ];
    p.extend_from_slice(payload);
    p.resize(188, 0xFF);
    p
}

fn times(ts: &[u8]) -> Vec<i64> {
    demux_caption_pes(ts, PID).iter().map(|p| p.pts_ms).collect()
}

#[test]
fn caption_times_run_on_over_the_wrap() {
    let sec = 90_000;
    let ts = [
        packet(PID, true, &pes(PTS_WRAP - 2 * sec, &[0x80])),
        packet(PID, true, &pes(PTS_WRAP - sec, &[0x81])),
        packet(PID, true, &pes(sec, &[0x82])),
        packet(PID, true, &pes(2 * sec, &[0x83])),
    ]
    .concat();
    assert_eq!(times(&ts), vec![0, 1000, 3000, 4000]);
}

#[test]
fn a_splice_moves_caption_times_by_one_second() {
    let sec = 90_000;
    let ts = [
        packet(PID, true, &pes(sec, &[0x80])),
        packet(PID, true, &pes(sec + 5 * 3600 * sec, &[0x81])),
        packet(PID, true, &pes(2 * sec + 5 * 3600 * sec, &[0x82])),
    ]
    .concat();
    assert_eq!(times(&ts), vec![0, 1000, 2000]);
    let mut demuxer = CaptionDemuxer::new(PID);
    for p in ts.chunks(188) {
        demuxer.push_packet(p);
    }
    assert_eq!(demuxer.discontinuities(), 1);
    assert_eq!(demuxer.finish().len(), 3);
}

#[test]
fn a_packet_without_payload_still_starts_the_clock() {
    let ts = [
        packet(PID, true, &pes(90_000, &[])),
        packet(PID, true, &pes(180_000, &[0x81])),
    ]
    .concat();
    assert_eq!(times(&ts), vec![1000]);
}

#[test]
fn other_streams_and_damaged_packets_change_nothing() {
    let own = [
        packet(PID, true, &pes(0, &[0x80; 100])),
        packet(PID, false, &[0x55; 184]),
        packet(PID, true, &pes(90_000, &[0x81])),
    ];
    let mut unsynced = packet(PID, true, &pes(900, &[1]));
    unsynced[0] = 0x46;
    let mut mixed = Vec::new();
    for p in &own {
        mixed.extend_from_slice(&packet(0x0200, true, &pes(5, &[1, 2, 3])));
        mixed.extend_from_slice(p);
        mixed.extend_from_slice(&unsynced);
    }
    let alone = own.concat();
    let a = demux_caption_pes(&alone, PID);
    let b = demux_caption_pes(&mixed, PID);
    assert_eq!(a.len(), 2);
    assert_eq!(a.len(), b.len());
    for (x, y) in a.iter().zip(&b) {
        assert_eq!((x.pts_ms, &x.payload), (y.pts_ms, &y.payload));
    }
    // What follows the stated length is no part of the packet.
    assert_eq!(a[0].payload, vec![0x80; 100]);
}

#[test]
fn unbounded_packets_take_everything() {
    let mut first = pes(0, &[0x80; 170]);
    first[4] = 0;
    first[5] = 0;
    let ts = [packet(PID, true, &first), packet(PID, false, &[7; 184])].concat();
    let units = demux_caption_pes(&ts, PID);
    assert_eq!(units.len(), 1);
    assert_eq!(units[0].payload.len(), 170 + 184);
}

#[test]
fn adaptation_fields_are_skipped() {
    let body = pes(0, &[0x80, 1, 2]);
    let mut p = vec![0x47, 0x40 | (PID >> 8) as u8, PID as u8, 0x30, 3, 0, 0, 0];
    p.extend_from_slice(&body);
    p.resize(188, 0xFF);
    let units = demux_caption_pes(&p, PID);
    assert_eq!(units[0].payload, vec![0x80, 1, 2]);
}

#[test]
fn caption_files_read_back() {
    let units = vec![
        CaptionPes {
            pts_ms: -500,
            payload: vec![],
        },
        CaptionPes {
            pts_ms: i64::MAX,
            payload: vec![1, 2, 3],
        },
    ];
    let mut blob = write_pes_blob(&units);
    assert_eq!(blob[..8], [2, 0, 0, 0, 0, 0, 0, 0]);
    assert_eq!(blob[8..16], (-500i64).to_le_bytes());
    assert_eq!(blob.len(), 8 + 16 + 16 + 3);
    blob.extend_from_slice(&[9, 9]);
    let back = read_pes_blob(&blob).expect("the packets");
    assert_eq!(back.len(), 2);
    assert_eq!(back[0].pts_ms, -500);
    assert!(back[0].payload.is_empty());
    assert_eq!(back[1].pts_ms, i64::MAX);
    assert_eq!(back[1].payload, vec![1, 2, 3]);
    assert!(read_pes_blob(&write_pes_blob(&[])).expect("nothing").is_empty());
}

#[test]
fn damaged_caption_files_are_refused() {
    let blob = write_pes_blob(&[CaptionPes {
        pts_ms: 1,
        payload: vec![1, 2, 3],
    }]);
    for len in 0..blob.len() {
        assert_eq!(
            read_pes_blob(&blob[..len]).map(|v| v.len()),
            Err(PesBlobError::Malformed)
        );
    }
    assert!(read_pes_blob(&[0xFF; 64]).is_err());
}

#[test]
fn the_epoch_can_be_given() {
    let mut n = PtsNormalizer::with_epoch((1 << 40) | 90_000);
    assert_eq!(n.push(180_000).ms, 1000);
    assert_eq!(n.discontinuities(), 0);
    let mut d = PtsNormalizer::default();
    assert_eq!(d.push(180_000).ms, 0);
}

#[test]
fn captions_win_over_other_private_streams() {
    // One service with a plain private stream, one with captions.
    let pat: Vec<u8> = vec![
        0, 0xB0, 17, 0, 1, 0xC1, 0, 0, 0, 1, 0xE1, 0x00, 0, 2, 0xE1, 0x01, 0, 0, 0, 0,
    ];
    let plain: Vec<u8> = vec![
        2, 0xB0, 18, 0, 1, 0xC1, 0, 0, 0xE0, 0, 0xF0, 0, 6, 0xE2, 0x00, 0xF0, 0, 0, 0, 0, 0,
    ];
    let captions: Vec<u8> = vec![
        2, 0xB0, 25, 0, 2, 0xC1, 0, 0, 0xE0, 0, 0xF0, 0, 6, 0xE2, 0x01, 0xF0, 7, 0x52, 1, 9, 0xFD,
        2, 0, 0x12, 0, 0, 0, 0,
    ];
    let section = |pid: u16, s: &[u8]| {
        let mut payload = vec![0];
        payload.extend_from_slice(s);
        packet(pid, true, &payload)
    };
    let ts = [
        section(0, &pat),
        section(0x100, &plain),
        section(0x101, &captions),
        section(0x100, &plain),
    ]
    .concat();
    let info = scan_psi(&ts);
    assert_eq!(info.caption_pid, Some(0x201));
    assert_eq!(info.caption_services, vec![2]);
    // Without the second table the plain stream stands in.
    let info = scan_psi(&ts[..2 * 188]);
    assert_eq!(info.caption_pid, Some(0x200));
    assert_eq!(info.caption_services, vec![1]);
}

#[test]
fn packets_in_between_change_nothing() {
    let own = [
        packet(PID, true, &pes(90_000, &[0x80; 170])),
        packet(PID, false, &[0x81; 3]),
        packet(PID, true, &pes(180_000, &[0x82])),
    ];
    let mut adaptation_only = packet(PID, true, &pes(0, &[0x99]));
    adaptation_only[3] = 0x20;
    let mut out_of_sync = packet(PID, true, &pes(0, &[0x99]));
    out_of_sync[0] = 0x46;
    let other = packet(PID + 1, true, &pes(0, &[0x99]));
    let plain = demux_caption_pes(&own.concat(), PID);
    for extra in [adaptation_only, out_of_sync, other] {
        for i in 0..=own.len() {
            let mut all = own.to_vec();
            all.insert(i, extra.clone());
            let with = demux_caption_pes(&all.concat(), PID);
            assert_eq!(with.len(), plain.len());
            for (a, b) in with.iter().zip(&plain) {
                assert_eq!((a.pts_ms, &a.payload), (b.pts_ms, &b.payload));
            }
        }
    }
}

#[test]
fn a_moved_clock_gives_the_same_samples() {
    let raws = [5, 90_005, 3 * 972_000_000, 0, PTS_WRAP - 1, 90_000 * 7];
    for shift in [0, 1, PTS_WRAP - 3, PTS_WRAP / 2, PTS_WRAP * 5] {
        let (mut a, mut b) = (PtsNormalizer::new(), PtsNormalizer::new());
        for raw in raws {
            assert_eq!(a.push(raw), b.push(raw + shift));
        }
        assert_eq!(a.discontinuities(), b.discontinuities());
        assert!(a.discontinuities() > 0);
    }
}

#[test]
fn steps_that_count_as_jumps() {
    let epoch = PTS_WRAP - 50_000;
    for (step, jump) in [
        (-90_001i64, true),
        (-90_000, false),
        (0, false),
        (972_000_000, false),
        (972_000_001, true),
    ] {
        let raw = (epoch as i64 + step) as u64 % PTS_WRAP;
        assert_eq!(PtsNormalizer::with_epoch(epoch).push(raw).discontinuity, jump);
        let mut n = PtsNormalizer::new();
        n.push(77);
        n.push(epoch);
        assert_eq!(n.push(raw).discontinuity, jump);
    }
}
