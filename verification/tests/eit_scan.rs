use captu::ts::epg::{
    epg_in_window, extract_epg, fill_series_episode, first_epg_window, next_epg_window,
    parse_eit_section, read_event_name, read_event_text, read_series_name, read_series_numbers,
    scan_eit, EpgWindow,
};

const ALNUM: [u8; 3] = [0x1B, 0x28, 0x42];

fn b24(text: &str) -> Vec<u8> {
    let mut v = ALNUM.to_vec();
    v.extend_from_slice(text.as_bytes());
    v
}

fn short_event(name: &[u8]) -> Vec<u8> {
    let mut d = vec![0x4D, (4 + name.len()) as u8, b'j', b'p', b'n', name.len() as u8];
    d.extend_from_slice(name);
    d
}

/// A section of the present programme of a service, with one event.
fn section(service: u16, number: u8, descriptors: &[u8]) -> Vec<u8> {
    let len = 11 + 12 + descriptors.len() + 4;
    let mut s = vec![
        0x4E,
        0x80 | (len >> 8) as u8,
        len as u8,
        (service >> 8) as u8,
        service as u8,
        0xC1,
        number,
        0x01,
        0,
        0,
        0,
        0,
        0,
        0x4E,
        0,
        1,
        0xC9,
        0x58,
        0x12,
        0x30,
        0x00,
        0,
        0x30,
        0,
        (descriptors.len() >> 8) as u8,
        descriptors.len() as u8,
    ];
    s.extend_from_slice(descriptors);
    s.extend_from_slice(&[0, 0, 0, 0]);
    s
}

fn packet(start: bool, payload: &[u8]) -> Vec<u8> {
    let mut p = vec![0x47, if start { 0x40 } else { 0 }, 0x12, 0x10];
    p.extend_from_slice(payload);
    p.resize(188, 0xFF);
    p
}

fn one_packet(section: &[u8]) -> Vec<u8> {
    let mut payload = vec![0];
    payload.extend_from_slice(section);
    packet(true, &payload)
}

#[test]
fn a_section_in_one_packet() {
    let s = section(1, 0, &short_event(&b24("Show")));
    assert_eq!(scan_eit(&one_packet(&s), &[], 10), Some(s.clone()));
    assert_eq!(scan_eit(&one_packet(&s), &[7, 1], 10), Some(s.clone()));
    assert_eq!(scan_eit(&one_packet(&s), &[7], 10), None);
    assert_eq!(scan_eit(&one_packet(&s), &[], 0), None);
    let epg = parse_eit_section(&s).expect("a programme");
    assert_eq!(epg.title, "Show");
    assert_eq!(epg.air_datetime.expect("a time").date(), "2000-01-01");
}

#[test]
fn the_following_programme_and_other_tables_are_passed_over() {
    let following = section(1, 1, &short_event(&b24("Next")));
    let mut schedule = section(1, 0, &short_event(&b24("Plan")));
    schedule[0] = 0x50;
    let mut other_syntax = section(1, 0, &short_event(&b24("Odd")));
    other_syntax[1] &= 0x7F;
    let present = section(1, 0, &short_event(&b24("Now")));
    let ts = [
        one_packet(&following),
        one_packet(&schedule),
        one_packet(&other_syntax),
        one_packet(&present),
    ]
    .concat();
    assert_eq!(scan_eit(&ts, &[], 10), Some(present));
    assert_eq!(scan_eit(&ts, &[], 3), None);
}

#[test]
fn a_section_over_two_packets() {
    let s = section(1, 0, &short_event(&b24(&"x".repeat(180))));
    assert!(s.len() > 184);
    let mut first = vec![0];
    first.extend_from_slice(&s[..183]);
    let ts = [packet(true, &first), packet(false, &s[183..])].concat();
    assert_eq!(scan_eit(&ts, &[], 10), Some(s));
}

#[test]
fn the_bytes_before_a_new_section_complete_the_old_one() {
    let s = section(1, 0, &short_event(&b24(&"x".repeat(180))));
    let next = section(1, 1, &short_event(&b24("Next")));
    let mut first = vec![0];
    first.extend_from_slice(&s[..183]);
    let tail = &s[183..];
    let mut second = vec![tail.len() as u8];
    second.extend_from_slice(tail);
    second.extend_from_slice(&next[..60.min(next.len())]);
    let ts = [packet(true, &first), packet(true, &second)].concat();
    assert_eq!(scan_eit(&ts, &[], 10), Some(s));
}

#[test]
fn a_section_that_is_cut_off_is_given_up() {
    let s = section(1, 0, &short_event(&b24(&"x".repeat(180))));
    let short = section(1, 0, &short_event(&b24("Again")));
    let mut first = vec![0];
    first.extend_from_slice(&s[..183]);
    let ts = [packet(true, &first), one_packet(&short)].concat();
    assert_eq!(scan_eit(&ts, &[], 10), Some(short));
}

#[test]
fn descriptors_one_by_one() {
    assert_eq!(
        read_event_name(&[b'j', b'p', b'n', 2, 0x41, 0x42, 9]),
        Some(&[0x41u8, 0x42][..])
    );
    assert_eq!(read_event_name(&[b'j', b'p', b'n', 3, 0x41, 0x42]), None);
    assert_eq!(read_event_name(&[1, 2, 3]), None);
    assert_eq!(
        read_event_text(&[0, b'j', b'p', b'n', 1, 0xAA, 2, 0x41, 0x42]),
        Some(&[0x41u8, 0x42][..])
    );
    assert_eq!(read_event_text(&[0, b'j', b'p', b'n', 0, 0]), None);
    assert_eq!(read_event_text(&[0, b'j', b'p', b'n', 0, 5, 1]), None);
    assert_eq!(read_event_text(&[0, 1, 2, 3]), None);
    let series = [0, 1, 0, 0, 0, 0x12, 0x34, 0x56, 1, 0x41];
    assert_eq!(read_series_numbers(&series), (0x123, 0x456));
    assert_eq!(read_series_name(&series), Some(&[0x41u8][..]));
    assert_eq!(read_series_name(&series[..9]), None);
}

#[test]
fn all_descriptors_of_a_programme() {
    let mut d = short_event(&b24("Show #3 Sub[x]"));
    let name = b24("Series");
    d.extend_from_slice(&[0xD5, (9 + name.len()) as u8, 0, 1, 0, 0, 0, 0x00, 0x70, 0x0C]);
    d.push(name.len() as u8);
    d.extend_from_slice(&name);
    let text = b24("About");
    d.extend_from_slice(&[0x4E, (6 + text.len()) as u8, 0, b'j', b'p', b'n', 0]);
    d.push(text.len() as u8);
    d.extend_from_slice(&text);
    let epg = parse_eit_section(&section(1, 0, &d)).expect("a programme");
    assert_eq!(epg.title, "Show #3 Sub[x]");
    assert_eq!(epg.episode_number, Some(7));
    assert_eq!(epg.last_episode, Some(12));
    assert_eq!(epg.series_name.as_deref(), Some("Series"));
    assert_eq!(epg.detail.as_deref(), Some("About"));
    assert_eq!(epg.series_title, "");

    let filled = fill_series_episode(epg);
    assert_eq!(filled.series_title, "Show");
    assert_eq!(filled.episode_number, Some(7));
    assert_eq!(filled.sub_title.as_deref(), Some("Sub"));
    let again = fill_series_episode(filled);
    assert_eq!(again.series_title, "Show");
    assert_eq!(again.sub_title.as_deref(), Some("Sub"));
}

#[test]
fn where_to_look() {
    assert_eq!(
        first_epg_window(500_000),
        EpgWindow {
            offset: 0,
            max_packets: 300_000
        }
    );
    let middle = first_epg_window(1_000_000);
    assert_eq!(
        middle,
        EpgWindow {
            offset: 1063 * 188,
            max_packets: 600_000
        }
    );
    assert_eq!(middle.offset % 188, 0);
    let head = next_epg_window(middle).expect("the head");
    assert_eq!(head.offset, 0);
    assert_eq!(head.max_packets, 300_000);
    assert_eq!(next_epg_window(head), None);
}

#[test]
fn the_middle_of_a_long_stream_comes_first() {
    let before = one_packet(&section(1, 0, &short_event(&b24("Before"))));
    let now = one_packet(&section(1, 0, &short_event(&b24("Now"))));
    let null = packet(false, &[]);
    let mut ts = before.clone();
    while ts.len() < 600_000 {
        ts.extend_from_slice(&null);
    }
    assert_eq!(extract_epg(&ts, &[], None).title, "Before");
    ts.extend_from_slice(&now);
    assert_eq!(extract_epg(&ts, &[], None).title, "Now");
    assert_eq!(extract_epg(&ts, &[9], None).title, "(unknown)");
    assert_eq!(extract_epg(&before, &[], None).title, "Before");
    assert_eq!(
        epg_in_window(&before, &[], 1).map(|e| e.series_title),
        Some("Before".to_string())
    );
    assert!(epg_in_window(&null, &[], 1).is_none());
}
