//! Programme information: finding the table that describes the programme on
//! air (EIT, on PID 0x12) and reading it.
use vstd::prelude::*;
use vstd::slice::{slice_subrange, slice_to_vec};

use crate::ts::airtime::{
    chrono_local, decode_mjd_bcd, in_chrono_range, is_jst_of, start_time, AirDateTime, JST_OFFSET,
};
use crate::ts::b24::{b24_text, decode_arib_b24};
use crate::ts::packet::{
    be16, in_sync, lists, low12, packet_at, packet_count, payload_start, pid_of, read_be16, read_low12,
    read_packet, read_payload_start, read_pid, read_starts_unit, starts_unit, PACKET_LEN, SYNC_BYTE,
};
use crate::ts::title::{
    extract_series_episode, strip_arib_icons, text_opt, title_parts, without_icons,
};

pub use crate::ts::airtime::bcd_byte;
pub use crate::ts::title::{parse_digits_at, strip_broadcast_flags};

verus! {

/// What is known of a programme.
#[derive(Debug)]
pub struct EpgInfo {
    /// The title as broadcast.
    pub title: String,
    /// The series, taken from the title.
    pub series_title: String,
    /// The episode's name, taken from the title.
    pub sub_title: Option<String>,
    /// The episode number, from the series descriptor or the title.
    pub episode_number: Option<u16>,
    pub last_episode: Option<u16>,
    /// The series, as its descriptor names it.
    pub series_name: Option<String>,
    pub air_datetime: Option<AirDateTime>,
    pub detail: Option<String>,
}

/// What is known of a programme, as mathematical values.
pub ghost struct Epg {
    pub title: Seq<char>,
    pub series_title: Seq<char>,
    pub sub_title: Option<Seq<char>>,
    pub episode_number: Option<u16>,
    pub last_episode: Option<u16>,
    pub series_name: Option<Seq<char>>,
    pub air_datetime: Option<AirDateTime>,
    pub detail: Option<Seq<char>>,
}

impl View for EpgInfo {
    type V = Epg;

    open spec fn view(&self) -> Epg {
        Epg {
            title: self.title@,
            series_title: self.series_title@,
            sub_title: text_opt(self.sub_title),
            episode_number: self.episode_number,
            last_episode: self.last_episode,
            series_name: text_opt(self.series_name),
            air_datetime: self.air_datetime,
            detail: text_opt(self.detail),
        }
    }
}

pub open spec fn epg_opt(e: Option<EpgInfo>) -> Option<Epg> {
    match e {
        Some(epg) => Some(epg@),
        None => None,
    }
}

impl Epg {
    pub open spec fn empty() -> Epg {
        Epg {
            title: Seq::empty(),
            series_title: Seq::empty(),
            sub_title: None,
            episode_number: None,
            last_episode: None,
            series_name: None,
            air_datetime: None,
            detail: None,
        }
    }
}

// ----------------------------------------------------------------- descriptors

pub const SHORT_EVENT_TAG: u8 = 0x4D;

pub const EXTENDED_EVENT_TAG: u8 = 0x4E;

pub const SERIES_TAG: u8 = 0xD5;

/// The name in a short event descriptor: after a language of three bytes, a
/// length and that many bytes.
pub open spec fn event_name(d: Seq<u8>) -> Option<Seq<u8>> {
    if d.len() >= 4 && 4 + d[3] <= d.len() {
        Some(d.subrange(4, 4 + d[3]))
    } else {
        None
    }
}

/// The text in an extended event descriptor, which follows its items.
pub open spec fn event_text(d: Seq<u8>) -> Option<Seq<u8>> {
    let at = 5 + d[4];
    if d.len() >= 5 && at < d.len() && at + 1 + d[at] <= d.len() && d[at] > 0 {
        Some(d.subrange(at + 1, at + 1 + d[at]))
    } else {
        None
    }
}

/// The episode number in a series descriptor: twelve bits.
pub open spec fn series_episode(d: Seq<u8>) -> u16 {
    (d[5] * 16 + d[6] / 16) as u16
}

/// The number of the last episode in a series descriptor: twelve bits.
pub open spec fn series_last(d: Seq<u8>) -> u16 {
    low12(d[6], d[7]) as u16
}

/// The name in a series descriptor.
pub open spec fn series_name_bytes(d: Seq<u8>) -> Option<Seq<u8>> {
    if d.len() >= 9 && 9 + d[8] <= d.len() {
        Some(d.subrange(9, 9 + d[8]))
    } else {
        None
    }
}

pub open spec fn bytes_opt(s: Option<&[u8]>) -> Option<Seq<u8>> {
    match s {
        Some(b) => Some(b@),
        None => None,
    }
}

pub fn read_event_name(d: &[u8]) -> (name: Option<&[u8]>)
    ensures
        bytes_opt(name) == event_name(d@),
{
    if d.len() >= 4 && 4 + d[3] as usize <= d.len() {
        Some(slice_subrange(d, 4, 4 + d[3] as usize))
    } else {
        None
    }
}

pub fn read_event_text(d: &[u8]) -> (text: Option<&[u8]>)
    ensures
        bytes_opt(text) == event_text(d@),
{
    if d.len() < 5 {
        return None;
    }
    let at: usize = 5 + d[4] as usize;
    if at >= d.len() {
        return None;
    }
    let len: usize = d[at] as usize;
    if len > 0 && at + 1 + len <= d.len() {
        Some(slice_subrange(d, at + 1, at + 1 + len))
    } else {
        None
    }
}

pub fn read_series_name(d: &[u8]) -> (name: Option<&[u8]>)
    ensures
        bytes_opt(name) == series_name_bytes(d@),
{
    if d.len() >= 9 && 9 + d[8] as usize <= d.len() {
        Some(slice_subrange(d, 9, 9 + d[8] as usize))
    } else {
        None
    }
}

/// The episode number and the number of the last episode.
pub fn read_series_numbers(d: &[u8]) -> (r: (u16, u16))
    requires
        d@.len() >= 9,
    ensures
        r.0 == series_episode(d@),
        r.1 == series_last(d@),
{
    let (hi, mid) = (d[5], d[6]);
    assert(((hi as u16) << 4) | ((mid as u16) >> 4) == hi * 16 + mid / 16) by (bit_vector);
    (((hi as u16) << 4) | ((mid as u16) >> 4), read_low12(d[6], d[7]) as u16)
}

/// The programme information after a descriptor.
pub open spec fn with_descriptor(e: Epg, tag: u8, d: Seq<u8>) -> Epg {
    if tag == SHORT_EVENT_TAG {
        match event_name(d) {
            Some(name) => Epg { title: without_icons(b24_text(name)), ..e },
            None => e,
        }
    } else if tag == SERIES_TAG && d.len() >= 9 {
        Epg {
            episode_number: if series_episode(d) > 0 {
                Some(series_episode(d))
            } else {
                e.episode_number
            },
            last_episode: if series_last(d) > 0 {
                Some(series_last(d))
            } else {
                e.last_episode
            },
            series_name: match series_name_bytes(d) {
                Some(name) if b24_text(name).len() > 0 => Some(b24_text(name)),
                _ => e.series_name,
            },
            ..e
        }
    } else if tag == EXTENDED_EVENT_TAG {
        match event_text(d) {
            Some(text) if b24_text(text).len() > 0 => Epg { detail: Some(b24_text(text)), ..e },
            _ => e,
        }
    } else {
        e
    }
}

/// The programme information after the descriptors in `data[at..end]`.  One
/// that runs past the end stops the reading.
pub open spec fn with_descriptors(e: Epg, data: Seq<u8>, at: int, end: int) -> Epg
    decreases if at < end { end - at } else { 0 },
{
    let next = at + 2 + data[at + 1];
    if at + 2 > end || next > end {
        e
    } else {
        with_descriptors(
            with_descriptor(e, data[at], data.subrange(at + 2, next)),
            data,
            next,
            end,
        )
    }
}

/// The programme information of the events from `at` on: that of the first
/// event with a title, over what the events before it left.
pub open spec fn events_from(e: Epg, data: Seq<u8>, at: int, end: int) -> Epg
    decreases if at < end { end - at } else { 0 },
{
    if at + 12 > end {
        e
    } else {
        let timed = Epg { air_datetime: start_time(data.subrange(at + 2, at + 7)), ..e };
        let stated = at + 12 + low12(data[at + 10], data[at + 11]);
        let stop = if stated < end {
            stated
        } else {
            end
        };
        let read = with_descriptors(timed, data, at + 12, stop);
        if read.title.len() > 0 {
            read
        } else {
            events_from(read, data, stop, end)
        }
    }
}

/// The programme that an EIT section describes, if it names one.
pub open spec fn eit_programme(data: Seq<u8>) -> Option<Epg> {
    let e = events_from(Epg::empty(), data, 14, data.len() - 4);
    if data.len() < 18 || e.title.len() == 0 {
        None
    } else {
        Some(e)
    }
}

fn read_descriptor(epg: &mut EpgInfo, tag: u8, d: &[u8])
    ensures
        final(epg)@ == with_descriptor(old(epg)@, tag, d@),
{
    if tag == SHORT_EVENT_TAG {
        if let Some(name) = read_event_name(d) {
            epg.title = strip_arib_icons(decode_arib_b24(name).as_str());
        }
    } else if tag == SERIES_TAG {
        if d.len() >= 9 {
            let (episode, last) = read_series_numbers(d);
            if episode > 0 {
                epg.episode_number = Some(episode);
            }
            if last > 0 {
                epg.last_episode = Some(last);
            }
            if let Some(name) = read_series_name(d) {
                let text = decode_arib_b24(name);
                if !text.as_str().is_empty() {
                    epg.series_name = Some(text);
                }
            }
        }
    } else if tag == EXTENDED_EVENT_TAG {
        if let Some(bytes) = read_event_text(d) {
            let text = decode_arib_b24(bytes);
            if !text.as_str().is_empty() {
                epg.detail = Some(text);
            }
        }
    }
}

fn read_descriptors(epg: &mut EpgInfo, data: &[u8], start: usize, end: usize)
    requires
        start <= end <= data@.len(),
    ensures
        final(epg)@ == with_descriptors(old(epg)@, data@, start as int, end as int),
{
    let mut at: usize = start;
    while end - at >= 2
        invariant
            at <= end <= data@.len(),
            with_descriptors(epg@, data@, at as int, end as int) == with_descriptors(
                old(epg)@,
                data@,
                start as int,
                end as int,
            ),
        decreases end - at,
    {
        let len: usize = data[at + 1] as usize;
        if len > end - at - 2 {
            return;
        }
        read_descriptor(epg, data[at], slice_subrange(data, at + 2, at + 2 + len));
        at = at + 2 + len;
    }
}

/// Reads an EIT section.
pub fn parse_eit_section(data: &[u8]) -> (epg: Option<EpgInfo>)
    ensures
        epg_opt(epg) == eit_programme(data@),
{
    if data.len() < 18 {
        return None;
    }
    let mut epg = EpgInfo {
        title: String::new(),
        series_title: String::new(),
        sub_title: None,
        episode_number: None,
        last_episode: None,
        series_name: None,
        air_datetime: None,
        detail: None,
    };
    let end: usize = data.len() - 4;
    let mut at: usize = 14;
    assert(epg@ == Epg::empty());
    while end - at >= 12
        invariant
            at <= end,
            end == data@.len() - 4,
            epg@.title.len() == 0,
            events_from(epg@, data@, at as int, end as int) == events_from(
                Epg::empty(),
                data@,
                14,
                end as int,
            ),
            data@.len() >= 18,
        decreases end - at,
    {
        epg.air_datetime = decode_mjd_bcd(slice_subrange(data, at + 2, at + 7));
        let len: usize = read_low12(data[at + 10], data[at + 11]);
        let room: usize = end - at - 12;
        let stop: usize = if len < room {
            at + 12 + len
        } else {
            end
        };
        read_descriptors(&mut epg, data, at + 12, stop);
        if !epg.title.as_str().is_empty() {
            return Some(epg);
        }
        at = stop;
    }
    None
}

// -------------------------------------------------------------------- scanning

/// The PID of the event tables.
pub const EIT_PID: u16 = 0x0012;

/// The table of the present and the following programme on this channel.
pub const PRESENT_TABLE: u8 = 0x4E;

/// Whether the section that starts at `at` describes the present programme of
/// one of the services; no services stands for all.
pub open spec fn is_present_section(p: Seq<u8>, at: int, services: Seq<u16>) -> bool {
    &&& p[at] == PRESENT_TABLE
    &&& p[at + 1] >= 0x80
    &&& services.len() == 0 || services.contains(be16(p[at + 3], p[at + 4]))
    &&& p[at + 6] == 0
}

/// A search for the section of the present programme.
pub ghost struct EitState {
    /// The section in progress; empty where there is none.
    pub section: Seq<u8>,
    /// Its length.
    pub total: nat,
    /// The section, once it is complete.
    pub found: Option<Seq<u8>>,
}

impl EitState {
    pub open spec fn start() -> EitState {
        EitState { section: Seq::empty(), total: 0, found: None }
    }

    /// After bytes that belong to the section in progress, as far as it lacks
    /// them.
    pub open spec fn append(self, bytes: Seq<u8>) -> EitState {
        let missing = if self.section.len() < self.total {
            self.total - self.section.len()
        } else {
            0
        };
        let taken = if missing < bytes.len() {
            bytes.take(missing)
        } else {
            bytes
        };
        let section = self.section + taken;
        EitState {
            section,
            found: if section.len() >= self.total {
                Some(section)
            } else {
                None
            },
            ..self
        }
    }

    /// After the bytes from `at` on, where a new section starts.
    pub open spec fn begin(self, p: Seq<u8>, at: int, services: Seq<u16>) -> EitState {
        if at + 8 > PACKET_LEN || !is_present_section(p, at, services) {
            EitState::start()
        } else {
            EitState {
                section: Seq::empty(),
                total: 3 + low12(p[at + 1], p[at + 2]),
                found: None,
            }.append(p.skip(at))
        }
    }

    /// After one packet.  Where a section starts in a packet, the bytes before
    /// it still belong to the section in progress.
    pub open spec fn step(self, p: Seq<u8>, services: Seq<u16>) -> EitState {
        if self.found is Some || !in_sync(p) || pid_of(p) != EIT_PID || payload_start(p) is None {
            self
        } else {
            let at = payload_start(p)->0;
            if starts_unit(p) {
                let first = at + 1 + p[at];
                let tail = p.subrange(
                    at + 1,
                    if first < PACKET_LEN {
                        first
                    } else {
                        PACKET_LEN as int
                    },
                );
                let ended = self.append(tail);
                if self.section.len() > 0 && ended.found is Some {
                    ended
                } else {
                    self.begin(p, first, services)
                }
            } else if self.section.len() > 0 {
                self.append(p.skip(at))
            } else {
                self
            }
        }
    }

    /// After several packets.
    pub open spec fn steps(self, packets: Seq<Seq<u8>>, services: Seq<u16>) -> EitState
        decreases packets.len(),
    {
        if packets.len() == 0 {
            self
        } else {
            self.steps(packets.drop_last(), services).step(packets.last(), services)
        }
    }

    /// A section in progress is not complete.
    pub open spec fn wf(self) -> bool {
        &&& self.found is None ==> self.section.len() < self.total || self.section.len() == 0
            && self.total == 0
        &&& self.found matches Some(s) ==> s.len() == self.total
    }
}

/// The section of the present programme in the first `n` packets of a stream.
pub open spec fn eit_after(ts: Seq<u8>, services: Seq<u16>, n: nat) -> EitState {
    EitState::start().steps(Seq::new(n, |i: int| packet_at(ts, i)), services)
}

/// A search for the section of the present programme, fed packet by packet.
pub struct EitScanner {
    section: Vec<u8>,
    total: usize,
    complete: bool,
}

impl View for EitScanner {
    type V = EitState;

    closed spec fn view(&self) -> EitState {
        EitState {
            section: self.section@,
            total: self.total as nat,
            found: if self.complete {
                Some(self.section@)
            } else {
                None
            },
        }
    }
}

impl EitScanner {
    pub fn new() -> (s: Self)
        ensures
            s@ == EitState::start(),
            s@.wf(),
    {
        EitScanner { section: Vec::new(), total: 0, complete: false }
    }

    pub fn is_complete(&self) -> (b: bool)
        ensures
            b == (self@.found is Some),
    {
        self.complete
    }

    /// The section, if it was found.
    pub fn into_section(self) -> (section: Option<Vec<u8>>)
        ensures
            match section {
                Some(s) => self@.found == Some(s@),
                None => self@.found is None,
            },
    {
        if self.complete {
            Some(self.section)
        } else {
            None
        }
    }

    fn append(&mut self, bytes: &[u8])
        requires
            old(self)@.found is None,
        ensures
            final(self)@ == old(self)@.append(bytes@),
    {
        let missing: usize = if self.section.len() < self.total {
            self.total - self.section.len()
        } else {
            0
        };
        let len: usize = if missing < bytes.len() {
            missing
        } else {
            bytes.len()
        };
        let taken = slice_subrange(bytes, 0, len);
        assert(taken@ =~= if missing < bytes@.len() {
            bytes@.take(missing as int)
        } else {
            bytes@
        });
        let mut more = slice_to_vec(taken);
        self.section.append(&mut more);
        self.complete = self.section.len() >= self.total;
    }

    fn begin(&mut self, p: &[u8], at: usize, services: &[u16])
        requires
            p@.len() == PACKET_LEN,
        ensures
            final(self)@ == old(self)@.begin(p@, at as int, services@),
    {
        self.section = Vec::new();
        self.total = 0;
        self.complete = false;
        assert(self@ == EitState::start());
        if at > PACKET_LEN - 8 {
            return;
        }
        if p[at] != PRESENT_TABLE || p[at + 1] < 0x80 {
            return;
        }
        let service: u16 = read_be16(p[at + 3], p[at + 4]);
        if services.len() > 0 && !lists(services, service) {
            return;
        }
        if p[at + 6] != 0 {
            return;
        }
        self.total = 3 + read_low12(p[at + 1], p[at + 2]);
        let rest = slice_subrange(p, at, PACKET_LEN);
        assert(rest@ =~= p@.skip(at as int));
        self.append(rest);
    }

    /// Takes the next packet.
    pub fn push_packet(&mut self, p: &[u8], services: &[u16])
        requires
            p@.len() == PACKET_LEN,
            old(self)@.wf(),
        ensures
            final(self)@ == old(self)@.step(p@, services@),
            final(self)@.wf(),
    {
        if self.complete || p[0] != SYNC_BYTE || read_pid(p) != EIT_PID {
            return;
        }
        let at: usize = match read_payload_start(p) {
            None => {
                return;
            },
            Some(at) => at,
        };
        if read_starts_unit(p) {
            let first: usize = at + 1 + p[at] as usize;
            if self.section.len() > 0 {
                let end: usize = if first < PACKET_LEN {
                    first
                } else {
                    PACKET_LEN
                };
                self.append(slice_subrange(p, at + 1, end));
                if self.complete {
                    return;
                }
            }
            self.begin(p, first, services);
        } else if self.section.len() > 0 {
            let rest = slice_subrange(p, at, PACKET_LEN);
            assert(rest@ =~= p@.skip(at as int));
            self.append(rest);
        }
    }
}

pub open spec fn min_nat(a: nat, b: nat) -> nat {
    if a < b {
        a
    } else {
        b
    }
}

/// Finds the section of the present programme among the first packets of a
/// stream.
pub fn scan_eit(ts: &[u8], service_ids: &[u16], max_packets: u32) -> (section: Option<Vec<u8>>)
    ensures
        match section {
            Some(s) => eit_after(
                ts@,
                service_ids@,
                min_nat(packet_count(ts@), max_packets as nat),
            ).found == Some(s@),
            None => eit_after(
                ts@,
                service_ids@,
                min_nat(packet_count(ts@), max_packets as nat),
            ).found is None,
        },
{
    let mut scanner = EitScanner::new();
    let available: usize = ts.len() / PACKET_LEN;
    let mut count: usize = available;
    if available as u64 > max_packets as u64 {
        count = max_packets as usize;
    }
    let mut i: usize = 0;
    assert(Seq::new(0, |k: int| packet_at(ts@, k)) =~= Seq::empty());
    while i < count && !scanner.is_complete()
        invariant
            i <= count <= packet_count(ts@),
            scanner@ == eit_after(ts@, service_ids@, i as nat),
            scanner@.wf(),
        decreases count - i,
    {
        scanner.push_packet(read_packet(ts, i), service_ids);
        proof {
            lemma_eit_after_next(ts@, service_ids@, i as nat);
        }
        i = i + 1;
    }
    proof {
        if scanner@.found is Some {
            found_section_stays(ts@, service_ids@, i as nat, count as nat);
        }
    }
    scanner.into_section()
}

proof fn lemma_eit_after_next(ts: Seq<u8>, services: Seq<u16>, n: nat)
    ensures
        eit_after(ts, services, n + 1) == eit_after(ts, services, n).step(
            packet_at(ts, n as int),
            services,
        ),
{
    let all = Seq::new(n + 1, |i: int| packet_at(ts, i));
    assert(all.drop_last() =~= Seq::new(n, |i: int| packet_at(ts, i)));
}

/// Once the section is found, nothing that follows changes it.
pub proof fn found_section_stays(ts: Seq<u8>, services: Seq<u16>, n: nat, m: nat)
    requires
        n <= m,
        eit_after(ts, services, n).found is Some,
    ensures
        eit_after(ts, services, m) == eit_after(ts, services, n),
    decreases m - n,
{
    if n < m {
        found_section_stays(ts, services, n, (m - 1) as nat);
        lemma_eit_after_next(ts, services, (m - 1) as nat);
    }
}

/// Whether bytes are a section of the present programme of one of the services, or
/// the start of one: the table, and its mark of a long section; and as far as they
/// go, the service, and the number of the section.
pub open spec fn starts_present_section(s: Seq<u8>, services: Seq<u16>) -> bool {
    &&& s.len() >= 3
    &&& s[0] == PRESENT_TABLE
    &&& s[1] >= 0x80
    &&& s.len() > 4 ==> services.len() == 0 || services.contains(be16(s[3], s[4]))
    &&& s.len() > 6 ==> s[6] == 0
}

/// What the search keeps: the bytes in hand belong to a section of the present
/// programme, and are no more than it has.
pub open spec fn keeps_present_section(state: EitState, services: Seq<u16>) -> bool {
    &&& state.section.len() > 0 ==> {
        &&& starts_present_section(state.section, services)
        &&& state.total == 3 + low12(state.section[1], state.section[2])
        &&& state.section.len() > 6 || state.section.len() == state.total
    }
    &&& state.section.len() <= state.total
    &&& state.found matches Some(s) ==> s == state.section && s.len() == state.total && s.len() > 0
    &&& state.wf()
}

proof fn lemma_begin_keeps(state: EitState, p: Seq<u8>, at: int, services: Seq<u16>)
    requires
        p.len() == PACKET_LEN,
        at >= 0,
    ensures
        keeps_present_section(state.begin(p, at, services), services),
{
    if at + 8 <= PACKET_LEN && is_present_section(p, at, services) {
        let bytes = p.skip(at);
        assert(bytes[0] == p[at]);
        assert(bytes[1] == p[at + 1]);
        assert(bytes[2] == p[at + 2]);
        assert(bytes[3] == p[at + 3]);
        assert(bytes[4] == p[at + 4]);
        assert(bytes[6] == p[at + 6]);
    }
}

proof fn lemma_append_keeps(state: EitState, bytes: Seq<u8>, services: Seq<u16>)
    requires
        keeps_present_section(state, services),
        state.section.len() > 0,
        state.found is None,
    ensures
        keeps_present_section(state.append(bytes), services),
{
}

/// What the search finds is a whole section, of its stated length, that describes
/// the present programme of one of the services asked for, or of any where none
/// is asked for.
pub proof fn found_section_is_the_present_one(all: Seq<Seq<u8>>, services: Seq<u16>)
    requires
        forall|i: int| 0 <= i < all.len() ==> (#[trigger] all[i]).len() == PACKET_LEN,
    ensures
        keeps_present_section(EitState::start().steps(all, services), services),
        EitState::start().steps(all, services).found matches Some(s) ==> {
            &&& s.len() >= 3
            &&& s[0] == PRESENT_TABLE
            &&& s.len() == 3 + low12(s[1], s[2])
            &&& starts_present_section(s, services)
        },
    decreases all.len(),
{
    if all.len() > 0 {
        let front = all.drop_last();
        assert(forall|i: int| 0 <= i < front.len() ==> #[trigger] front[i] == all[i]);
        found_section_is_the_present_one(front, services);
        let before = EitState::start().steps(front, services);
        let p = all.last();
        assert(p.len() == PACKET_LEN);
        if before.found is None && in_sync(p) && pid_of(p) == EIT_PID && payload_start(p) is Some {
            let at = payload_start(p)->0;
            if starts_unit(p) {
                let first = at + 1 + p[at];
                let tail = p.subrange(
                    at + 1,
                    if first < PACKET_LEN {
                        first
                    } else {
                        PACKET_LEN as int
                    },
                );
                if before.section.len() > 0 {
                    lemma_append_keeps(before, tail, services);
                }
                lemma_begin_keeps(before, p, first, services);
            } else if before.section.len() > 0 {
                lemma_append_keeps(before, p.skip(at), services);
            }
        }
    }
}

// ------------------------------------------------------------------ the answer

/// Programme information with what its title says.  An episode number from a
/// series descriptor counts before one in the title.
pub open spec fn filled(e: Epg) -> Epg {
    let parts = title_parts(e.title);
    Epg {
        series_title: parts.series,
        sub_title: parts.sub_title,
        episode_number: if e.episode_number is Some {
            e.episode_number
        } else {
            match parts.episode {
                Some(n) => Some(n as u16),
                None => None,
            }
        },
        ..e
    }
}

/// Fills in what the title says.
pub fn fill_series_episode(epg: EpgInfo) -> (r: EpgInfo)
    ensures
        r@ == filled(epg@),
{
    let mut r = epg;
    let (series, episode, sub) = extract_series_episode(r.title.as_str());
    r.series_title = series;
    r.sub_title = sub;
    if r.episode_number.is_none() {
        r.episode_number = episode;
    }
    r
}

/// A part of a file in which to look for programme information.
#[derive(Debug, Clone, Copy, PartialEq, Eq, Structural)]
pub struct EpgWindow {
    /// Where it starts, in bytes.
    pub offset: u64,
    /// How many packets it holds at most.
    pub max_packets: u32,
}

/// Where the window into a long file starts: a fifth into it, at the start of a
/// packet.  The first minutes of a recording often still describe the programme
/// before.
pub open spec fn middle_offset(file_size: int) -> int {
    file_size * 20 / 100 / 188 * 188
}

/// Files up to this size are read from their start alone.
pub const SHORT_FILE: u64 = 500_000;

pub const MIDDLE_PACKETS: u32 = 600_000;

pub const HEAD_PACKETS: u32 = 300_000;

/// The first window to look into.
pub fn first_epg_window(file_size: u64) -> (w: EpgWindow)
    requires
        file_size * 20 <= u64::MAX,
    ensures
        file_size > SHORT_FILE ==> w == (EpgWindow {
            offset: middle_offset(file_size as int) as u64,
            max_packets: MIDDLE_PACKETS,
        }),
        file_size > SHORT_FILE ==> 0 < w.offset < file_size && w.offset % 188 == 0,
        file_size <= SHORT_FILE ==> w == (EpgWindow { offset: 0, max_packets: HEAD_PACKETS }),
{
    if file_size > SHORT_FILE {
        EpgWindow { offset: file_size * 20 / 100 / 188 * 188, max_packets: MIDDLE_PACKETS }
    } else {
        EpgWindow { offset: 0, max_packets: HEAD_PACKETS }
    }
}

/// The window to look into after another gave nothing: after one into the
/// middle, the start of the file; after that, none.
pub fn next_epg_window(w: EpgWindow) -> (next: Option<EpgWindow>)
    ensures
        next == if w.offset > 0 {
            Some(EpgWindow { offset: 0, max_packets: HEAD_PACKETS })
        } else {
            None::<EpgWindow>
        },
{
    if w.offset > 0 {
        Some(EpgWindow { offset: 0, max_packets: HEAD_PACKETS })
    } else {
        None
    }
}

/// The programme information that a part of a stream holds.
pub open spec fn window_programme(ts: Seq<u8>, services: Seq<u16>, max_packets: nat) -> Option<Epg> {
    match eit_after(ts, services, min_nat(packet_count(ts), max_packets)).found {
        None => None,
        Some(section) => match eit_programme(section) {
            None => None,
            Some(e) => Some(filled(e)),
        },
    }
}

/// Looks for programme information in a part of a stream.
pub fn epg_in_window(ts: &[u8], caption_services: &[u16], max_packets: u32) -> (epg: Option<EpgInfo>)
    ensures
        epg_opt(epg) == window_programme(ts@, caption_services@, max_packets as nat),
{
    match scan_eit(ts, caption_services, max_packets) {
        None => None,
        Some(section) => match parse_eit_section(section.as_slice()) {
            None => None,
            Some(epg) => Some(fill_series_episode(epg)),
        },
    }
}

/// What is said of a programme of which nothing was found: no more than when
/// its file was last written to, in seconds since 1970.
pub fn unknown_epg(modified: Option<i64>) -> (epg: EpgInfo)
    ensures
        epg@ == (Epg { title: "(unknown)"@, air_datetime: epg.air_datetime, ..Epg::empty() }),
        match (modified, epg.air_datetime) {
            (Some(secs), Some(t)) => in_chrono_range(secs as int) && is_jst_of(t, secs as int),
            (Some(secs), None) => !in_chrono_range(secs as int),
            (None, time) => time is None,
        },
{
    let air_datetime = match modified {
        Some(secs) => chrono_local(secs, JST_OFFSET),
        None => None,
    };
    EpgInfo {
        title: "(unknown)".to_string(),
        series_title: String::new(),
        sub_title: None,
        episode_number: None,
        last_episode: None,
        series_name: None,
        air_datetime,
        detail: None,
    }
}

/// What a whole stream says of its programme: what the middle says, or else the
/// start.
pub open spec fn stream_programme(ts: Seq<u8>, services: Seq<u16>) -> Option<Epg> {
    let middle = window_programme(
        ts.skip(middle_offset(ts.len() as int)),
        services,
        MIDDLE_PACKETS as nat,
    );
    if ts.len() > SHORT_FILE && middle is Some {
        middle
    } else {
        window_programme(ts, services, HEAD_PACKETS as nat)
    }
}

/// The programme information of a stream, with `modified` for want of better.
pub fn extract_epg(ts: &[u8], caption_services: &[u16], modified: Option<i64>) -> (epg: EpgInfo)
    requires
        ts@.len() * 20 <= u64::MAX,
    ensures
        match stream_programme(ts@, caption_services@) {
            Some(e) => epg@ == e,
            None => {
                &&& epg@ == (Epg {
                    title: "(unknown)"@,
                    air_datetime: epg.air_datetime,
                    ..Epg::empty()
                })
                &&& match (modified, epg.air_datetime) {
                    (Some(secs), Some(t)) => in_chrono_range(secs as int) && is_jst_of(
                        t,
                        secs as int,
                    ),
                    (Some(secs), None) => !in_chrono_range(secs as int),
                    (None, time) => time is None,
                }
            },
        },
{
    let first = first_epg_window(ts.len() as u64);
    let from: usize = first.offset as usize;
    let window = slice_subrange(ts, from, ts.len());
    assert(window@ =~= ts@.skip(from as int));
    assert(ts@.skip(0) =~= ts@);
    if let Some(epg) = epg_in_window(window, caption_services, first.max_packets) {
        return epg;
    }
    if let Some(head) = next_epg_window(first) {
        if let Some(epg) = epg_in_window(ts, caption_services, head.max_packets) {
            return epg;
        }
    }
    unknown_epg(modified)
}

/// An episode number that a series descriptor gave is kept, whatever the title
/// says.
pub proof fn descriptor_episode_is_kept(e: Epg)
    requires
        e.episode_number is Some,
    ensures
        filled(e).episode_number == e.episode_number,
{
}

/// Filling in leaves alone what does not come from the title.
pub proof fn filling_keeps_the_rest(e: Epg)
    ensures
        filled(e).title == e.title,
        filled(e).last_episode == e.last_episode,
        filled(e).series_name == e.series_name,
        filled(e).air_datetime == e.air_datetime,
        filled(e).detail == e.detail,
        filled(filled(e)) == filled(e),
{
}

} // verus!
