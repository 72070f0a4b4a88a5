//! Programme tables: which services carry captions, and on which stream.
//!
//! The programme association table (PAT, on PID 0) names the programme map
//! table (PMT) of each service; each PMT lists the elementary streams.  A
//! caption stream is private data (type 6) with a data component descriptor
//! for ARIB captions.
use std::collections::HashMap;
use std::collections::HashSet;
use vstd::prelude::*;
use vstd::slice::slice_subrange;

use crate::ts::packet::{
    be16, in_sync, lists, low12, low13, packet_at, packet_count, payload_start, pid_of, read_be16,
    read_low12, read_low13, read_packet, read_payload_start, read_pid, read_starts_unit,
    starts_unit, PACKET_LEN, SYNC_BYTE,
};

verus! {

broadcast use vstd::std_specs::hash::group_hash_axioms;

/// How many packets are searched for the tables.
pub const PSI_PACKET_LIMIT: usize = 50_000;

/// The PID of the programme association table.
pub const PAT_PID: u16 = 0;

/// The stream type of private data, which captions are sent as.
pub const PRIVATE_STREAM: u8 = 0x06;

/// The tag of a data component descriptor.
pub const DATA_COMPONENT_TAG: u8 = 0xFD;

/// What the tables say about captions.
pub struct PsiInfo {
    /// The services that carry an ARIB caption stream; where there is none,
    /// those that carry any private stream.
    pub caption_services: Vec<u16>,
    /// The PID of the ARIB caption stream; where there is none, that of the
    /// first private stream.
    pub caption_pid: Option<u16>,
}

/// A table section while it is put together from packets.
pub ghost struct SectionModel {
    /// What has arrived.
    pub bytes: Seq<u8>,
    /// How long the section says it is.
    pub total: nat,
}

/// The section on one PID after a packet whose payload starts at `start`, or
/// nothing where the packet adds to no section.
pub open spec fn section_after(
    before: Option<SectionModel>,
    p: Seq<u8>,
    start: int,
) -> Option<SectionModel> {
    if starts_unit(p) {
        let first = start + 1 + p[start];
        if first + 3 > PACKET_LEN {
            None
        } else {
            let total = 3 + low12(p[first + 1], p[first + 2]);
            Some(
                SectionModel {
                    bytes: p.subrange(
                        first,
                        if first + total < PACKET_LEN {
                            first + total
                        } else {
                            PACKET_LEN as int
                        },
                    ),
                    total: total,
                },
            )
        }
    } else {
        match before {
            None => None,
            Some(s) => {
                let missing = if s.bytes.len() < s.total {
                    s.total - s.bytes.len()
                } else {
                    0
                };
                Some(
                    SectionModel {
                        bytes: s.bytes + p.subrange(
                            start,
                            if start + missing < PACKET_LEN {
                                start + missing
                            } else {
                                PACKET_LEN as int
                            },
                        ),
                        total: s.total,
                    },
                )
            },
        }
    }
}

/// Where the entries of a section end: its checksum, the last four bytes that
/// its length counts, is left out.
pub open spec fn entries_end(data: Seq<u8>) -> int {
    let stated = 3 + low12(data[1], data[2]);
    let len = if stated < data.len() {
        stated as int
    } else {
        data.len() as int
    };
    if len < 4 {
        0
    } else {
        len - 4
    }
}

/// The services by the PID of their PMT, after the entries of a PAT from `at` on.
pub open spec fn pat_services(services: Map<u16, u16>, data: Seq<u8>, at: int, end: int) -> Map<
    u16,
    u16,
>
    decreases if at < end { end - at } else { 0 },
{
    if at + 4 > end {
        services
    } else {
        let service = be16(data[at], data[at + 1]);
        let pmt = low13(data[at + 2], data[at + 3]);
        pat_services(
            if service == 0 {
                services
            } else {
                services.insert(pmt, service)
            },
            data,
            at + 4,
            end,
        )
    }
}

/// Whether the descriptors in `data[at..end]` include one for ARIB captions
/// (component 0x0008) or one-segment captions (0x0012).
pub open spec fn describes_captions(data: Seq<u8>, at: int, end: int) -> bool
    decreases if at < end { end - at } else { 0 },
{
    if at + 2 > end {
        false
    } else {
        let len = data[at + 1] as int;
        let component = be16(data[at + 2], data[at + 3]);
        ||| data[at] == DATA_COMPONENT_TAG && len >= 2 && at + 2 + len <= end && (component == 0x0008
            || component == 0x0012)
        ||| describes_captions(data, at + 2 + len, end)
    }
}

/// A private stream that a PMT lists.
#[derive(Debug, Clone, Copy, PartialEq, Eq, Structural)]
pub struct PrivateStream {
    pub pid: u16,
    /// Whether it is described as ARIB captions.
    pub captions: bool,
}

/// The private streams among the entries of a PMT from `at` on.
pub open spec fn private_streams(data: Seq<u8>, at: int, end: int) -> Seq<PrivateStream>
    decreases if at < end { end - at } else { 0 },
{
    if at + 5 > end {
        Seq::empty()
    } else {
        let info_end = at + 5 + low12(data[at + 3], data[at + 4]);
        let rest = private_streams(data, info_end, end);
        if data[at] == PRIVATE_STREAM {
            seq![
                PrivateStream {
                    pid: low13(data[at + 1], data[at + 2]),
                    captions: describes_captions(
                        data,
                        at + 5,
                        if info_end < end {
                            info_end
                        } else {
                            end
                        },
                    ),
                },
            ] + rest
        } else {
            rest
        }
    }
}

/// The private streams of a PMT section.
pub open spec fn pmt_streams(data: Seq<u8>) -> Seq<PrivateStream> {
    private_streams(data, 12 + low12(data[10], data[11]) as int, entries_end(data))
}

/// The PID of the first stream that is described as captions, or is not.
pub open spec fn first_pid(streams: Seq<PrivateStream>, captions: bool) -> Option<u16>
    decreases streams.len(),
{
    if streams.len() == 0 {
        None
    } else if streams[0].captions == captions {
        Some(streams[0].pid)
    } else {
        first_pid(streams.skip(1), captions)
    }
}

pub open spec fn or_else(a: Option<u16>, b: Option<u16>) -> Option<u16> {
    if a is Some {
        a
    } else {
        b
    }
}

pub open spec fn push_new(s: Seq<u16>, x: u16) -> Seq<u16> {
    if s.contains(x) {
        s
    } else {
        s.push(x)
    }
}

/// What a search for the tables has found so far.
pub ghost struct PsiState {
    /// The services by the PID of their PMT.
    pub services: Map<u16, u16>,
    /// The sections in progress, by PID.
    pub sections: Map<u16, SectionModel>,
    /// The PIDs whose PMT has been read.
    pub read: Set<u16>,
    pub caption_services: Seq<u16>,
    pub private_services: Seq<u16>,
    pub caption_pid: Option<u16>,
    pub private_pid: Option<u16>,
    /// Whether every PMT of the PAT has been read.
    pub finished: bool,
}

impl PsiState {
    pub open spec fn start() -> PsiState {
        PsiState {
            services: Map::empty(),
            sections: Map::empty(),
            read: Set::empty(),
            caption_services: Seq::empty(),
            private_services: Seq::empty(),
            caption_pid: None,
            private_pid: None,
            finished: false,
        }
    }

    /// The section in progress on a PID.
    pub open spec fn section(self, pid: u16) -> Option<SectionModel> {
        if self.sections.contains_key(pid) {
            Some(self.sections[pid])
        } else {
            None
        }
    }

    /// After a complete PAT.
    pub open spec fn read_pat(self, data: Seq<u8>) -> PsiState {
        if data.len() < 8 {
            self
        } else {
            PsiState {
                services: pat_services(self.services, data, 8, entries_end(data)),
                ..self
            }
        }
    }

    /// After a complete PMT, which counts once per PID.
    pub open spec fn read_pmt(self, pid: u16, data: Seq<u8>) -> PsiState {
        let read = self.read.insert(pid);
        if self.read.contains(pid) {
            self
        } else if data.len() < 12 {
            PsiState { read, ..self }
        } else {
            let streams = pmt_streams(data);
            let service = self.services[pid];
            let captions = first_pid(streams, true) is Some;
            let takes_caption = captions && !self.caption_services.contains(service);
            PsiState {
                read,
                caption_services: if takes_caption {
                    self.caption_services.push(service)
                } else {
                    self.caption_services
                },
                private_services: if !takes_caption && streams.len() > 0 {
                    push_new(self.private_services, service)
                } else {
                    self.private_services
                },
                caption_pid: or_else(self.caption_pid, first_pid(streams, true)),
                private_pid: or_else(self.private_pid, first_pid(streams, false)),
                finished: read.len() >= self.services.len(),
                ..self
            }
        }
    }

    /// After one packet.
    pub open spec fn step(self, p: Seq<u8>) -> PsiState {
        let pid = pid_of(p);
        if self.finished || !in_sync(p) || !(pid == PAT_PID || self.services.contains_key(pid))
            || payload_start(p) is None {
            self
        } else {
            match section_after(self.section(pid), p, payload_start(p)->0) {
                None => self,
                Some(section) => {
                    let next = PsiState { sections: self.sections.insert(pid, section), ..self };
                    if section.bytes.len() < section.total {
                        next
                    } else if pid == PAT_PID {
                        next.read_pat(section.bytes)
                    } else {
                        next.read_pmt(pid, section.bytes)
                    }
                },
            }
        }
    }

    /// After several packets.
    pub open spec fn steps(self, packets: Seq<Seq<u8>>) -> PsiState
        decreases packets.len(),
    {
        if packets.len() == 0 {
            self
        } else {
            self.steps(packets.drop_last()).step(packets.last())
        }
    }

    /// The services that the result names.
    pub open spec fn services_found(self) -> Seq<u16> {
        if self.caption_services.len() > 0 {
            self.caption_services
        } else {
            self.private_services
        }
    }

    /// The stream that the result names.
    pub open spec fn pid_found(self) -> Option<u16> {
        or_else(self.caption_pid, self.private_pid)
    }
}

/// What the first `n` packets of a stream say.
pub open spec fn psi_after(ts: Seq<u8>, n: nat) -> PsiState {
    PsiState::start().steps(Seq::new(n, |i: int| packet_at(ts, i)))
}

/// What the head of a stream says.
pub open spec fn psi_of(ts: Seq<u8>) -> PsiState {
    psi_after(
        ts,
        if packet_count(ts) < PSI_PACKET_LIMIT {
            packet_count(ts)
        } else {
            PSI_PACKET_LIMIT as nat
        },
    )
}

struct Section {
    bytes: Vec<u8>,
    total: usize,
}

impl View for Section {
    type V = SectionModel;

    closed spec fn view(&self) -> SectionModel {
        SectionModel { bytes: self.bytes@, total: self.total as nat }
    }
}

/// A search for the programme tables, fed packet by packet.
pub struct PsiScanner {
    services: HashMap<u16, u16>,
    sections: HashMap<u16, Section>,
    read: HashSet<u16>,
    caption_services: Vec<u16>,
    private_services: Vec<u16>,
    caption_pid: Option<u16>,
    private_pid: Option<u16>,
    finished: bool,
}

impl View for PsiScanner {
    type V = PsiState;

    closed spec fn view(&self) -> PsiState {
        PsiState {
            services: self.services@,
            sections: self.sections@.map_values(|s: Section| s@),
            read: self.read@,
            caption_services: self.caption_services@,
            private_services: self.private_services@,
            caption_pid: self.caption_pid,
            private_pid: self.private_pid,
            finished: self.finished,
        }
    }
}

impl PsiScanner {
    pub fn new() -> (s: Self)
        ensures
            s@ == PsiState::start(),
    {
        let s = PsiScanner {
            services: HashMap::new(),
            sections: HashMap::new(),
            read: HashSet::new(),
            caption_services: Vec::new(),
            private_services: Vec::new(),
            caption_pid: None,
            private_pid: None,
            finished: false,
        };
        assert(s@.sections =~= Map::<u16, SectionModel>::empty());
        s
    }

    /// Whether every PMT has been read, so that further packets change nothing.
    pub fn is_finished(&self) -> (b: bool)
        ensures
            b == self@.finished,
    {
        self.finished
    }

    /// What has been found.
    pub fn into_info(self) -> (info: PsiInfo)
        ensures
            info.caption_services@ == self@.services_found(),
            info.caption_pid == self@.pid_found(),
    {
        let caption_services = if self.caption_services.len() > 0 {
            self.caption_services
        } else {
            self.private_services
        };
        let caption_pid = match self.caption_pid {
            Some(pid) => Some(pid),
            None => self.private_pid,
        };
        PsiInfo { caption_services, caption_pid }
    }

    /// Takes the next packet.
    pub fn push_packet(&mut self, p: &[u8])
        requires
            p@.len() == PACKET_LEN,
        ensures
            final(self)@ == old(self)@.step(p@),
    {
        if self.finished || p[0] != SYNC_BYTE {
            return;
        }
        let pid: u16 = read_pid(p);
        if pid != PAT_PID && !self.services.contains_key(&pid) {
            return;
        }
        let start: usize = match read_payload_start(p) {
            None => {
                return;
            },
            Some(s) => s,
        };
        let ghost before = self@;
        let section = match self.next_section(pid, p, start) {
            None => {
                return;
            },
            Some(s) => s,
        };
        let complete = section.bytes.len() >= section.total;
        let mut data: Vec<u8> = Vec::new();
        if complete {
            data = copy_bytes(section.bytes.as_slice());
        }
        let ghost model = section@;
        let ghost held = self.sections@;
        self.sections.insert(pid, section);
        proof {
            assert(self.sections@.map_values(|s: Section| s@) =~= held.map_values(
                |s: Section| s@,
            ).insert(pid, model));
            assert(self@ == PsiState { sections: before.sections.insert(pid, model), ..before });
        }
        if !complete {
            return;
        }
        if pid == PAT_PID {
            self.read_pat(data.as_slice());
        } else {
            self.read_pmt(pid, data.as_slice());
        }
    }

    /// The section on a PID after a packet.
    fn next_section(&self, pid: u16, p: &[u8], start: usize) -> (section: Option<Section>)
        requires
            p@.len() == PACKET_LEN,
            payload_start(p@) == Some(start as int),
            4 <= start < PACKET_LEN,
        ensures
            match section {
                None => section_after(self@.section(pid), p@, start as int) is None,
                Some(s) => section_after(self@.section(pid), p@, start as int) == Some(s@),
            },
    {
        if read_starts_unit(p) {
            let first: usize = start + 1 + p[start] as usize;
            if first + 3 > PACKET_LEN {
                return None;
            }
            let total: usize = 3 + read_low12(p[first + 1], p[first + 2]);
            let end: usize = if first + total < PACKET_LEN {
                first + total
            } else {
                PACKET_LEN
            };
            Some(Section { bytes: copy_bytes(slice_subrange(p, first, end)), total })
        } else {
            match self.sections.get(&pid) {
                None => None,
                Some(s) => {
                    let missing: usize = if s.bytes.len() < s.total {
                        s.total - s.bytes.len()
                    } else {
                        0
                    };
                    let end: usize = if missing < PACKET_LEN - start {
                        start + missing
                    } else {
                        PACKET_LEN
                    };
                    let mut bytes = copy_bytes(s.bytes.as_slice());
                    let mut more = copy_bytes(slice_subrange(p, start, end));
                    bytes.append(&mut more);
                    Some(Section { bytes, total: s.total })
                },
            }
        }
    }

    fn read_pat(&mut self, data: &[u8])
        ensures
            final(self)@ == old(self)@.read_pat(data@),
    {
        if data.len() < 8 {
            return;
        }
        let end: usize = read_entries_end(data);
        let mut at: usize = 8;
        let ghost before = self@;
        while at + 4 <= end
            invariant
                8 <= at,
                end <= data@.len(),
                end <= 0x2000,
                at <= 0x2000,
                pat_services(self.services@, data@, at as int, end as int) == pat_services(
                    before.services,
                    data@,
                    8,
                    end as int,
                ),
                self@ == (PsiState { services: self.services@, ..before }),
            decreases end - at,
        {
            let service: u16 = read_be16(data[at], data[at + 1]);
            let pmt: u16 = read_low13(data[at + 2], data[at + 3]);
            if service != 0 {
                self.services.insert(pmt, service);
            }
            at = at + 4;
        }
    }

    fn read_pmt(&mut self, pid: u16, data: &[u8])
        requires
            old(self)@.services.contains_key(pid),
        ensures
            final(self)@ == old(self)@.read_pmt(pid, data@),
    {
        if self.read.contains(&pid) {
            return;
        }
        self.read.insert(pid);
        if data.len() < 12 {
            return;
        }
        let service: u16 = *self.services.get(&pid).unwrap();
        let end: usize = read_entries_end(data);
        let streams = read_private_streams(data, 12 + read_low12(data[10], data[11]), end);
        let caption_pid = find_pid(streams.as_slice(), true);
        let private_pid = find_pid(streams.as_slice(), false);
        if caption_pid.is_some() && !lists(self.caption_services.as_slice(), service) {
            self.caption_services.push(service);
        } else if streams.len() > 0 && !lists(self.private_services.as_slice(), service) {
            self.private_services.push(service);
        }
        if self.caption_pid.is_none() {
            self.caption_pid = caption_pid;
        }
        if self.private_pid.is_none() {
            self.private_pid = private_pid;
        }
        self.finished = self.read.len() >= self.services.len();
    }
}

fn copy_bytes(bytes: &[u8]) -> (v: Vec<u8>)
    ensures
        v@ == bytes@,
{
    vstd::slice::slice_to_vec(bytes)
}

fn read_entries_end(data: &[u8]) -> (end: usize)
    requires
        data@.len() >= 3,
    ensures
        end == entries_end(data@),
        end <= data@.len(),
        end <= 0x1000,
{
    let stated: usize = 3 + read_low12(data[1], data[2]);
    let len: usize = if stated < data.len() {
        stated
    } else {
        data.len()
    };
    if len < 4 {
        0
    } else {
        len - 4
    }
}

fn read_describes_captions(data: &[u8], start: usize, end: usize) -> (b: bool)
    requires
        end <= data@.len(),
        start <= 0x4000,
    ensures
        b == describes_captions(data@, start as int, end as int),
{
    let mut at: usize = start;
    while at < end && 2 <= end - at
        invariant
            end <= data@.len(),
            describes_captions(data@, start as int, end as int) == describes_captions(
                data@,
                at as int,
                end as int,
            ),
        decreases end - at,
    {
        let len: usize = data[at + 1] as usize;
        let room: usize = end - at - 2;
        if data[at] == DATA_COMPONENT_TAG && len >= 2 && len <= room {
            let component: u16 = read_be16(data[at + 2], data[at + 3]);
            if component == 0x0008 || component == 0x0012 {
                return true;
            }
        }
        if len > room {
            assert(!describes_captions(data@, at + 2 + len, end as int));
            return false;
        }
        at = at + 2 + len;
    }
    false
}

fn read_private_streams(data: &[u8], start: usize, end: usize) -> (streams: Vec<PrivateStream>)
    requires
        end <= data@.len(),
        end <= 0x2000,
        start <= 0x2000,
    ensures
        streams@ == private_streams(data@, start as int, end as int),
{
    let mut streams: Vec<PrivateStream> = Vec::new();
    let mut at: usize = start;
    while at + 5 <= end
        invariant
            end <= data@.len(),
            end <= 0x2000,
            at <= 0x4000,
            streams@ + private_streams(data@, at as int, end as int) == private_streams(
                data@,
                start as int,
                end as int,
            ),
        decreases 0x4000 - at,
    {
        let info_end: usize = at + 5 + read_low12(data[at + 3], data[at + 4]);
        if data[at] == PRIVATE_STREAM {
            let stop: usize = if info_end < end {
                info_end
            } else {
                end
            };
            let pid: u16 = read_low13(data[at + 1], data[at + 2]);
            let captions = read_describes_captions(data, at + 5, stop);
            let ghost rest = private_streams(data@, info_end as int, end as int);
            let stream = PrivateStream { pid, captions };
            assert(streams@.push(stream) + rest =~= streams@ + (seq![stream] + rest));
            streams.push(stream);
        }
        at = info_end;
    }
    assert(streams@ + Seq::<PrivateStream>::empty() =~= streams@);
    streams
}

fn find_pid(streams: &[PrivateStream], captions: bool) -> (pid: Option<u16>)
    ensures
        pid == first_pid(streams@, captions),
{
    let mut i: usize = 0;
    assert(streams@.skip(0) =~= streams@);
    while i < streams.len()
        invariant
            i <= streams@.len(),
            first_pid(streams@.skip(i as int), captions) == first_pid(streams@, captions),
        decreases streams@.len() - i,
    {
        let stream = streams[i];
        if stream.captions == captions {
            return Some(stream.pid);
        }
        assert(streams@.skip(i as int).skip(1) =~= streams@.skip(i + 1));
        i = i + 1;
    }
    None
}

/// Reads the programme tables at the head of a stream.
pub fn scan_psi(ts: &[u8]) -> (info: PsiInfo)
    ensures
        info.caption_services@ == psi_of(ts@).services_found(),
        info.caption_pid == psi_of(ts@).pid_found(),
{
    let mut scanner = PsiScanner::new();
    let mut i: usize = 0;
    let available: usize = ts.len() / PACKET_LEN;
    let count: usize = if available < PSI_PACKET_LIMIT {
        available
    } else {
        PSI_PACKET_LIMIT
    };
    assert(Seq::new(0, |k: int| packet_at(ts@, k)) =~= Seq::empty());
    while i < count && !scanner.is_finished()
        invariant
            i <= count <= packet_count(ts@),
            scanner@ == psi_after(ts@, i as nat),
        decreases count - i,
    {
        scanner.push_packet(read_packet(ts, i));
        proof {
            lemma_psi_after_next(ts@, i as nat);
        }
        i = i + 1;
    }
    proof {
        if scanner@.finished {
            lemma_finished_stays(ts@, i as nat, count as nat);
        }
    }
    scanner.into_info()
}

/// The PID of the caption stream.
pub fn find_caption_pid(ts: &[u8]) -> (pid: Option<u16>)
    ensures
        pid == psi_of(ts@).pid_found(),
{
    scan_psi(ts).caption_pid
}

proof fn lemma_psi_after_next(ts: Seq<u8>, n: nat)
    ensures
        psi_after(ts, n + 1) == psi_after(ts, n).step(packet_at(ts, n as int)),
{
    let all = Seq::new(n + 1, |i: int| packet_at(ts, i));
    assert(all.drop_last() =~= Seq::new(n, |i: int| packet_at(ts, i)));
}

/// Once every PMT has been read, nothing that follows changes the result.
pub proof fn lemma_finished_stays(ts: Seq<u8>, n: nat, m: nat)
    requires
        n <= m,
        psi_after(ts, n).finished,
    ensures
        psi_after(ts, m) == psi_after(ts, n),
    decreases m - n,
{
    if n < m {
        lemma_finished_stays(ts, n, (m - 1) as nat);
        lemma_psi_after_next(ts, (m - 1) as nat);
    }
}

/// A packet out of sync, without a payload, or of a stream that is neither the PAT
/// nor a PMT, changes nothing.
pub proof fn other_packets_are_ignored(state: PsiState, p: Seq<u8>)
    requires
        !in_sync(p) || payload_start(p) is None || (pid_of(p) != PAT_PID && !state.services.contains_key(pid_of(p))),
    ensures
        state.step(p) == state,
{
}

/// No service is named twice.
pub proof fn services_are_distinct(all: Seq<Seq<u8>>)
    ensures
        PsiState::start().steps(all).caption_services.no_duplicates(),
        PsiState::start().steps(all).private_services.no_duplicates(),
        PsiState::start().steps(all).services_found().no_duplicates(),
    decreases all.len(),
{
    if all.len() > 0 {
        services_are_distinct(all.drop_last());
    }
}

proof fn lemma_first_pid(data: Seq<u8>, at: int, end: int, captions: bool)
    ensures
        first_pid(private_streams(data, at, end), captions) matches Some(pid) ==> pid < 0x2000,
    decreases if at < end { end - at } else { 0 },
{
    if at + 5 <= end {
        let info_end = at + 5 + low12(data[at + 3], data[at + 4]);
        let rest = private_streams(data, info_end, end);
        lemma_first_pid(data, info_end, end, captions);
        if data[at] == PRIVATE_STREAM {
            let streams = private_streams(data, at, end);
            assert(streams.skip(1) =~= rest);
        }
    }
}

/// The stream found has a PID of 13 bits.
pub proof fn found_pid_has_13_bits(all: Seq<Seq<u8>>)
    ensures
        PsiState::start().steps(all).caption_pid matches Some(pid) ==> pid < 0x2000,
        PsiState::start().steps(all).private_pid matches Some(pid) ==> pid < 0x2000,
        PsiState::start().steps(all).pid_found() matches Some(pid) ==> pid < 0x2000,
    decreases all.len(),
{
    if all.len() > 0 {
        found_pid_has_13_bits(all.drop_last());
        let before = PsiState::start().steps(all.drop_last());
        let p = all.last();
        let pid = pid_of(p);
        if payload_start(p) is Some {
            let section = section_after(before.section(pid), p, payload_start(p)->0);
            if section is Some {
                let data = section->0.bytes;
                lemma_first_pid(data, 12 + low12(data[10], data[11]) as int, entries_end(data), true);
                lemma_first_pid(data, 12 + low12(data[10], data[11]) as int, entries_end(data), false);
            }
        }
    }
}

/// The first fifty thousand packets are searched, and no more.
pub proof fn the_head_of_a_stream_is_searched(ts: Seq<u8>)
    ensures
        packet_count(ts) <= 50_000 ==> psi_of(ts) == psi_after(ts, packet_count(ts)),
        packet_count(ts) > 50_000 ==> psi_of(ts) == psi_after(ts, 50_000),
{
}

/// A PMT counts once: what comes again on its PID changes nothing.
pub proof fn a_pmt_counts_once(state: PsiState, pid: u16, data: Seq<u8>, again: Seq<u8>)
    ensures
        state.read_pmt(pid, data).read_pmt(pid, again) == state.read_pmt(pid, data),
        state.read_pmt(pid, data).read == state.read.insert(pid),
        state.read_pmt(pid, data).services == state.services,
{
    if state.read.contains(pid) {
        assert(state.read.insert(pid) =~= state.read);
    }
}

/// The search is over exactly when every PMT of the PAT has been read.
pub proof fn the_search_ends_with_the_last_pmt(state: PsiState, pid: u16, data: Seq<u8>)
    requires
        state.services.dom().finite(),
        state.services.contains_key(pid),
        state.read.subset_of(state.services.dom()),
        !state.read.contains(pid),
        data.len() >= 12,
    ensures
        state.read_pmt(pid, data).finished <==> forall|other: u16|
            #[trigger] state.services.contains_key(other) ==> other == pid || state.read.contains(
                other,
            ),
{
    let all = state.services.dom();
    let read = state.read.insert(pid);
    assert(read.subset_of(all));
    vstd::set_lib::lemma_len_subset(read, all);
    if read.len() >= all.len() {
        vstd::set_lib::lemma_subset_equality(read, all);
        assert forall|other: u16| #[trigger] state.services.contains_key(other) implies other == pid
            || state.read.contains(other) by {
            assert(read.contains(other));
        }
    }
    if forall|other: u16| #[trigger]
        state.services.contains_key(other) ==> other == pid || state.read.contains(other) {
        assert forall|other: u16| all.contains(other) implies read.contains(other) by {
            assert(state.services.contains_key(other));
        }
        assert(read =~= all);
    }
}

/// What was found stays: further services come behind, and the first stream of its kind
/// is kept.
pub proof fn what_was_found_stays(state: PsiState, pid: u16, data: Seq<u8>)
    ensures
        state.caption_services.is_prefix_of(state.read_pmt(pid, data).caption_services),
        state.private_services.is_prefix_of(state.read_pmt(pid, data).private_services),
        state.caption_pid is Some ==> state.read_pmt(pid, data).caption_pid == state.caption_pid,
        state.private_pid is Some ==> state.read_pmt(pid, data).private_pid == state.private_pid,
{
}

} // verus!
