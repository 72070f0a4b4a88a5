//! Caption packets: taking the caption stream out of a transport stream, and
//! keeping it in a small file.
use vstd::bytes::{
    lemma_auto_spec_u64_to_from_le_bytes, spec_u64_from_le_bytes, spec_u64_to_le_bytes,
};
use vstd::prelude::*;
use vstd::slice::{slice_subrange, slice_to_vec};

use crate::ts::packet::{
    adaptation_control, be16, in_sync, packet_count, packets, payload_start, pid_of, read_be16, read_packet,
    read_payload_start, read_pid, read_starts_unit, starts_unit, written_packet_is_read, PacketForm,
    PACKET_LEN, SYNC_BYTE,
};
use crate::ts::pts::{
    div_toward_zero, plausible_step, steps_move_the_timeline, wrapped_clock_is_recovered,
    PtsNormalizer, PtsState, PTS_WRAP,
};
use crate::ts::table_form::goes_on;

pub use crate::ts::psi::{find_caption_pid, scan_psi, PsiInfo};

verus! {

/// One PES packet of the caption stream.
#[derive(Debug)]
pub struct CaptionPes {
    /// Milliseconds since the first timestamp of the stream.
    pub pts_ms: i64,
    /// The payload, from its data identifier on.
    pub payload: Vec<u8>,
}

/// What a caption packet says.
pub ghost struct PesUnit {
    pub pts_ms: i64,
    pub payload: Seq<u8>,
}

impl View for CaptionPes {
    type V = PesUnit;

    open spec fn view(&self) -> PesUnit {
        PesUnit { pts_ms: self.pts_ms, payload: self.payload@ }
    }
}

pub open spec fn units_of(pes: Seq<CaptionPes>) -> Seq<PesUnit> {
    pes.map_values(|p: CaptionPes| p@)
}

// ---------------------------------------------------------------- PES headers

/// The 33 bits of a timestamp field: three, fifteen and fifteen bits, each
/// followed by a marker bit.
pub open spec fn pts_field(p: Seq<u8>) -> int {
    ((p[0] / 2) % 8) * 0x4000_0000 + p[1] * 0x40_0000 + (p[2] / 2) * 0x8000 + p[3] * 0x80 + p[4] / 2
}

/// Decodes the timestamp field of a PES header.
pub fn parse_pts(p: &[u8]) -> (pts: u64)
    requires
        p@.len() >= 5,
    ensures
        pts == pts_field(p@),
        pts < 0x2_0000_0000,
{
    let b0: u64 = p[0] as u64;
    let b1: u64 = p[1] as u64;
    let b2: u64 = p[2] as u64;
    let b3: u64 = p[3] as u64;
    let b4: u64 = p[4] as u64;
    let pts: u64 = ((b0 & 0x0E) << 29) | (b1 << 22) | ((b2 & 0xFE) << 14) | (b3 << 7) | (b4 >> 1);
    assert(((b0 & 0x0E) << 29) | (b1 << 22) | ((b2 & 0xFE) << 14) | (b3 << 7) | (b4 >> 1) == ((b0
        / 2) % 8) * 0x4000_0000 + b1 * 0x40_0000 + (b2 / 2) * 0x8000 + b3 * 0x80 + b4 / 2)
        by (bit_vector)
        requires
            b0 < 256,
            b1 < 256,
            b2 < 256,
            b3 < 256,
            b4 < 256,
    ;
    pts
}

/// What follows the header of a PES packet: nine bytes, the last of which says
/// how many more belong to the header.
pub open spec fn pes_payload(pes: Seq<u8>) -> Seq<u8> {
    if pes.len() < 9 || 9 + pes[8] >= pes.len() {
        Seq::empty()
    } else {
        pes.skip(9 + pes[8] as int)
    }
}

/// The payload of a PES packet; nothing where the header fills it.
pub fn extract_pes_payload(pes: &[u8]) -> (payload: Vec<u8>)
    ensures
        payload@ == pes_payload(pes@),
{
    if pes.len() < 9 {
        return Vec::new();
    }
    let header: usize = 9 + pes[8] as usize;
    if header >= pes.len() {
        return Vec::new();
    }
    slice_to_vec(slice_subrange(pes, header, pes.len()))
}

// -------------------------------------------------------------- demultiplexing

/// A caption stream while it is put together from packets.
pub ghost struct DemuxState {
    /// The PID of the stream.
    pub pid: u16,
    /// The PES packet in progress.
    pub pes: Seq<u8>,
    /// Its length, or 0 where it is not bounded.
    pub total: nat,
    /// Its raw timestamp.
    pub raw_pts: Option<u64>,
    pub clock: PtsState,
    /// The packets put together so far.
    pub units: Seq<PesUnit>,
}

impl DemuxState {
    pub open spec fn start(pid: u16) -> DemuxState {
        DemuxState {
            pid,
            pes: Seq::empty(),
            total: 0,
            raw_pts: None,
            clock: PtsState::start(),
            units: Seq::empty(),
        }
    }

    /// After the end of the PES packet in progress.  One without a timestamp
    /// is dropped; one without a payload only moves the clock.
    pub open spec fn flush(self) -> DemuxState {
        match self.raw_pts {
            Some(raw) if self.pes.len() > 0 => {
                let clock = self.clock.push(raw as int);
                let payload = pes_payload(self.pes);
                DemuxState {
                    clock,
                    units: if payload.len() > 0 {
                        self.units.push(PesUnit { pts_ms: clock.ms() as i64, payload })
                    } else {
                        self.units
                    },
                    ..self
                }
            },
            _ => self,
        }
    }

    /// After the first packet of a PES packet, whose payload starts at `at`.
    pub open spec fn begin(self, p: Seq<u8>, at: int) -> DemuxState {
        let room = PACKET_LEN - at;
        if room < 9 {
            DemuxState { pes: Seq::empty(), total: 0, raw_pts: None, ..self }
        } else {
            let stated = be16(p[at + 4], p[at + 5]);
            let total: nat = if stated == 0 {
                0
            } else {
                6 + stated as nat
            };
            DemuxState {
                pes: p.subrange(
                    at,
                    if 0 < total < room {
                        at + total
                    } else {
                        PACKET_LEN as int
                    },
                ),
                total,
                raw_pts: if p[at + 7] / 64 != 0 && room >= 14 {
                    Some(pts_field(p.skip(at + 9)) as u64)
                } else {
                    None
                },
                ..self
            }
        }
    }

    /// After a further packet of a PES packet.
    pub open spec fn extend(self, p: Seq<u8>, at: int) -> DemuxState {
        let missing = if self.total <= self.pes.len() {
            0
        } else {
            self.total - self.pes.len()
        };
        if self.pes.len() == 0 {
            self
        } else {
            DemuxState {
                pes: self.pes + p.subrange(
                    at,
                    if self.total > 0 && at + missing < PACKET_LEN {
                        at + missing
                    } else {
                        PACKET_LEN as int
                    },
                ),
                ..self
            }
        }
    }

    /// After one packet.
    pub open spec fn step(self, p: Seq<u8>) -> DemuxState {
        if !in_sync(p) || pid_of(p) != self.pid || payload_start(p) is None {
            self
        } else if starts_unit(p) {
            self.flush().begin(p, payload_start(p)->0)
        } else {
            self.extend(p, payload_start(p)->0)
        }
    }

    /// After several packets.
    pub open spec fn steps(self, packets: Seq<Seq<u8>>) -> DemuxState
        decreases packets.len(),
    {
        if packets.len() == 0 {
            self
        } else {
            self.steps(packets.drop_last()).step(packets.last())
        }
    }
}

/// The caption packets of a whole stream.
pub open spec fn caption_units(ts: Seq<u8>, pid: u16) -> Seq<PesUnit> {
    DemuxState::start(pid).steps(packets(ts)).flush().units
}

/// Takes one stream out of a transport stream, packet by packet.
pub struct CaptionDemuxer {
    pid: u16,
    pes: Vec<u8>,
    total: usize,
    raw_pts: Option<u64>,
    clock: PtsNormalizer,
    units: Vec<CaptionPes>,
}

impl View for CaptionDemuxer {
    type V = DemuxState;

    closed spec fn view(&self) -> DemuxState {
        DemuxState {
            pid: self.pid,
            pes: self.pes@,
            total: self.total as nat,
            raw_pts: self.raw_pts,
            clock: self.clock@,
            units: units_of(self.units@),
        }
    }
}

impl CaptionDemuxer {
    pub fn new(caption_pid: u16) -> (d: Self)
        ensures
            d@ == DemuxState::start(caption_pid),
    {
        let d = CaptionDemuxer {
            pid: caption_pid,
            pes: Vec::new(),
            total: 0,
            raw_pts: None,
            clock: PtsNormalizer::new(),
            units: Vec::new(),
        };
        assert(d@.units =~= Seq::<PesUnit>::empty());
        d
    }

    /// How often the timestamps have jumped.
    pub fn discontinuities(&self) -> (n: u32)
        ensures
            n == self@.clock.discontinuities,
    {
        self.clock.discontinuities()
    }

    fn flush(&mut self)
        requires
            old(self)@.flush().clock.discontinuities <= u32::MAX,
        ensures
            final(self)@ == old(self)@.flush(),
    {
        let raw: u64 = match self.raw_pts {
            None => {
                return;
            },
            Some(raw) => raw,
        };
        if self.pes.len() == 0 {
            return;
        }
        let sample = self.clock.push(raw);
        let payload = extract_pes_payload(self.pes.as_slice());
        if payload.len() > 0 {
            let ghost before = self.units@;
            let unit = CaptionPes { pts_ms: sample.ms, payload };
            let ghost model = unit@;
            self.units.push(unit);
            assert(units_of(self.units@) =~= units_of(before).push(model));
        }
    }

    /// Takes the next packet of the transport stream.
    pub fn push_packet(&mut self, p: &[u8])
        requires
            p@.len() == PACKET_LEN,
            old(self)@.step(p@).clock.discontinuities <= u32::MAX,
        ensures
            final(self)@ == old(self)@.step(p@),
    {
        if p[0] != SYNC_BYTE || read_pid(p) != self.pid {
            return;
        }
        let at: usize = match read_payload_start(p) {
            None => {
                return;
            },
            Some(at) => at,
        };
        let room: usize = PACKET_LEN - at;
        if read_starts_unit(p) {
            self.flush();
            self.pes = Vec::new();
            self.total = 0;
            self.raw_pts = None;
            if room < 9 {
                return;
            }
            let stated: usize = read_be16(p[at + 4], p[at + 5]) as usize;
            self.total = if stated == 0 {
                0
            } else {
                6 + stated
            };
            let flags: u8 = p[at + 7];
            assert((flags >> 6) & 0x03 == flags / 64) by (bit_vector);
            if (flags >> 6) & 0x03 != 0 && room >= 14 {
                let field = slice_subrange(p, at + 9, PACKET_LEN);
                assert(field@ =~= p@.skip(at + 9));
                self.raw_pts = Some(parse_pts(field));
            }
            let end: usize = if 0 < self.total && self.total < room {
                at + self.total
            } else {
                PACKET_LEN
            };
            self.pes = slice_to_vec(slice_subrange(p, at, end));
        } else {
            if self.pes.len() == 0 {
                return;
            }
            let missing: usize = if self.total <= self.pes.len() {
                0
            } else {
                self.total - self.pes.len()
            };
            let end: usize = if self.total > 0 && missing < room {
                at + missing
            } else {
                PACKET_LEN
            };
            let mut more = slice_to_vec(slice_subrange(p, at, end));
            self.pes.append(&mut more);
        }
    }

    /// The caption packets, the last one included.
    pub fn finish(self) -> (units: Vec<CaptionPes>)
        requires
            self@.flush().clock.discontinuities <= u32::MAX,
        ensures
            units_of(units@) == self@.flush().units,
    {
        let mut last = self;
        last.flush();
        last.units
    }
}

/// The caption packets of a transport stream, in stream order, timed from the
/// first timestamp.
pub fn demux_caption_pes(ts: &[u8], caption_pid: u16) -> (units: Vec<CaptionPes>)
    requires
        DemuxState::start(caption_pid).steps(packets(ts@)).flush().clock.discontinuities
            <= u32::MAX,
    ensures
        units_of(units@) == caption_units(ts@, caption_pid),
{
    let mut demuxer = CaptionDemuxer::new(caption_pid);
    let count: usize = ts.len() / PACKET_LEN;
    let mut i: usize = 0;
    let ghost start = DemuxState::start(caption_pid);
    assert(packets(ts@).take(0) =~= Seq::empty());
    while i < count
        invariant
            i <= count,
            count == packet_count(ts@),
            demuxer@ == start.steps(packets(ts@).take(i as int)),
            start.steps(packets(ts@)).flush().clock.discontinuities <= u32::MAX,
        decreases count - i,
    {
        proof {
            assert(packets(ts@).take(i + 1).drop_last() =~= packets(ts@).take(i as int));
            lemma_discontinuities_grow(start, packets(ts@), i + 1);
        }
        demuxer.push_packet(read_packet(ts, i));
        i = i + 1;
    }
    assert(packets(ts@).take(count as int) =~= packets(ts@));
    demuxer.finish()
}

proof fn lemma_discontinuities_grow(start: DemuxState, all: Seq<Seq<u8>>, n: int)
    requires
        0 <= n <= all.len(),
    ensures
        start.steps(all.take(n)).clock.discontinuities <= start.steps(
            all,
        ).flush().clock.discontinuities,
        start.steps(all.take(n)).clock.discontinuities <= start.steps(all).clock.discontinuities,
    decreases all.len() - n,
{
    if n < all.len() {
        lemma_discontinuities_grow(start, all, n + 1);
        assert(all.take(n + 1).drop_last() =~= all.take(n));
    } else {
        assert(all.take(n) =~= all);
    }
}

/// There are no more discontinuities than packets, so that a stream of fewer than
/// 2^32 packets can always be taken apart.
pub proof fn discontinuities_are_no_more_than_packets(pid: u16, all: Seq<Seq<u8>>)
    ensures
        DemuxState::start(pid).steps(all).flush().clock.discontinuities <= all.len(),
        DemuxState::start(pid).steps(all).raw_pts is None ==> DemuxState::start(pid).steps(
            all,
        ).clock.discontinuities <= all.len(),
        DemuxState::start(pid).steps(all).raw_pts is Some ==> DemuxState::start(pid).steps(
            all,
        ).clock.discontinuities + 1 <= all.len(),
    decreases all.len(),
{
    if all.len() > 0 {
        discontinuities_are_no_more_than_packets(pid, all.drop_last());
    }
}

/// Whether a packet carries bytes of a stream: it is in sync, is of that stream, and
/// has a payload.
pub open spec fn carries(pid: u16, p: Seq<u8>) -> bool {
    in_sync(p) && pid_of(p) == pid && payload_start(p) is Some
}

/// Packets of other streams, packets out of sync, and packets without a payload
/// change nothing: the result is that of the packets that carry the stream alone.
pub proof fn other_packets_are_ignored(pid: u16, all: Seq<Seq<u8>>)
    ensures
        DemuxState::start(pid).steps(all) == DemuxState::start(pid).steps(
            all.filter(|p: Seq<u8>| carries(pid, p)),
        ),
        DemuxState::start(pid).steps(all).pid == pid,
    decreases all.len(),
{
    let own = |p: Seq<u8>| carries(pid, p);
    reveal(Seq::filter);
    if all.len() > 0 {
        other_packets_are_ignored(pid, all.drop_last());
        let kept = all.drop_last().filter(own);
        if own(all.last()) {
            assert(kept.push(all.last()).drop_last() =~= kept);
        }
    }
}

/// Two streams with the same packets of a caption stream have the same captions,
/// whatever else stands between those packets.
pub proof fn inserted_packets_change_nothing(a: Seq<u8>, b: Seq<u8>, pid: u16)
    requires
        packets(a).filter(|p: Seq<u8>| carries(pid, p)) == packets(b).filter(
            |p: Seq<u8>| carries(pid, p),
        ),
    ensures
        caption_units(a, pid) == caption_units(b, pid),
        DemuxState::start(pid).steps(packets(a)) == DemuxState::start(pid).steps(packets(b)),
{
    other_packets_are_ignored(pid, packets(a));
    other_packets_are_ignored(pid, packets(b));
}

/// A packet out of sync, of another stream, or with an adaptation field alone can be
/// put in anywhere, and changes nothing.
pub proof fn an_inserted_packet_changes_nothing(pid: u16, all: Seq<Seq<u8>>, i: int, p: Seq<u8>)
    requires
        0 <= i <= all.len(),
        p[0] != SYNC_BYTE || pid_of(p) != pid || adaptation_control(p) == 2,
    ensures
        DemuxState::start(pid).steps(all.insert(i, p)) == DemuxState::start(pid).steps(all),
    decreases all.len(),
{
    let with = all.insert(i, p);
    if i < all.len() {
        an_inserted_packet_changes_nothing(pid, all.drop_last(), i, p);
        assert(with.drop_last() =~= all.drop_last().insert(i, p));
        assert(with.last() == all.last());
    } else {
        other_packets_are_ignored(pid, all);
        assert(with.drop_last() =~= all);
        assert(with.last() == p);
    }
}

/// No caption packet without a payload is handed out.
pub proof fn payloads_are_not_empty(pid: u16, all: Seq<Seq<u8>>)
    ensures
        forall|i: int|
            0 <= i < DemuxState::start(pid).steps(all).flush().units.len()
                ==> #[trigger] DemuxState::start(pid).steps(all).flush().units[i].payload.len() > 0,
        forall|i: int|
            0 <= i < DemuxState::start(pid).steps(all).units.len()
                ==> #[trigger] DemuxState::start(pid).steps(all).units[i].payload.len() > 0,
    decreases all.len(),
{
    if all.len() > 0 {
        payloads_are_not_empty(pid, all.drop_last());
    }
}

/// The first timestamp of a stream is time zero.
pub proof fn first_timestamp_is_zero(state: DemuxState)
    requires
        state.clock == PtsState::start(),
        state.raw_pts is Some,
        pes_payload(state.pes).len() > 0,
    ensures
        state.flush().units == state.units.push(
            PesUnit { pts_ms: 0, payload: pes_payload(state.pes) },
        ),
{
}

/// A PES packet with a timestamp: the raw timestamp, and the payload.
pub ghost struct StampedPes {
    pub raw: int,
    pub payload: Seq<u8>,
}

/// The PES packet in progress, where it has a timestamp.
pub open spec fn in_progress(state: DemuxState) -> Seq<StampedPes> {
    if state.raw_pts is Some && state.pes.len() > 0 {
        seq![StampedPes { raw: state.raw_pts->0 as int, payload: pes_payload(state.pes) }]
    } else {
        Seq::empty()
    }
}

/// Whether a packet starts a PES packet of the stream.
pub open spec fn starts_pes(pid: u16, p: Seq<u8>) -> bool {
    in_sync(p) && pid_of(p) == pid && payload_start(p) is Some && starts_unit(p)
}

/// The PES packets with timestamps that some packets bring to an end.
pub open spec fn ended_pes(pid: u16, all: Seq<Seq<u8>>) -> Seq<StampedPes>
    decreases all.len(),
{
    if all.len() == 0 {
        Seq::empty()
    } else if starts_pes(pid, all.last()) {
        ended_pes(pid, all.drop_last()) + in_progress(DemuxState::start(pid).steps(all.drop_last()))
    } else {
        ended_pes(pid, all.drop_last())
    }
}

/// The PES packets with timestamps in some packets.
pub open spec fn stamped_pes(pid: u16, all: Seq<Seq<u8>>) -> Seq<StampedPes> {
    ended_pes(pid, all) + in_progress(DemuxState::start(pid).steps(all))
}

pub open spec fn raw_times(pes: Seq<StampedPes>) -> Seq<int> {
    pes.map_values(|p: StampedPes| p.raw)
}

/// PES packets timed by the clock that their timestamps move; those without a
/// payload are left out.
pub open spec fn timed_by_clock(pes: Seq<StampedPes>) -> Seq<PesUnit>
    decreases pes.len(),
{
    if pes.len() == 0 {
        Seq::empty()
    } else if pes.last().payload.len() == 0 {
        timed_by_clock(pes.drop_last())
    } else {
        timed_by_clock(pes.drop_last()).push(
            PesUnit {
                pts_ms: PtsState::start().push_all(raw_times(pes)).ms() as i64,
                payload: pes.last().payload,
            },
        )
    }
}

proof fn lemma_flush_appends(state: DemuxState, before: Seq<StampedPes>)
    requires
        state.units == timed_by_clock(before),
        state.clock == PtsState::start().push_all(raw_times(before)),
    ensures
        state.flush().units == timed_by_clock(before + in_progress(state)),
        state.flush().clock == PtsState::start().push_all(raw_times(before + in_progress(state))),
{
    if state.raw_pts is Some && state.pes.len() > 0 {
        let all = before + in_progress(state);
        assert(all.drop_last() =~= before);
        assert(raw_times(all).drop_last() =~= raw_times(before));
        assert(raw_times(all).last() == state.raw_pts->0 as int);
    } else {
        assert(before + in_progress(state) =~= before);
    }
}

/// The captions of a stream are its PES packets with a timestamp and a payload, in
/// stream order, each at the time that the timestamps up to its own lead to.
pub proof fn captions_are_the_stamped_packets(pid: u16, all: Seq<Seq<u8>>)
    ensures
        DemuxState::start(pid).steps(all).flush().units == timed_by_clock(stamped_pes(pid, all)),
        DemuxState::start(pid).steps(all).units == timed_by_clock(ended_pes(pid, all)),
        DemuxState::start(pid).steps(all).clock == PtsState::start().push_all(
            raw_times(ended_pes(pid, all)),
        ),
        DemuxState::start(pid).steps(all).pid == pid,
    decreases all.len(),
{
    if all.len() > 0 {
        captions_are_the_stamped_packets(pid, all.drop_last());
        lemma_flush_appends(
            DemuxState::start(pid).steps(all.drop_last()),
            ended_pes(pid, all.drop_last()),
        );
    } else {
        assert(raw_times(ended_pes(pid, all)) =~= Seq::empty());
    }
    lemma_flush_appends(DemuxState::start(pid).steps(all), ended_pes(pid, all));
}

/// PES packets timed by a clock that was read at each of them, from its first
/// reading on; those without a payload are left out.
pub open spec fn timed_truly(pes: Seq<StampedPes>, times: Seq<int>) -> Seq<PesUnit>
    decreases pes.len(),
{
    if pes.len() == 0 {
        Seq::empty()
    } else if pes.last().payload.len() == 0 {
        timed_truly(pes.drop_last(), times)
    } else {
        timed_truly(pes.drop_last(), times).push(
            PesUnit {
                pts_ms: div_toward_zero(times[pes.len() - 1] - times[0], 90) as i64,
                payload: pes.last().payload,
            },
        )
    }
}

proof fn lemma_timed_truly(pes: Seq<StampedPes>, times: Seq<int>)
    requires
        pes.len() <= times.len(),
        forall|i: int|
            0 <= i < pes.len() ==> (#[trigger] pes[i]).raw == times[i] % (PTS_WRAP as int),
        forall|i: int, j: int|
            #![trigger times[i], times[j]]
            0 <= i && j == i + 1 && j < times.len() ==> plausible_step(times[j] - times[i]),
        forall|i: int|
            0 <= i < times.len() ==> i64::MIN <= #[trigger] times[i] - times[0] <= i64::MAX,
    ensures
        timed_by_clock(pes) == timed_truly(pes, times),
    decreases pes.len(),
{
    if pes.len() > 0 {
        let front = pes.drop_last();
        assert(forall|i: int| 0 <= i < front.len() ==> #[trigger] front[i] == pes[i]);
        lemma_timed_truly(front, times);
        let read = times.take(pes.len() as int);
        wrapped_clock_is_recovered(read);
        assert(raw_times(pes) =~= read.map_values(|t: int| t % (PTS_WRAP as int)));
        assert(read.last() == times[pes.len() - 1]);
    }
}

/// Caption times survive the wrap of the 33-bit clock: where the timestamps of a
/// stream are those of a clock that runs on at plausible steps, every caption is
/// at the true time since the first timestamp, however often the clock wraps.
pub proof fn caption_times_survive_the_wrap(pid: u16, all: Seq<Seq<u8>>, times: Seq<int>)
    requires
        times.len() == stamped_pes(pid, all).len(),
        forall|i: int|
            0 <= i < times.len() ==> (#[trigger] stamped_pes(pid, all)[i]).raw == times[i] % (
            PTS_WRAP as int),
        forall|i: int, j: int|
            #![trigger times[i], times[j]]
            0 <= i && j == i + 1 && j < times.len() ==> plausible_step(times[j] - times[i]),
        forall|i: int|
            0 <= i < times.len() ==> i64::MIN <= #[trigger] times[i] - times[0] <= i64::MAX,
    ensures
        DemuxState::start(pid).steps(all).flush().units == timed_truly(
            stamped_pes(pid, all),
            times,
        ),
{
    captions_are_the_stamped_packets(pid, all);
    lemma_timed_truly(stamped_pes(pid, all), times);
}

// ------------------------------------------------------------- as it is sent

/// A timestamp in its five bytes, behind four bits that say what it is.
pub open spec fn stamp_bytes(mark: nat, t: nat) -> Seq<u8> {
    seq![
        (mark * 16 + (t / 0x4000_0000) * 2 + 1) as u8,
        (t / 0x40_0000 % 256) as u8,
        (t / 0x8000 % 128 * 2 + 1) as u8,
        (t / 0x80 % 256) as u8,
        (t % 0x80 * 2 + 1) as u8,
    ]
}

/// A timestamp is read as it is written.
pub proof fn a_written_timestamp_is_read(mark: nat, t: nat, rest: Seq<u8>)
    requires
        mark < 16,
        t < 0x2_0000_0000,
    ensures
        pts_field(stamp_bytes(mark, t) + rest) == t,
{
    let p = stamp_bytes(mark, t) + rest;
    let (a, b, c, d, e) = (
        t / 0x4000_0000,
        t / 0x40_0000 % 256,
        t / 0x8000 % 128,
        t / 0x80 % 256,
        t % 0x80,
    );
    assert(a < 8);
    assert(t == a * 0x4000_0000 + b * 0x40_0000 + c * 0x8000 + d * 0x80 + e);
    assert(p[0] == (mark * 16 + a * 2 + 1) as u8 && p[1] == b as u8 && p[2] == (c * 2 + 1) as u8
        && p[3] == d as u8 && p[4] == (e * 2 + 1) as u8);
    assert((p[0] / 2) % 8 == a);
    assert(p[2] / 2 == c);
    assert(p[4] / 2 == e);
}

/// A PES packet.
pub ghost struct PesForm {
    pub stream_id: u8,
    /// Whether its length is stated.
    pub bounded: bool,
    pub flags: u8,
    /// Which timestamps there are, and other flags.
    pub stamps: nat,
    pub more_flags: nat,
    pub mark: nat,
    /// The timestamp, where there is one.
    pub time: Option<nat>,
    /// What else the header holds.
    pub header: Seq<u8>,
    pub payload: Seq<u8>,
}

impl PesForm {
    pub open spec fn stamp(self) -> Seq<u8> {
        match self.time {
            Some(t) => stamp_bytes(self.mark, t),
            None => Seq::empty(),
        }
    }

    /// What the stated length counts.
    pub open spec fn counted(self) -> nat {
        (3 + self.stamp().len() + self.header.len() + self.payload.len()) as nat
    }

    pub open spec fn fits(self) -> bool {
        &&& self.more_flags < 64
        &&& self.mark < 16
        &&& match self.time {
            Some(t) => 1 <= self.stamps < 4 && t < 0x2_0000_0000,
            None => self.stamps == 0,
        }
        &&& self.stamp().len() + self.header.len() < 256
        &&& self.bounded ==> self.counted() < 0x1_0000
    }

    pub open spec fn bytes(self) -> Seq<u8> {
        let n: nat = if self.bounded {
            self.counted()
        } else {
            0
        };
        seq![
            0u8,
            0,
            1,
            self.stream_id,
            (n / 256) as u8,
            (n % 256) as u8,
            self.flags,
            (self.stamps * 64 + self.more_flags) as u8,
            (self.stamp().len() + self.header.len()) as u8,
        ] + self.stamp() + self.header + self.payload
    }
}

/// The payload of a PES packet is what stands behind its header, however long that is.
pub proof fn a_written_payload_is_read(pes: PesForm)
    requires
        pes.fits(),
    ensures
        pes_payload(pes.bytes()) == pes.payload,
{
    let bytes = pes.bytes();
    let n = pes.stamp().len() + pes.header.len();
    assert(bytes[8] == n as u8);
    if pes.payload.len() > 0 {
        assert(bytes.skip(9 + n as int) =~= pes.payload);
    } else {
        assert(pes.payload =~= Seq::empty());
    }
}

/// The first bytes of a PES packet, or all where there are no more.
pub open spec fn first_bytes(bytes: Seq<u8>, n: int) -> Seq<u8> {
    if n < bytes.len() {
        bytes.take(n)
    } else {
        bytes
    }
}

/// A PES packet of stated length starts with the payload of the packet that says so; the
/// one before it is at its end.  What follows its own end is left out.
pub proof fn a_pes_packet_starts(state: DemuxState, p: PacketForm, pes: PesForm)
    requires
        p.fits(),
        p.pid == state.pid,
        p.starts,
        p.payload.len() >= 14,
        pes.fits(),
        pes.bounded,
        goes_on(pes.bytes(), 0, p.payload),
        pes.time is None ==> pes.bytes().len() >= 9,
    ensures
        state.step(p.bytes()) == (DemuxState {
            pes: first_bytes(pes.bytes(), p.payload.len() as int),
            total: pes.bytes().len(),
            raw_pts: match pes.time {
                Some(t) => Some(t as u64),
                None => None,
            },
            ..state.flush()
        }),
{
    written_packet_is_read(p);
    let bytes = p.bytes();
    let at = 188 - p.payload.len();
    let front = bytes.skip(at);
    let whole = pes.bytes();
    assert(front == p.payload);
    assert(whole.len() == 6 + pes.counted());
    assert forall|i: int| 0 <= i < front.len() && i < whole.len() implies #[trigger] bytes[at + i]
        == whole[i] by {
        assert(front[i] == bytes[at + i]);
        assert(p.payload[i] == whole[0 + i]);
    }
    assert(whole.len() >= 9);
    assert(bytes[at + 4] == whole[4] && bytes[at + 5] == whole[5] && bytes[at + 7] == whole[7]);
    let n = pes.counted();
    assert(whole[4] == (n / 256) as u8 && whole[5] == (n % 256) as u8);
    assert(be16(whole[4], whole[5]) == n);
    assert(whole[7] == (pes.stamps * 64 + pes.more_flags) as u8);
    assert(whole[7] / 64 == pes.stamps);
    let end = if whole.len() < p.payload.len() {
        at + whole.len()
    } else {
        188
    };
    assert(bytes.subrange(at, end) =~= first_bytes(whole, p.payload.len() as int));
    if let Some(t) = pes.time {
        let field = bytes.skip(at + 9);
        assert(whole.len() >= 14);
        assert(field[0] == whole[9] && field[1] == whole[10] && field[2] == whole[11] && field[3]
            == whole[12] && field[4] == whole[13]);
        assert(forall|i: int| 0 <= i < 5 ==> whole[9 + i] == #[trigger] pes.stamp()[i]);
        assert(field =~= pes.stamp() + field.skip(5)) by {
            assert(whole[9] == pes.stamp()[0] && whole[10] == pes.stamp()[1] && whole[11]
                == pes.stamp()[2] && whole[12] == pes.stamp()[3] && whole[13] == pes.stamp()[4]);
        }
        a_written_timestamp_is_read(pes.mark, t, field.skip(5));
    }
}

/// A PES packet without a stated length starts with all of the payload of its first
/// packet.
pub proof fn an_unbounded_pes_packet_starts(state: DemuxState, p: PacketForm, pes: PesForm)
    requires
        p.fits(),
        p.pid == state.pid,
        p.starts,
        p.payload.len() >= 14,
        pes.fits(),
        !pes.bounded,
        p.payload.is_prefix_of(pes.bytes()),
    ensures
        state.step(p.bytes()) == (DemuxState {
            pes: p.payload,
            total: 0,
            raw_pts: match pes.time {
                Some(t) => Some(t as u64),
                None => None,
            },
            ..state.flush()
        }),
{
    written_packet_is_read(p);
    let bytes = p.bytes();
    let at = 188 - p.payload.len();
    let front = bytes.skip(at);
    let whole = pes.bytes();
    assert(front == p.payload);
    assert(whole.subrange(0, front.len() as int) == front);
    assert forall|i: int| 0 <= i < front.len() implies #[trigger] bytes[at + i] == whole[i] by {
        assert(front[i] == bytes[at + i]);
        assert(whole.subrange(0, front.len() as int)[i] == whole[i]);
    }
    assert(bytes[at + 4] == whole[4] && bytes[at + 5] == whole[5] && bytes[at + 7] == whole[7]);
    assert(whole[4] == 0 && whole[5] == 0);
    assert(whole[7] == (pes.stamps * 64 + pes.more_flags) as u8);
    assert(whole[7] / 64 == pes.stamps);
    assert(bytes.subrange(at, 188) =~= p.payload);
    if let Some(t) = pes.time {
        let field = bytes.skip(at + 9);
        assert(bytes[at + 9] == whole[9] && bytes[at + 10] == whole[10] && bytes[at + 11]
            == whole[11] && bytes[at + 12] == whole[12] && bytes[at + 13] == whole[13]);
        assert(whole[9] == pes.stamp()[0] && whole[10] == pes.stamp()[1] && whole[11]
            == pes.stamp()[2] && whole[12] == pes.stamp()[3] && whole[13] == pes.stamp()[4]);
        assert(field =~= pes.stamp() + field.skip(5));
        a_written_timestamp_is_read(pes.mark, t, field.skip(5));
    }
}

/// A PES packet goes on with the payload of the packets that follow, up to its end.
pub proof fn a_pes_packet_goes_on(state: DemuxState, p: PacketForm, whole: Seq<u8>, n: int)
    requires
        p.fits(),
        p.pid == state.pid,
        !p.starts,
        0 < n,
        whole.len() > 0,
        state.total == whole.len(),
        state.pes == first_bytes(whole, n),
        goes_on(whole, n, p.payload),
    ensures
        state.step(p.bytes()) == (DemuxState {
            pes: first_bytes(whole, n + p.payload.len()),
            ..state
        }),
{
    written_packet_is_read(p);
    let bytes = p.bytes();
    let at = 188 - p.payload.len();
    let front = bytes.skip(at);
    let missing = whole.len() - state.pes.len();
    let end = if at + missing < 188 {
        at + missing
    } else {
        188
    };
    assert forall|i: int| 0 <= i < end - at implies #[trigger] bytes[at + i]
        == whole[state.pes.len() + i] by {
        assert(front[i] == bytes[at + i]);
        assert(p.payload[i] == whole[n + i]);
    }
    assert(state.pes + bytes.subrange(at, end) =~= first_bytes(whole, n + p.payload.len()));
}

/// A PES packet without a stated length takes all that follows until the next one starts.
pub proof fn an_unbounded_pes_packet_takes_all(state: DemuxState, p: PacketForm)
    requires
        p.fits(),
        p.pid == state.pid,
        !p.starts,
        state.total == 0,
        state.pes.len() > 0,
    ensures
        state.step(p.bytes()) == (DemuxState { pes: state.pes + p.payload, ..state }),
{
    written_packet_is_read(p);
    let at = 188 - p.payload.len();
    assert(p.bytes().subrange(at, 188) =~= p.bytes().skip(at));
}

/// At its end a PES packet with a timestamp and a payload is handed out: its payload, at
/// the time of its own timestamp.
pub proof fn a_whole_pes_packet_is_handed_out(state: DemuxState, pes: PesForm, t: nat)
    requires
        pes.fits(),
        pes.time == Some(t),
        state.pes == pes.bytes(),
        state.raw_pts == Some(t as u64),
        pes.payload.len() > 0,
    ensures
        state.flush().units == state.units.push(
            PesUnit {
                pts_ms: state.clock.push(t as int).ms() as i64,
                payload: pes.payload,
            },
        ),
        state.flush().clock == state.clock.push(t as int),
{
    a_written_payload_is_read(pes);
}

/// A PES packet without a timestamp is dropped.
pub proof fn a_pes_packet_without_a_timestamp_is_dropped(state: DemuxState)
    requires
        state.raw_pts is None,
    ensures
        state.flush() == state,
{
}

/// Two captions, each in a packet of its own: both are handed out, the first at time
/// zero, the second as long after it as the clock has counted.
pub proof fn two_captions_are_handed_out(
    pid: u16,
    p: PacketForm,
    q: PacketForm,
    first: PesForm,
    second: PesForm,
    t: nat,
    d: int,
)
    requires
        p.fits(),
        q.fits(),
        p.pid == pid,
        q.pid == pid,
        p.starts,
        q.starts,
        p.payload.len() >= 14,
        q.payload.len() >= 14,
        first.fits(),
        second.fits(),
        first.bounded,
        second.bounded,
        first.payload.len() > 0,
        second.payload.len() > 0,
        first.bytes().len() <= p.payload.len(),
        second.bytes().len() <= q.payload.len(),
        goes_on(first.bytes(), 0, p.payload),
        goes_on(second.bytes(), 0, q.payload),
        t < 0x2_0000_0000,
        -90_000 <= d <= 972_000_000,
        first.time == Some(t),
        second.time == Some(((t + d) % 0x2_0000_0000) as nat),
    ensures
        DemuxState::start(pid).steps(seq![p.bytes(), q.bytes()]).flush().units == seq![
            PesUnit { pts_ms: 0, payload: first.payload },
            PesUnit { pts_ms: div_toward_zero(d, 90) as i64, payload: second.payload },
        ],
{
    let start = DemuxState::start(pid);
    let later = ((t + d) % 0x2_0000_0000) as nat;
    let one = start.step(p.bytes());
    let two = one.step(q.bytes());
    lemma_caption_in_one_packet(start, p, first, t);
    lemma_caption_in_one_packet(one, q, second, later);
    lemma_clock_at_two(t, d);
    lemma_two_steps(start, p.bytes(), q.bytes());
    assert(start.flush() == start);
    assert(two.flush().units =~= seq![
        PesUnit { pts_ms: 0, payload: first.payload },
        PesUnit { pts_ms: div_toward_zero(d, 90) as i64, payload: second.payload },
    ]);
}

proof fn lemma_two_steps(state: DemuxState, p: Seq<u8>, q: Seq<u8>)
    ensures
        state.steps(seq![p, q]) == state.step(p).step(q),
{
    let all = seq![p, q];
    assert(all.drop_last() =~= seq![p]);
    assert(seq![p].drop_last() =~= Seq::empty());
    reveal_with_fuel(DemuxState::steps, 3);
}

proof fn lemma_clock_at_two(t: nat, d: int)
    requires
        t < 0x2_0000_0000,
        -90_000 <= d <= 972_000_000,
    ensures
        ({
            let later = (t + d) % 0x2_0000_0000;
            let clock = PtsState::start().push(t as int);
            &&& clock.ms() == 0
            &&& clock.push(later).ms() == div_toward_zero(d, 90)
        }),
{
    let later = (t + d) % 0x2_0000_0000;
    steps_move_the_timeline(PtsState::start(), t as int, later, d);
}

proof fn lemma_caption_in_one_packet(state: DemuxState, p: PacketForm, pes: PesForm, t: nat)
    requires
        p.fits(),
        p.pid == state.pid,
        p.starts,
        p.payload.len() >= 14,
        pes.fits(),
        pes.bounded,
        pes.payload.len() > 0,
        pes.time == Some(t),
        pes.bytes().len() <= p.payload.len(),
        goes_on(pes.bytes(), 0, p.payload),
    ensures
        ({
            let after = state.step(p.bytes());
            let before = state.flush();
            &&& after.pid == state.pid
            &&& after.units == before.units
            &&& after.clock == before.clock
            &&& after.flush().clock == before.clock.push(t as int)
            &&& after.flush().units == before.units.push(
                PesUnit {
                    pts_ms: before.clock.push(t as int).ms() as i64,
                    payload: pes.payload,
                },
            )
        }),
{
    a_pes_packet_starts(state, p, pes);
    a_whole_pes_packet_is_handed_out(state.step(p.bytes()), pes, t);
}

// ------------------------------------------------------------- the caption file

/// The 64 bits of a signed number.
pub open spec fn i64_bits(n: i64) -> u64 {
    if n >= 0 {
        n as u64
    } else {
        (n + 0x1_0000_0000_0000_0000) as u64
    }
}

/// A caption packet in the file: its time and its length, each in eight bytes,
/// low byte first, and its payload.
pub open spec fn unit_bytes(unit: PesUnit) -> Seq<u8> {
    spec_u64_to_le_bytes(i64_bits(unit.pts_ms)) + spec_u64_to_le_bytes(unit.payload.len() as u64)
        + unit.payload
}

pub open spec fn units_bytes(units: Seq<PesUnit>) -> Seq<u8>
    decreases units.len(),
{
    if units.len() == 0 {
        Seq::empty()
    } else {
        unit_bytes(units[0]) + units_bytes(units.skip(1))
    }
}

/// The caption file: the number of packets in eight bytes, low byte first, and
/// the packets.
pub open spec fn blob_bytes(units: Seq<PesUnit>) -> Seq<u8> {
    spec_u64_to_le_bytes(units.len() as u64) + units_bytes(units)
}

pub open spec fn units_of_pairs(pairs: Seq<(i64, Vec<u8>)>) -> Seq<PesUnit> {
    pairs.map_values(|p: (i64, Vec<u8>)| PesUnit { pts_ms: p.0, payload: p.1@ })
}

/// Why a caption file was not read.
#[derive(Debug, Clone, Copy, PartialEq, Eq, Structural)]
pub enum PesBlobError {
    /// The bytes end too early.
    Malformed,
}

/// `bincode::ErrorKind`, which is only passed on.
#[verifier::external_type_specification]
#[verifier::external_body]
pub struct ExBincodeErrorKind(bincode::ErrorKind);

/// `bincode::serialize` of a list of pairs: lengths and numbers are written as
/// eight bytes with the low byte first, elements follow one another, and
/// writing to memory does not fail.
#[verifier::external_body]
fn bincode_serialize(pairs: &Vec<(i64, Vec<u8>)>) -> (r: Result<Vec<u8>, bincode::Error>)
    ensures
        r is Ok,
        r->Ok_0@ == blob_bytes(units_of_pairs(pairs@)),
{
    bincode::serialize(pairs)
}

/// `bincode::deserialize` of a list of pairs, in the same form.  It reads the
/// list that the bytes start with, allows more bytes after it, and fails where
/// the bytes start with no list.
#[verifier::external_body]
fn bincode_deserialize(data: &[u8]) -> (r: Result<Vec<(i64, Vec<u8>)>, bincode::Error>)
    ensures
        match r {
            Ok(pairs) => blob_bytes(units_of_pairs(pairs@)).is_prefix_of(data@),
            Err(_) => forall|units: Seq<PesUnit>|
                !(#[trigger] blob_bytes(units)).is_prefix_of(data@),
        },
{
    bincode::deserialize(data)
}

/// The contents of the caption file.
pub fn write_pes_blob(pes: &[CaptionPes]) -> (blob: Vec<u8>)
    ensures
        blob@ == blob_bytes(units_of(pes@)),
{
    let mut pairs: Vec<(i64, Vec<u8>)> = Vec::new();
    let mut i: usize = 0;
    while i < pes.len()
        invariant
            i <= pes@.len(),
            units_of_pairs(pairs@) == units_of(pes@).take(i as int),
        decreases pes@.len() - i,
    {
        let ghost before = pairs@;
        let pair = (pes[i].pts_ms, slice_to_vec(pes[i].payload.as_slice()));
        let ghost unit = PesUnit { pts_ms: pair.0, payload: pair.1@ };
        pairs.push(pair);
        assert(units_of_pairs(pairs@) =~= units_of_pairs(before).push(unit));
        assert(units_of(pes@).take(i + 1) =~= units_of(pes@).take(i as int).push(unit));
        i = i + 1;
    }
    assert(units_of(pes@).take(i as int) =~= units_of(pes@));
    match bincode_serialize(&pairs) {
        Ok(blob) => blob,
        Err(_) => Vec::new(),
    }
}

/// Reads back the contents of the caption file.
pub fn read_pes_blob(data: &[u8]) -> (r: Result<Vec<CaptionPes>, PesBlobError>)
    ensures
        match r {
            Ok(pes) => blob_bytes(units_of(pes@)).is_prefix_of(data@),
            Err(PesBlobError::Malformed) => forall|units: Seq<PesUnit>|
                !(#[trigger] blob_bytes(units)).is_prefix_of(data@),
        },
{
    let pairs = match bincode_deserialize(data) {
        Ok(pairs) => pairs,
        Err(_) => {
            return Err(PesBlobError::Malformed);
        },
    };
    let ghost whole = pairs@;
    let mut pes: Vec<CaptionPes> = Vec::new();
    for pair in it: pairs
        invariant
            it.seq() == whole,
            units_of(pes@) == units_of_pairs(whole).take(it.index() as int),
    {
        let ghost before = pes@;
        let unit = CaptionPes { pts_ms: pair.0, payload: pair.1 };
        pes.push(unit);
        assert(units_of(pes@) =~= units_of(before).push(unit@));
        assert(units_of_pairs(whole).take(it.index() + 1) =~= units_of_pairs(whole).take(
            it.index() as int,
        ).push(unit@));
    }
    assert(units_of_pairs(whole).take(whole.len() as int) =~= units_of_pairs(whole));
    Ok(pes)
}

proof fn lemma_units_start_alike(a: Seq<PesUnit>, b: Seq<PesUnit>, data: Seq<u8>)
    requires
        a.len() == b.len(),
        data.len() <= u64::MAX,
        units_bytes(a).is_prefix_of(data),
        units_bytes(b).is_prefix_of(data),
    ensures
        a == b,
    decreases a.len(),
{
    lemma_auto_spec_u64_to_from_le_bytes();
    if a.len() > 0 {
        let (x, y) = (a[0], b[0]);
        let rest_a = units_bytes(a.skip(1));
        let rest_b = units_bytes(b.skip(1));
        let px = spec_u64_to_le_bytes(i64_bits(x.pts_ms));
        let py = spec_u64_to_le_bytes(i64_bits(y.pts_ms));
        let lx = spec_u64_to_le_bytes(x.payload.len() as u64);
        let ly = spec_u64_to_le_bytes(y.payload.len() as u64);
        assert(units_bytes(a) == px + lx + x.payload + rest_a);
        assert(units_bytes(b) == py + ly + y.payload + rest_b);
        assert(units_bytes(a).subrange(0, 8) =~= px);
        assert(units_bytes(b).subrange(0, 8) =~= py);
        assert(units_bytes(a).subrange(0, 8) =~= data.subrange(0, 8));
        assert(units_bytes(b).subrange(0, 8) =~= data.subrange(0, 8));
        assert(units_bytes(a).subrange(8, 16) =~= lx);
        assert(units_bytes(b).subrange(8, 16) =~= ly);
        assert(units_bytes(a).subrange(8, 16) =~= data.subrange(8, 16));
        assert(units_bytes(b).subrange(8, 16) =~= data.subrange(8, 16));
        assert(spec_u64_from_le_bytes(px) == spec_u64_from_le_bytes(py));
        assert(spec_u64_from_le_bytes(lx) == spec_u64_from_le_bytes(ly));
        assert(x.pts_ms == y.pts_ms);
        let n = x.payload.len() as int;
        assert(n == y.payload.len());
        assert(units_bytes(a).subrange(16, 16 + n) =~= x.payload);
        assert(units_bytes(b).subrange(16, 16 + n) =~= y.payload);
        assert(units_bytes(a).subrange(16, 16 + n) =~= data.subrange(16, 16 + n));
        assert(units_bytes(b).subrange(16, 16 + n) =~= data.subrange(16, 16 + n));
        assert(x.payload =~= y.payload);
        let tail = data.skip(16 + n);
        assert(rest_a.is_prefix_of(tail)) by {
            assert(rest_a =~= units_bytes(a).subrange(16 + n, units_bytes(a).len() as int));
            assert(rest_a =~= tail.subrange(0, rest_a.len() as int));
        }
        assert(rest_b.is_prefix_of(tail)) by {
            assert(rest_b =~= units_bytes(b).subrange(16 + n, units_bytes(b).len() as int));
            assert(rest_b =~= tail.subrange(0, rest_b.len() as int));
        }
        lemma_units_start_alike(a.skip(1), b.skip(1), tail);
        assert(a =~= seq![x] + a.skip(1));
        assert(b =~= seq![y] + b.skip(1));
    } else {
        assert(a =~= b);
    }
}

proof fn lemma_units_take_room(units: Seq<PesUnit>)
    ensures
        units_bytes(units).len() >= 16 * units.len(),
    decreases units.len(),
{
    lemma_auto_spec_u64_to_from_le_bytes();
    if units.len() > 0 {
        lemma_units_take_room(units.skip(1));
    }
}

/// Bytes start with at most one caption file.
pub proof fn blob_is_unambiguous(a: Seq<PesUnit>, b: Seq<PesUnit>, data: Seq<u8>)
    requires
        data.len() <= u64::MAX,
        blob_bytes(a).is_prefix_of(data),
        blob_bytes(b).is_prefix_of(data),
    ensures
        a == b,
{
    lemma_auto_spec_u64_to_from_le_bytes();
    lemma_units_take_room(a);
    lemma_units_take_room(b);
    let ca = spec_u64_to_le_bytes(a.len() as u64);
    let cb = spec_u64_to_le_bytes(b.len() as u64);
    assert(blob_bytes(a).subrange(0, 8) =~= ca);
    assert(blob_bytes(b).subrange(0, 8) =~= cb);
    assert(blob_bytes(a).subrange(0, 8) =~= data.subrange(0, 8));
    assert(blob_bytes(b).subrange(0, 8) =~= data.subrange(0, 8));
    assert(spec_u64_from_le_bytes(ca) == spec_u64_from_le_bytes(cb));
    let tail = data.skip(8);
    assert(units_bytes(a) =~= blob_bytes(a).subrange(8, blob_bytes(a).len() as int));
    assert(units_bytes(b) =~= blob_bytes(b).subrange(8, blob_bytes(b).len() as int));
    assert(units_bytes(a) =~= tail.subrange(0, units_bytes(a).len() as int));
    assert(units_bytes(b) =~= tail.subrange(0, units_bytes(b).len() as int));
    lemma_units_start_alike(a, b, tail);
}

/// What is written is what is read back, also where other bytes follow: the
/// written file starts with exactly one list of packets, the one written.
pub proof fn written_blob_reads_back(units: Seq<PesUnit>, after: Seq<u8>)
    requires
        (blob_bytes(units) + after).len() <= u64::MAX,
    ensures
        blob_bytes(units).is_prefix_of(blob_bytes(units) + after),
        forall|read: Seq<PesUnit>|
            #[trigger] blob_bytes(read).is_prefix_of(blob_bytes(units) + after) ==> read == units,
{
    let data = blob_bytes(units) + after;
    assert(blob_bytes(units) =~= data.subrange(0, blob_bytes(units).len() as int));
    assert forall|read: Seq<PesUnit>| #[trigger]
        blob_bytes(read).is_prefix_of(data) implies read == units by {
        blob_is_unambiguous(read, units, data);
    }
}

} // verus!
