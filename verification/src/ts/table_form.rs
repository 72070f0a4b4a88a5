//! The programme tables as they are sent, and that they are read as they are
//! written.
use vstd::prelude::*;

use crate::ts::packet::{
    be16, low12, low13, payload_start, written_packet_is_read, PacketForm,
};
use crate::ts::psi::{
    describes_captions, entries_end, first_pid, pat_services, pmt_streams, private_streams,
    section_after, PrivateStream, PsiState, SectionModel,
};

verus! {

/// A descriptor: what it is, and what it says.
pub ghost struct Descriptor {
    pub tag: u8,
    pub body: Seq<u8>,
}

/// Descriptors, each with its length before what it says.
pub open spec fn descriptor_bytes(all: Seq<Descriptor>) -> Seq<u8>
    decreases all.len(),
{
    if all.len() == 0 {
        Seq::empty()
    } else {
        seq![all[0].tag, all[0].body.len() as u8] + all[0].body + descriptor_bytes(all.skip(1))
    }
}

/// Whether every descriptor has room for its length.
pub open spec fn descriptors_fit(all: Seq<Descriptor>) -> bool {
    forall|i: int| 0 <= i < all.len() ==> (#[trigger] all[i]).body.len() <= 255
}

/// Whether a descriptor is one for ARIB captions, of a full or a one-segment service.
pub open spec fn names_captions(d: Descriptor) -> bool {
    d.tag == 0xFD && d.body.len() >= 2 && d.body[0] == 0 && (d.body[1] == 0x08 || d.body[1] == 0x12)
}

/// Captions are found among descriptors exactly where one names them, whatever the
/// others are and say.
pub proof fn written_descriptors_are_read(data: Seq<u8>, at: int, end: int, all: Seq<Descriptor>)
    requires
        0 <= at <= end <= data.len(),
        data.subrange(at, end) == descriptor_bytes(all),
        descriptors_fit(all),
    ensures
        describes_captions(data, at, end) <==> exists|i: int|
            0 <= i < all.len() && names_captions(#[trigger] all[i]),
    decreases all.len(),
{
    let bytes = data.subrange(at, end);
    assert(bytes.len() == end - at);
    if all.len() > 0 {
        let first = all[0];
        let rest = all.skip(1);
        let n = first.body.len();
        let next = at + 2 + n;
        assert(bytes.len() == 2 + n + descriptor_bytes(rest).len());
        assert(bytes[0] == first.tag && bytes[1] == n as u8);
        assert(data[at] == bytes[0] && data[at + 1] == bytes[1]);
        assert(data.subrange(next, end) =~= bytes.skip(2 + n as int));
        assert(bytes.skip(2 + n as int) =~= descriptor_bytes(rest));
        assert(forall|i: int| 0 <= i < rest.len() ==> #[trigger] rest[i] == all[i + 1]);
        written_descriptors_are_read(data, next, end, rest);
        if n >= 2 {
            assert(data[at + 2] == bytes[2] && bytes[2] == first.body[0]);
            assert(data[at + 3] == bytes[3] && bytes[3] == first.body[1]);
        }
        assert(describes_captions(data, at, end) == (names_captions(first) || describes_captions(
            data,
            next,
            end,
        )));
        if names_captions(first) {
            assert(names_captions(all[0]));
        } else {
            if exists|i: int| 0 <= i < all.len() && names_captions(#[trigger] all[i]) {
                let i = choose|i: int| 0 <= i < all.len() && names_captions(#[trigger] all[i]);
                assert(rest[i - 1] == all[i]);
            }
            if exists|i: int| 0 <= i < rest.len() && names_captions(#[trigger] rest[i]) {
                let i = choose|i: int| 0 <= i < rest.len() && names_captions(#[trigger] rest[i]);
                assert(names_captions(all[i + 1]));
            }
        }
    }
}

/// A stream in a PMT.
pub ghost struct StreamForm {
    pub kind: u8,
    pub pid: nat,
    pub descriptors: Seq<Descriptor>,
    /// What the bits before the PID and before the length hold.
    pub pid_flags: nat,
    pub length_flags: nat,
}

impl StreamForm {
    pub open spec fn fits(self) -> bool {
        &&& self.pid < 0x2000
        &&& self.pid_flags < 8
        &&& self.length_flags < 16
        &&& descriptors_fit(self.descriptors)
        &&& descriptor_bytes(self.descriptors).len() < 0x1000
    }

    pub open spec fn bytes(self) -> Seq<u8> {
        let n = descriptor_bytes(self.descriptors).len();
        seq![
            self.kind,
            (self.pid_flags * 32 + self.pid / 256) as u8,
            (self.pid % 256) as u8,
            (self.length_flags * 16 + n / 256) as u8,
            (n % 256) as u8,
        ] + descriptor_bytes(self.descriptors)
    }

    pub open spec fn carries_captions(self) -> bool {
        exists|i: int|
            0 <= i < self.descriptors.len() && names_captions(#[trigger] self.descriptors[i])
    }
}

pub open spec fn stream_bytes(streams: Seq<StreamForm>) -> Seq<u8>
    decreases streams.len(),
{
    if streams.len() == 0 {
        Seq::empty()
    } else {
        streams[0].bytes() + stream_bytes(streams.skip(1))
    }
}

pub open spec fn streams_fit(streams: Seq<StreamForm>) -> bool {
    forall|i: int| 0 <= i < streams.len() ==> (#[trigger] streams[i]).fits()
}

/// The private streams among some, in order.
pub open spec fn private_among(streams: Seq<StreamForm>) -> Seq<PrivateStream>
    decreases streams.len(),
{
    if streams.len() == 0 {
        Seq::empty()
    } else {
        let rest = private_among(streams.skip(1));
        if streams[0].kind == 6 {
            seq![
                PrivateStream {
                    pid: streams[0].pid as u16,
                    captions: streams[0].carries_captions(),
                },
            ] + rest
        } else {
            rest
        }
    }
}

proof fn lemma_written_streams(data: Seq<u8>, at: int, end: int, streams: Seq<StreamForm>)
    requires
        0 <= at <= end <= data.len(),
        data.subrange(at, end) == stream_bytes(streams),
        streams_fit(streams),
    ensures
        private_streams(data, at, end) == private_among(streams),
    decreases streams.len(),
{
    let bytes = data.subrange(at, end);
    assert(bytes.len() == end - at);
    if streams.len() > 0 {
        let first = streams[0];
        let rest = streams.skip(1);
        let inner = descriptor_bytes(first.descriptors);
        let n = inner.len();
        let next = at + 5 + n;
        assert(first.fits());
        assert(bytes.len() == 5 + n + stream_bytes(rest).len());
        let head = first.bytes();
        assert(forall|i: int| 0 <= i < 5 ==> #[trigger] bytes[i] == head[i]);
        assert(data[at] == bytes[0] && data[at + 1] == bytes[1] && data[at + 2] == bytes[2] && data[at
            + 3] == bytes[3] && data[at + 4] == bytes[4]);
        assert(data.subrange(next, end) =~= bytes.skip(5 + n as int));
        assert(bytes.skip(5 + n as int) =~= stream_bytes(rest));
        assert(forall|i: int| 0 <= i < rest.len() ==> #[trigger] rest[i] == streams[i + 1]);
        lemma_written_streams(data, next, end, rest);
        assert(bytes.subrange(5, 5 + n as int) =~= inner);
        assert(data.subrange(at + 5, next) =~= bytes.subrange(5, 5 + n as int));
        written_descriptors_are_read(data, at + 5, next, first.descriptors);
        assert(low12(data[at + 3], data[at + 4]) == n);
        assert(low13(data[at + 1], data[at + 2]) == first.pid);
    }
}

/// A PMT.
pub ghost struct PmtForm {
    pub table_id: u8,
    /// What the bits before the two lengths hold.
    pub section_flags: nat,
    pub info_flags: nat,
    /// The service, the version, the numbers of the section, and the PID of the clock.
    pub head: Seq<u8>,
    /// What is said of the programme as a whole.
    pub info: Seq<u8>,
    pub streams: Seq<StreamForm>,
    pub checksum: Seq<u8>,
}

impl PmtForm {
    /// What the length of the section counts.
    pub open spec fn counted(self) -> nat {
        (9 + self.info.len() + stream_bytes(self.streams).len() + 4) as nat
    }

    pub open spec fn fits(self) -> bool {
        &&& self.section_flags < 16
        &&& self.info_flags < 16
        &&& self.head.len() == 7
        &&& self.checksum.len() == 4
        &&& streams_fit(self.streams)
        &&& self.counted() < 0x1000
    }

    pub open spec fn bytes(self) -> Seq<u8> {
        let n = self.counted();
        let k = self.info.len();
        seq![self.table_id, (self.section_flags * 16 + n / 256) as u8, (n % 256) as u8] + self.head
            + seq![(self.info_flags * 16 + k / 256) as u8, (k % 256) as u8] + self.info
            + stream_bytes(self.streams) + self.checksum
    }
}

/// A PMT is read as it is written: its private streams come out in order, each with its
/// PID, and as captions exactly where one of its descriptors names them.  Neither what
/// is said of the programme, nor other streams, nor the checksum makes a difference.
pub proof fn written_pmt_is_read(pmt: PmtForm)
    requires
        pmt.fits(),
    ensures
        pmt_streams(pmt.bytes()) == private_among(pmt.streams),
        pmt.bytes().len() == 3 + low12(pmt.bytes()[1], pmt.bytes()[2]),
{
    let data = pmt.bytes();
    let k = pmt.info.len();
    let n = pmt.counted();
    let inner = stream_bytes(pmt.streams);
    assert(data.len() == 3 + n);
    assert(low12(data[1], data[2]) == n);
    assert(data[10] == (pmt.info_flags * 16 + k / 256) as u8 && data[11] == (k % 256) as u8);
    assert(low12(data[10], data[11]) == k);
    let end = entries_end(data);
    assert(data.subrange(12 + k as int, end) =~= inner);
    lemma_written_streams(data, 12 + k as int, end, pmt.streams);
}

proof fn lemma_descriptors_moved(a: Seq<u8>, b: Seq<u8>, k: int, at: int, end: int)
    requires
        forall|i: int| at <= i < end ==> #[trigger] b[i + k] == a[i],
    ensures
        describes_captions(b, at + k, end + k) == describes_captions(a, at, end),
    decreases
            if at < end {
                end - at
            } else {
                0
            },
{
    if at + 2 <= end {
        assert(b[at + k] == a[at] && b[at + 1 + k] == a[at + 1]);
        let len = a[at + 1] as int;
        lemma_descriptors_moved(a, b, k, at + 2 + len, end);
        if len >= 2 && at + 2 + len <= end {
            assert(b[at + 2 + k] == a[at + 2] && b[at + 3 + k] == a[at + 3]);
        }
    }
}

proof fn lemma_streams_moved(a: Seq<u8>, b: Seq<u8>, k: int, at: int, end: int)
    requires
        forall|i: int| at <= i < end ==> #[trigger] b[i + k] == a[i],
    ensures
        private_streams(b, at + k, end + k) == private_streams(a, at, end),
    decreases
            if at < end {
                end - at
            } else {
                0
            },
{
    if at + 5 <= end {
        assert(b[at + k] == a[at] && b[at + 1 + k] == a[at + 1] && b[at + 2 + k] == a[at + 2]);
        assert(b[at + 3 + k] == a[at + 3] && b[at + 4 + k] == a[at + 4]);
        let next = at + 5 + low12(a[at + 3], a[at + 4]);
        lemma_streams_moved(a, b, k, next, end);
        let stop = if next < end {
            next
        } else {
            end
        };
        lemma_descriptors_moved(a, b, k, at + 5, stop);
    }
}

/// What a PMT says of its programme as a whole makes no difference to its streams: of two
/// sections that differ in it, and in the two lengths that count it, the streams are the
/// same.
pub proof fn programme_information_makes_no_difference(a: Seq<u8>, b: Seq<u8>, more: int)
    requires
        a.len() >= 12,
        b.len() == a.len() + more,
        b.len() >= 12,
        low12(b[1], b[2]) == low12(a[1], a[2]) + more,
        low12(b[10], b[11]) == low12(a[10], a[11]) + more,
        forall|i: int|
            12 + low12(a[10], a[11]) <= i < a.len() ==> #[trigger] b[i + more] == a[i],
    ensures
        pmt_streams(b) == pmt_streams(a),
{
    let at = 12 + low12(a[10], a[11]) as int;
    let end = entries_end(a);
    if entries_end(b) == end + more {
        lemma_streams_moved(a, b, more, at, end);
    } else {
        assert(pmt_streams(a) =~= Seq::empty());
        assert(pmt_streams(b) =~= Seq::empty());
    }
}

// ------------------------------------------------------------------------- PAT

/// A service in a PAT; the number 0 stands for none.
pub ghost struct ServiceForm {
    pub service: nat,
    /// The PID of its PMT.
    pub pid: nat,
    pub flags: nat,
}

impl ServiceForm {
    pub open spec fn fits(self) -> bool {
        self.service < 0x1_0000 && self.pid < 0x2000 && self.flags < 8
    }

    pub open spec fn bytes(self) -> Seq<u8> {
        seq![
            (self.service / 256) as u8,
            (self.service % 256) as u8,
            (self.flags * 32 + self.pid / 256) as u8,
            (self.pid % 256) as u8,
        ]
    }

    /// Whether it names the PMT of a service.
    pub open spec fn names(self, pid: u16) -> bool {
        self.service != 0 && self.pid == pid
    }
}

pub open spec fn service_bytes(all: Seq<ServiceForm>) -> Seq<u8>
    decreases all.len(),
{
    if all.len() == 0 {
        Seq::empty()
    } else {
        all[0].bytes() + service_bytes(all.skip(1))
    }
}

/// A PAT.
pub ghost struct PatForm {
    pub table_id: u8,
    pub section_flags: nat,
    /// The stream, the version, and the numbers of the section.
    pub head: Seq<u8>,
    pub services: Seq<ServiceForm>,
    pub checksum: Seq<u8>,
}

impl PatForm {
    pub open spec fn counted(self) -> nat {
        (5 + service_bytes(self.services).len() + 4) as nat
    }

    pub open spec fn fits(self) -> bool {
        &&& self.section_flags < 16
        &&& self.head.len() == 5
        &&& self.checksum.len() == 4
        &&& forall|i: int| 0 <= i < self.services.len() ==> (#[trigger] self.services[i]).fits()
        &&& self.counted() < 0x1000
    }

    pub open spec fn bytes(self) -> Seq<u8> {
        let n = self.counted();
        seq![self.table_id, (self.section_flags * 16 + n / 256) as u8, (n % 256) as u8] + self.head
            + service_bytes(self.services) + self.checksum
    }
}

proof fn lemma_written_services(
    before: Map<u16, u16>,
    data: Seq<u8>,
    at: int,
    end: int,
    all: Seq<ServiceForm>,
    pid: u16,
)
    requires
        0 <= at <= end <= data.len(),
        data.subrange(at, end) == service_bytes(all),
        forall|i: int| 0 <= i < all.len() ==> (#[trigger] all[i]).fits(),
    ensures
        ({
            let after = pat_services(before, data, at, end);
            &&& forall|i: int|
                0 <= i < all.len() && (#[trigger] all[i]).names(pid) && (forall|j: int|
                    i < j < all.len() ==> !(#[trigger] all[j]).names(pid)) ==> after.contains_key(
                    pid,
                ) && after[pid] == all[i].service
            &&& (forall|i: int| 0 <= i < all.len() ==> !(#[trigger] all[i]).names(pid)) ==> {
                &&& after.contains_key(pid) == before.contains_key(pid)
                &&& after[pid] == before[pid]
            }
        }),
    decreases all.len(),
{
    let bytes = data.subrange(at, end);
    assert(bytes.len() == end - at);
    if all.len() > 0 {
        let first = all[0];
        let rest = all.skip(1);
        assert(first.fits());
        assert(bytes.len() == 4 + service_bytes(rest).len());
        assert(bytes[0] == first.bytes()[0] && bytes[1] == first.bytes()[1] && bytes[2]
            == first.bytes()[2] && bytes[3] == first.bytes()[3]);
        assert(data[at] == bytes[0] && data[at + 1] == bytes[1] && data[at + 2] == bytes[2] && data[at
            + 3] == bytes[3]);
        assert(be16(data[at], data[at + 1]) == first.service);
        assert(low13(data[at + 2], data[at + 3]) == first.pid);
        assert(data.subrange(at + 4, end) =~= bytes.skip(4));
        assert(bytes.skip(4) =~= service_bytes(rest));
        assert(forall|i: int| 0 <= i < rest.len() ==> #[trigger] rest[i] == all[i + 1]);
        let next = if first.service == 0 {
            before
        } else {
            before.insert(first.pid as u16, first.service as u16)
        };
        lemma_written_services(next, data, at + 4, end, rest, pid);
        let after = pat_services(before, data, at, end);
        assert(after == pat_services(next, data, at + 4, end));
        assert forall|i: int|
            0 <= i < all.len() && (#[trigger] all[i]).names(pid) && (forall|j: int|
                i < j < all.len() ==> !(#[trigger] all[j]).names(
                    pid,
                )) implies after.contains_key(pid) && after[pid] == all[i].service by {
            if i == 0 {
                assert forall|j: int| 0 <= j < rest.len() implies !(#[trigger] rest[j]).names(
                    pid,
                ) by {
                    assert(!all[j + 1].names(pid));
                }
            } else {
                assert(rest[i - 1].names(pid));
                assert forall|j: int| i - 1 < j < rest.len() implies !(#[trigger] rest[j]).names(
                    pid,
                ) by {
                    assert(!all[j + 1].names(pid));
                }
            }
        }
        if forall|i: int| 0 <= i < all.len() ==> !(#[trigger] all[i]).names(pid) {
            assert(!all[0].names(pid));
            assert forall|j: int| 0 <= j < rest.len() implies !(#[trigger] rest[j]).names(pid) by {
                assert(!all[j + 1].names(pid));
            }
        }
    }
}

/// A PAT is read as it is written: each PMT that it names for a service is known by its
/// PID, with the service that was named last for it; what it does not name stays as it
/// was.  The number 0 names no service.
pub proof fn written_pat_is_read(state: PsiState, pat: PatForm, pid: u16)
    requires
        pat.fits(),
    ensures
        ({
            let after = state.read_pat(pat.bytes());
            &&& forall|i: int|
                0 <= i < pat.services.len() && (#[trigger] pat.services[i]).names(pid) && (forall|
                    j: int,
                |
                    i < j < pat.services.len() ==> !(#[trigger] pat.services[j]).names(pid))
                    ==> after.services.contains_key(pid) && after.services[pid]
                    == pat.services[i].service
            &&& (forall|i: int|
                0 <= i < pat.services.len() ==> !(#[trigger] pat.services[i]).names(pid)) ==> {
                &&& after.services.contains_key(pid) == state.services.contains_key(pid)
                &&& after.services[pid] == state.services[pid]
            }
            &&& after == PsiState { services: after.services, ..state }
        }),
        pat.bytes().len() == 3 + low12(pat.bytes()[1], pat.bytes()[2]),
{
    let data = pat.bytes();
    let n = pat.counted();
    let inner = service_bytes(pat.services);
    assert(data.len() == 3 + n);
    assert(low12(data[1], data[2]) == n);
    let end = entries_end(data);
    assert(data.subrange(8, end) =~= inner);
    lemma_written_services(state.services, data, 8, end, pat.services, pid);
}

// --------------------------------------------------------------------- sections

/// How much of a section has arrived, of a section that says its length.
pub open spec fn arrived(section: Seq<u8>, n: int) -> SectionModel {
    SectionModel {
        bytes: if n < section.len() {
            section.take(n)
        } else {
            section
        },
        total: section.len(),
    }
}

/// Whether some bytes are what a section goes on with from a place, up to its end.
pub open spec fn goes_on(section: Seq<u8>, from: int, bytes: Seq<u8>) -> bool {
    forall|i: int|
        0 <= i < bytes.len() && from + i < section.len() ==> #[trigger] bytes[i] == section[from
            + i]
}

/// A section starts behind the pointer of a packet, whatever has arrived before; what
/// follows its end is left out.
pub proof fn a_section_starts(
    before: Option<SectionModel>,
    p: PacketForm,
    skipped: Seq<u8>,
    front: Seq<u8>,
    section: Seq<u8>,
)
    requires
        p.fits(),
        p.starts,
        p.payload == seq![skipped.len() as u8] + skipped + front,
        front.len() >= 3,
        section.len() >= 3,
        section.len() == 3 + low12(section[1], section[2]),
        goes_on(section, 0, front),
    ensures
        section_after(before, p.bytes(), payload_start(p.bytes())->0) == Some(
            arrived(section, front.len() as int),
        ),
{
    written_packet_is_read(p);
    let bytes = p.bytes();
    let start = 188 - p.payload.len();
    let first = start + 1 + skipped.len();
    assert(bytes.len() == 188);
    let payload = bytes.skip(start);
    assert(payload == p.payload);
    assert(bytes[start] == payload[0]);
    assert(p.payload[0] == skipped.len() as u8);
    assert forall|i: int| 0 <= i < front.len() implies bytes[first + i] == #[trigger] front[i] by {
        assert(payload[1 + skipped.len() + i] == front[i]);
    }
    assert(bytes[first] == front[0] && bytes[first + 1] == front[1] && bytes[first + 2] == front[2]);
    assert(front[1] == section[1] && front[2] == section[2]);
    let end = if first + section.len() < 188 {
        first + section.len()
    } else {
        188
    };
    assert(bytes.subrange(first, end) =~= arrived(section, front.len() as int).bytes);
}

/// A section goes on with the payload of the packets that follow; what follows its end
/// is left out.
pub proof fn a_section_goes_on(section: Seq<u8>, n: int, p: PacketForm)
    requires
        p.fits(),
        !p.starts,
        0 <= n,
        goes_on(section, n, p.payload),
    ensures
        section_after(Some(arrived(section, n)), p.bytes(), payload_start(p.bytes())->0) == Some(
            arrived(section, n + p.payload.len()),
        ),
{
    written_packet_is_read(p);
    let bytes = p.bytes();
    let start = 188 - p.payload.len();
    let payload = bytes.skip(start);
    assert(bytes.len() == 188);
    let had = arrived(section, n).bytes;
    let missing = section.len() - had.len();
    let end = if start + missing < 188 {
        start + missing
    } else {
        188
    };
    assert forall|i: int| 0 <= i < end - start implies #[trigger] bytes[start + i] == section[had.len()
        + i] by {
        assert(payload[i] == bytes[start + i]);
        assert(p.payload[i] == section[n + i]);
    }
    assert(had + bytes.subrange(start, end) =~= arrived(section, n + p.payload.len()).bytes);
}

// ---------------------------------------------------------------- what is found

/// Whether a stream is private, and carries captions or does not.
pub open spec fn is_private(s: StreamForm, captions: bool) -> bool {
    s.kind == 6 && s.carries_captions() == captions
}

proof fn lemma_first_among(streams: Seq<StreamForm>, captions: bool)
    requires
        streams_fit(streams),
    ensures
        forall|i: int|
            0 <= i < streams.len() && is_private(#[trigger] streams[i], captions) && (forall|j: int|
                0 <= j < i ==> !is_private(#[trigger] streams[j], captions)) ==> first_pid(
                private_among(streams),
                captions,
            ) == Some(streams[i].pid as u16),
        (forall|i: int| 0 <= i < streams.len() ==> !is_private(#[trigger] streams[i], captions))
            ==> first_pid(private_among(streams), captions) is None,
        private_among(streams).len() > 0 <==> exists|i: int|
            0 <= i < streams.len() && (#[trigger] streams[i]).kind == 6,
    decreases streams.len(),
{
    if streams.len() > 0 {
        let rest = streams.skip(1);
        assert(forall|i: int| 0 <= i < rest.len() ==> #[trigger] rest[i] == streams[i + 1]);
        lemma_first_among(rest, captions);
        let found = private_among(streams);
        if streams[0].kind == 6 {
            assert(found.skip(1) =~= private_among(rest));
            assert(found.len() > 0);
        } else if exists|i: int| 0 <= i < streams.len() && (#[trigger] streams[i]).kind == 6 {
            let i = choose|i: int| 0 <= i < streams.len() && (#[trigger] streams[i]).kind == 6;
            assert(rest[i - 1].kind == 6);
        } else if found.len() > 0 {
            let i = choose|i: int| 0 <= i < rest.len() && (#[trigger] rest[i]).kind == 6;
            assert(streams[i + 1].kind == 6);
        }
        assert forall|i: int|
            0 <= i < streams.len() && is_private(#[trigger] streams[i], captions) && (forall|j: int|
                0 <= j < i ==> !is_private(#[trigger] streams[j], captions)) implies first_pid(
            found,
            captions,
        ) == Some(streams[i].pid as u16) by {
            if i > 0 {
                assert(!is_private(streams[0], captions));
                assert(rest[i - 1] == streams[i]);
                assert forall|j: int| 0 <= j < i - 1 implies !is_private(
                    #[trigger] rest[j],
                    captions,
                ) by {
                    assert(!is_private(streams[j + 1], captions));
                }
            }
        }
        if forall|i: int| 0 <= i < streams.len() ==> !is_private(#[trigger] streams[i], captions) {
            assert(!is_private(streams[0], captions));
            assert forall|j: int| 0 <= j < rest.len() implies !is_private(
                #[trigger] rest[j],
                captions,
            ) by {
                assert(!is_private(streams[j + 1], captions));
            }
        }
    }
}

/// What a PMT adds to what is known.  The first stream that carries captions is the one
/// to be found; it wins over private streams that do not, also over those of earlier
/// PMTs, and those of later PMTs do not win over it.  Of private streams that do not, the
/// first is found as long as there is no other.
pub proof fn captions_win_over_private_streams(state: PsiState, pid: u16, pmt: PmtForm, i: int)
    requires
        pmt.fits(),
        !state.read.contains(pid),
        0 <= i < pmt.streams.len(),
        pmt.streams[i].kind == 6,
    ensures
        ({
            let after = state.read_pmt(pid, pmt.bytes());
            let service = state.services[pid];
            &&& state.caption_pid is Some ==> after.pid_found() == state.caption_pid
            &&& state.caption_pid is None && pmt.streams[i].carries_captions() && (forall|j: int|
                0 <= j < i ==> !is_private(#[trigger] pmt.streams[j], true)) ==> after.pid_found()
                == Some(pmt.streams[i].pid as u16)
            &&& state.caption_pid is None && (forall|j: int|
                0 <= j < pmt.streams.len() ==> !is_private(#[trigger] pmt.streams[j], true)) ==> {
                &&& state.private_pid is Some ==> after.pid_found() == state.private_pid
                &&& state.private_pid is None && (forall|j: int|
                    0 <= j < i ==> !is_private(#[trigger] pmt.streams[j], false))
                    ==> after.pid_found() == Some(pmt.streams[i].pid as u16)
            }
            &&& pmt.streams[i].carries_captions() ==> after.services_found().contains(service)
            &&& after.caption_services.len() == 0 ==> after.services_found().contains(service)
            &&& after.read.contains(pid)
        }),
{
    let after = state.read_pmt(pid, pmt.bytes());
    let service = state.services[pid];
    written_pmt_is_read(pmt);
    lemma_first_among(pmt.streams, true);
    lemma_first_among(pmt.streams, false);
    let streams = pmt_streams(pmt.bytes());
    assert(pmt.streams[i].kind == 6);
    assert(streams.len() > 0);
    if pmt.streams[i].carries_captions() {
        lemma_some_caption(pmt.streams, i);
        assert(first_pid(streams, true) is Some);
        if !state.caption_services.contains(service) {
            assert(after.caption_services.last() == service);
        }
        assert(after.caption_services.contains(service));
    } else if after.caption_services.len() == 0 {
        if !state.private_services.contains(service) {
            assert(after.private_services.last() == service);
        }
        assert(after.private_services.contains(service));
    }
    if state.caption_pid is None && !pmt.streams[i].carries_captions() {
        assert(is_private(pmt.streams[i], false));
    }
}

proof fn lemma_some_caption(streams: Seq<StreamForm>, i: int)
    requires
        streams_fit(streams),
        0 <= i < streams.len(),
        is_private(streams[i], true),
    ensures
        first_pid(private_among(streams), true) is Some,
    decreases i,
{
    lemma_first_among(streams, true);
    if exists|j: int| 0 <= j < i && is_private(#[trigger] streams[j], true) {
        let j = choose|j: int| 0 <= j < i && is_private(#[trigger] streams[j], true);
        lemma_some_caption(streams, j);
    }
}

/// A table that comes in one packet is read at once.
pub proof fn a_table_in_one_packet_is_read(state: PsiState, p: PacketForm, section: Seq<u8>)
    requires
        p.fits(),
        p.starts,
        !state.finished,
        p.pid == 0 || state.services.contains_key(p.pid as u16),
        section.len() >= 3,
        section.len() == 3 + low12(section[1], section[2]),
        (seq![0u8] + section).is_prefix_of(p.payload),
    ensures
        ({
            let pid = p.pid as u16;
            let next = PsiState {
                sections: state.sections.insert(
                    pid,
                    SectionModel { bytes: section, total: section.len() },
                ),
                ..state
            };
            state.step(p.bytes()) == if p.pid == 0 {
                next.read_pat(section)
            } else {
                next.read_pmt(pid, section)
            }
        }),
{
    let pid = p.pid as u16;
    let whole = seq![0u8] + section;
    let front = p.payload.skip(1);
    written_packet_is_read(p);
    assert(whole[0] == 0);
    assert(p.payload =~= seq![0u8] + Seq::empty() + front);
    assert forall|j: int| 0 <= j < front.len() && 0 + j < section.len() implies #[trigger] front[j]
        == section[0 + j] by {
        assert(whole[j + 1] == p.payload[j + 1]);
    }
    a_section_starts(state.section(pid), p, Seq::empty(), front, section);
}

/// The stream of a recording that carries its captions is found in its tables: in a PAT
/// that names a PMT, and in that PMT, each sent in one packet.
pub proof fn the_caption_stream_is_found(
    pat: PatForm,
    pmt: PmtForm,
    pat_packet: PacketForm,
    pmt_packet: PacketForm,
    k: int,
    i: int,
)
    requires
        pat.fits(),
        pmt.fits(),
        pat_packet.fits(),
        pmt_packet.fits(),
        pat_packet.pid == 0,
        pat_packet.starts,
        pmt_packet.starts,
        pmt_packet.pid != 0,
        (seq![0u8] + pat.bytes()).is_prefix_of(pat_packet.payload),
        (seq![0u8] + pmt.bytes()).is_prefix_of(pmt_packet.payload),
        0 <= k < pat.services.len(),
        pat.services[k].names(pmt_packet.pid as u16),
        forall|j: int|
            k < j < pat.services.len() ==> !(#[trigger] pat.services[j]).names(
                pmt_packet.pid as u16,
            ),
        0 <= i < pmt.streams.len(),
        is_private(pmt.streams[i], true),
        forall|j: int| 0 <= j < i ==> !is_private(#[trigger] pmt.streams[j], true),
    ensures
        ({
            let after = PsiState::start().steps(seq![pat_packet.bytes(), pmt_packet.bytes()]);
            &&& after.pid_found() == Some(pmt.streams[i].pid as u16)
            &&& after.services_found() == seq![pat.services[k].service as u16]
        }),
{
    let start = PsiState::start();
    let pid = pmt_packet.pid as u16;
    let (p, q) = (pat_packet.bytes(), pmt_packet.bytes());
    let one = start.step(p);
    let two = one.step(q);
    lemma_pat_packet(pat, pat_packet, pid, k);
    written_pmt_is_read(pmt);
    a_table_in_one_packet_is_read(one, pmt_packet, pmt.bytes());
    let section = SectionModel { bytes: pmt.bytes(), total: pmt.bytes().len() };
    let with_pmt = PsiState { sections: one.sections.insert(pid, section), ..one };
    captions_win_over_private_streams(with_pmt, pid, pmt, i);
    lemma_some_caption(pmt.streams, i);
    assert(two.services_found() =~= seq![pat.services[k].service as u16]);
    reveal_with_fuel(PsiState::steps, 3);
    let all = seq![p, q];
    assert(all.drop_last() =~= seq![p]);
    assert(seq![p].drop_last() =~= Seq::empty());
    assert(start.steps(all) == two);
}

proof fn lemma_pat_packet(pat: PatForm, packet: PacketForm, pid: u16, k: int)
    requires
        pat.fits(),
        packet.fits(),
        packet.pid == 0,
        packet.starts,
        (seq![0u8] + pat.bytes()).is_prefix_of(packet.payload),
        0 <= k < pat.services.len(),
        pat.services[k].names(pid),
        forall|j: int| k < j < pat.services.len() ==> !(#[trigger] pat.services[j]).names(pid),
    ensures
        ({
            let one = PsiState::start().step(packet.bytes());
            &&& one == (PsiState {
                services: one.services,
                sections: one.sections,
                ..PsiState::start()
            })
            &&& one.services.contains_key(pid)
            &&& one.services[pid] == pat.services[k].service
        }),
{
    let start = PsiState::start();
    let section = SectionModel { bytes: pat.bytes(), total: pat.bytes().len() };
    let next = PsiState { sections: start.sections.insert(0, section), ..start };
    written_pat_is_read(next, pat, pid);
    a_table_in_one_packet_is_read(start, packet, pat.bytes());
    assert(pat.services[k].names(pid));
}

/// A PMT without private streams adds nothing to what was found.
pub proof fn a_pmt_without_private_streams_adds_nothing(state: PsiState, pid: u16, pmt: PmtForm)
    requires
        pmt.fits(),
        forall|i: int| 0 <= i < pmt.streams.len() ==> (#[trigger] pmt.streams[i]).kind != 6,
    ensures
        ({
            let after = state.read_pmt(pid, pmt.bytes());
            &&& after.pid_found() == state.pid_found()
            &&& after.services_found() == state.services_found()
            &&& after.services == state.services
        }),
{
    written_pmt_is_read(pmt);
    lemma_first_among(pmt.streams, true);
    lemma_first_among(pmt.streams, false);
}

/// Services with captions are named alone; those with other private streams only where
/// there are none with captions.
pub proof fn services_with_captions_are_named_alone(state: PsiState)
    ensures
        state.caption_services.len() > 0 ==> state.services_found() == state.caption_services,
        state.caption_services.len() == 0 ==> state.services_found() == state.private_services,
        state.caption_pid is Some ==> state.pid_found() == state.caption_pid,
        state.caption_pid is None ==> state.pid_found() == state.private_pid,
{
}

/// A packet in which a section starts too near the end to say its length adds nothing.
pub proof fn a_section_that_cannot_say_its_length_adds_nothing(
    before: Option<SectionModel>,
    p: PacketForm,
    skipped: Seq<u8>,
    front: Seq<u8>,
)
    requires
        p.fits(),
        p.starts,
        skipped.len() < 256,
        p.payload == seq![skipped.len() as u8] + skipped + front,
        front.len() < 3,
    ensures
        section_after(before, p.bytes(), payload_start(p.bytes())->0) is None,
{
    written_packet_is_read(p);
    let start = 188 - p.payload.len();
    assert(p.bytes().skip(start)[0] == p.bytes()[start]);
    assert(p.payload[0] == skipped.len() as u8);
}

} // verus!
