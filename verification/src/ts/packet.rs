//! Transport stream packets.
use vstd::prelude::*;
use vstd::slice::slice_subrange;

verus! {

/// The length of a transport stream packet.
pub const PACKET_LEN: usize = 188;

/// The first byte of every packet in sync.
pub const SYNC_BYTE: u8 = 0x47;

/// A 13-bit number whose high bits are the low five of `hi`.
pub open spec fn low13(hi: u8, lo: u8) -> u16 {
    ((hi % 32) * 256 + lo) as u16
}

/// A 12-bit number whose high bits are the low four of `hi`.
pub open spec fn low12(hi: u8, lo: u8) -> nat {
    ((hi % 16) * 256 + lo) as nat
}

/// A big-endian 16-bit number.
pub open spec fn be16(hi: u8, lo: u8) -> u16 {
    (hi * 256 + lo) as u16
}

pub fn read_low13(hi: u8, lo: u8) -> (n: u16)
    ensures
        n == low13(hi, lo),
        n < 0x2000,
{
    assert(((hi as u16 & 0x1F) << 8) | lo as u16 == (hi % 32) * 256 + lo) by (bit_vector);
    ((hi as u16 & 0x1F) << 8) | lo as u16
}

pub fn read_low12(hi: u8, lo: u8) -> (n: usize)
    ensures
        n == low12(hi, lo),
        n < 0x1000,
{
    assert(((hi as u16 & 0x0F) << 8) | lo as u16 == (hi % 16) * 256 + lo) by (bit_vector);
    (((hi as u16 & 0x0F) << 8) | lo as u16) as usize
}

pub fn read_be16(hi: u8, lo: u8) -> (n: u16)
    ensures
        n == be16(hi, lo),
{
    assert(((hi as u16) << 8) | lo as u16 == hi * 256 + lo) by (bit_vector);
    ((hi as u16) << 8) | lo as u16
}

/// Whether a number is among some.
pub fn lists(numbers: &[u16], n: u16) -> (b: bool)
    ensures
        b == numbers@.contains(n),
{
    let mut i: usize = 0;
    while i < numbers.len()
        invariant
            i <= numbers@.len(),
            forall|j: int| 0 <= j < i ==> numbers@[j] != n,
        decreases numbers@.len() - i,
    {
        if numbers[i] == n {
            assert(numbers@[i as int] == n);
            return true;
        }
        i = i + 1;
    }
    false
}

/// The number of whole packets in a stream.
pub open spec fn packet_count(ts: Seq<u8>) -> nat {
    ts.len() / 188
}

/// The packet at place `i` of a stream.
pub open spec fn packet_at(ts: Seq<u8>, i: int) -> Seq<u8> {
    ts.subrange(i * 188, i * 188 + 188)
}

/// The whole packets of a stream, in order.
pub open spec fn packets(ts: Seq<u8>) -> Seq<Seq<u8>> {
    Seq::new(packet_count(ts), |i: int| packet_at(ts, i))
}

pub open spec fn in_sync(p: Seq<u8>) -> bool {
    p[0] == SYNC_BYTE
}

/// The packet identifier.
pub open spec fn pid_of(p: Seq<u8>) -> u16 {
    low13(p[1], p[2])
}

/// Whether a PES packet or a section starts in this packet.
pub open spec fn starts_unit(p: Seq<u8>) -> bool {
    (p[1] / 64) % 2 == 1
}

/// The adaptation field control: 2 means no payload, 3 means that an
/// adaptation field stands before the payload.
pub open spec fn adaptation_control(p: Seq<u8>) -> int {
    (p[3] / 16) as int % 4
}

/// Where the payload starts, if the packet has one.
pub open spec fn payload_start(p: Seq<u8>) -> Option<int> {
    let start = if adaptation_control(p) == 3 {
        5 + p[4]
    } else {
        4
    };
    if adaptation_control(p) == 2 || start >= PACKET_LEN {
        None
    } else {
        Some(start)
    }
}

/// The packet at place `i`.
pub fn read_packet(ts: &[u8], i: usize) -> (p: &[u8])
    requires
        i < packet_count(ts@),
    ensures
        p@ == packet_at(ts@, i as int),
        p@.len() == PACKET_LEN,
{
    assert(i * 188 + 188 <= ts.len());
    slice_subrange(ts, i * PACKET_LEN, i * PACKET_LEN + PACKET_LEN)
}

pub fn read_pid(p: &[u8]) -> (pid: u16)
    requires
        p@.len() == PACKET_LEN,
    ensures
        pid == pid_of(p@),
        pid < 0x2000,
{
    read_low13(p[1], p[2])
}

pub fn read_starts_unit(p: &[u8]) -> (b: bool)
    requires
        p@.len() == PACKET_LEN,
    ensures
        b == starts_unit(p@),
{
    let flags: u8 = p[1];
    assert((flags & 0x40 != 0) == ((flags / 64) % 2 == 1)) by (bit_vector);
    (flags & 0x40) != 0
}

pub fn read_payload_start(p: &[u8]) -> (start: Option<usize>)
    requires
        p@.len() == PACKET_LEN,
    ensures
        match start {
            None => payload_start(p@) is None,
            Some(s) => payload_start(p@) == Some(s as int) && 4 <= s < PACKET_LEN,
        },
{
    let flags: u8 = p[3];
    assert((flags & 0x30) >> 4 == (flags / 16) % 4) by (bit_vector);
    let control: u8 = (flags & 0x30) >> 4;
    if control == 2 {
        return None;
    }
    let start: usize = if control == 3 {
        5 + p[4] as usize
    } else {
        4
    };
    if start >= PACKET_LEN {
        None
    } else {
        Some(start)
    }
}

// ------------------------------------------------------------------------ laws

/// A packet as it is sent.
pub ghost struct PacketForm {
    pub pid: nat,
    /// Whether a PES packet or a section starts in it.
    pub starts: bool,
    pub damaged: bool,
    pub urgent: bool,
    /// How the payload is scrambled, and the number of the packet.
    pub scrambling: nat,
    pub counter: nat,
    /// What stands before the payload, after its own length.
    pub adaptation: Option<Seq<u8>>,
    pub payload: Seq<u8>,
}

pub open spec fn bit(b: bool) -> nat {
    if b {
        1
    } else {
        0
    }
}

impl PacketForm {
    pub open spec fn fits(self) -> bool {
        &&& self.pid < 0x2000
        &&& self.scrambling < 4
        &&& self.counter < 16
        &&& self.payload.len() > 0
        &&& self.bytes().len() == 188
    }

    pub open spec fn bytes(self) -> Seq<u8> {
        let flags = bit(self.damaged) * 128 + bit(self.starts) * 64 + bit(self.urgent) * 32;
        let control: nat = if self.adaptation is Some {
            3
        } else {
            1
        };
        seq![
            0x47u8,
            (flags + self.pid / 256) as u8,
            (self.pid % 256) as u8,
            (self.scrambling * 64 + control * 16 + self.counter) as u8,
        ] + (match self.adaptation {
            Some(a) => seq![a.len() as u8] + a,
            None => Seq::empty(),
        }) + self.payload
    }
}

/// A packet is read as it is written: its PID, whether something starts in it, and its
/// payload, whatever stands before that.
pub proof fn written_packet_is_read(p: PacketForm)
    requires
        p.fits(),
    ensures
        in_sync(p.bytes()),
        pid_of(p.bytes()) == p.pid,
        starts_unit(p.bytes()) == p.starts,
        payload_start(p.bytes()) == Some(188 - p.payload.len()),
        p.bytes().skip(188 - p.payload.len()) == p.payload,
{
    let bytes = p.bytes();
    let flags = bit(p.damaged) * 128 + bit(p.starts) * 64 + bit(p.urgent) * 32;
    assert(flags + p.pid / 256 < 256);
    assert(bytes[1] == (flags + p.pid / 256) as u8);
    assert(bytes[2] == (p.pid % 256) as u8);
    assert(bytes[3] / 16 % 4 == if p.adaptation is Some {
        3int
    } else {
        1
    });
    assert(bytes.skip(188 - p.payload.len()) =~= p.payload);
}

/// A packet that holds nothing but what stands before a payload has none; so has one in
/// which that takes up all the room.
pub proof fn packets_without_payload(p: Seq<u8>)
    requires
        p.len() == 188,
    ensures
        (p[3] / 16) % 4 == 2 ==> payload_start(p) is None,
        (p[3] / 16) % 4 == 3 && p[4] >= 183 ==> payload_start(p) is None,
{
}

/// Packets one after another.
pub open spec fn stream_of(all: Seq<Seq<u8>>) -> Seq<u8>
    decreases all.len(),
{
    if all.len() == 0 {
        Seq::empty()
    } else {
        stream_of(all.drop_last()) + all.last()
    }
}

/// A stream is read as the packets that were put one after another, in order; a part of a
/// packet at its end does not count.
pub proof fn a_written_stream_is_read(all: Seq<Seq<u8>>, rest: Seq<u8>)
    requires
        forall|i: int| 0 <= i < all.len() ==> (#[trigger] all[i]).len() == 188,
        rest.len() < 188,
    ensures
        packets(stream_of(all) + rest) == all,
{
    let ts = stream_of(all) + rest;
    lemma_stream_len(all);
    assert(packet_count(ts) == all.len());
    assert forall|i: int| 0 <= i < all.len() implies packet_at(ts, i) == #[trigger] all[i] by {
        lemma_packet_in_stream(all, i);
        assert(packet_at(ts, i) =~= stream_of(all).subrange(i * 188, i * 188 + 188));
    }
    assert(packets(ts) =~= all);
}

proof fn lemma_stream_len(all: Seq<Seq<u8>>)
    requires
        forall|i: int| 0 <= i < all.len() ==> (#[trigger] all[i]).len() == 188,
    ensures
        stream_of(all).len() == all.len() * 188,
    decreases all.len(),
{
    if all.len() > 0 {
        let front = all.drop_last();
        assert(forall|i: int| 0 <= i < front.len() ==> #[trigger] front[i] == all[i]);
        lemma_stream_len(front);
        assert(all[all.len() - 1].len() == 188);
    }
}

proof fn lemma_packet_in_stream(all: Seq<Seq<u8>>, k: int)
    requires
        forall|i: int| 0 <= i < all.len() ==> (#[trigger] all[i]).len() == 188,
        0 <= k < all.len(),
    ensures
        stream_of(all).len() == all.len() * 188,
        stream_of(all).subrange(k * 188, k * 188 + 188) == all[k],
    decreases all.len(),
{
    let front = all.drop_last();
    assert(forall|i: int| 0 <= i < front.len() ==> #[trigger] front[i] == all[i]);
    lemma_stream_len(all);
    lemma_stream_len(front);
    assert(all[all.len() - 1].len() == 188);
    if k < front.len() {
        lemma_packet_in_stream(front, k);
        assert(stream_of(all).subrange(k * 188, k * 188 + 188) =~= stream_of(front).subrange(
            k * 188,
            k * 188 + 188,
        ));
    } else {
        assert(stream_of(all).subrange(k * 188, k * 188 + 188) =~= all.last());
    }
}

} // verus!
