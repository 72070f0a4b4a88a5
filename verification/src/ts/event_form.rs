//! The event tables as they are sent, and that they are read as they are written.
use vstd::prelude::*;

use crate::ts::airtime::{
    bcd_reads_two_digits, day_number, is_date, mjd_date, mjd_date_is_gregorian, start_time,
};
use crate::ts::b24::b24_text;
use crate::ts::epg::{
    eit_programme, events_from, filled, middle_offset, series_episode, series_last,
    stream_programme, window_programme, with_descriptor, with_descriptors, EitState, Epg,
};
use crate::ts::packet::{
    be16, in_sync, low12, payload_start, pid_of, written_packet_is_read, PacketForm,
};
use crate::ts::table_form::{descriptor_bytes, descriptors_fit, goes_on, Descriptor};
use crate::ts::title::{title_parts, without_icons};

verus! {

// ----------------------------------------------------------------- descriptors

/// A short event descriptor gives the title, without icons, and nothing else.
pub proof fn a_short_event_gives_the_title(
    e: Epg,
    language: Seq<u8>,
    name: Seq<u8>,
    rest: Seq<u8>,
)
    requires
        language.len() == 3,
        name.len() < 256,
    ensures
        with_descriptor(e, 0x4D, language + seq![name.len() as u8] + name + rest) == (Epg {
            title: without_icons(b24_text(name)),
            ..e
        }),
{
    let d = language + seq![name.len() as u8] + name + rest;
    assert(d[3] == name.len() as u8);
    assert(d.subrange(4, 4 + name.len() as int) =~= name);
}

/// A series descriptor gives the episode's number, that of the last episode, and the name
/// of the series.  A number 0, and a name without text, stand for none and leave alone
/// what is known.
pub proof fn a_series_descriptor_gives_the_episode(
    e: Epg,
    head: Seq<u8>,
    episode: nat,
    last: nat,
    name: Seq<u8>,
    rest: Seq<u8>,
)
    requires
        head.len() == 5,
        episode < 0x1000,
        last < 0x1000,
        name.len() < 256,
    ensures
        ({
            let d = head + seq![
                (episode / 16) as u8,
                ((episode % 16) * 16 + last / 256) as u8,
                (last % 256) as u8,
                name.len() as u8,
            ] + name + rest;
            let after = with_descriptor(e, 0xD5, d);
            &&& after.episode_number == if episode == 0 {
                e.episode_number
            } else {
                Some(episode as u16)
            }
            &&& after.last_episode == if last == 0 {
                e.last_episode
            } else {
                Some(last as u16)
            }
            &&& after.series_name == if b24_text(name).len() == 0 {
                e.series_name
            } else {
                Some(b24_text(name))
            }
            &&& after == (Epg {
                episode_number: after.episode_number,
                last_episode: after.last_episode,
                series_name: after.series_name,
                ..e
            })
        }),
{
    let d = head + seq![
        (episode / 16) as u8,
        ((episode % 16) * 16 + last / 256) as u8,
        (last % 256) as u8,
        name.len() as u8,
    ] + name + rest;
    assert(d[5] == (episode / 16) as u8);
    assert(d[6] == ((episode % 16) * 16 + last / 256) as u8);
    assert(d[7] == (last % 256) as u8);
    assert(d[8] == name.len() as u8);
    assert((episode % 16) * 16 + last / 256 < 256);
    assert(d[6] / 16 == episode % 16 && d[6] % 16 == last / 256);
    assert(series_episode(d) == episode);
    assert(series_last(d) == last);
    assert(d.subrange(9, 9 + name.len() as int) =~= name);
}

/// An extended event descriptor gives the details, which follow its items.
pub proof fn an_extended_event_gives_the_details(
    e: Epg,
    head: Seq<u8>,
    items: Seq<u8>,
    text: Seq<u8>,
    rest: Seq<u8>,
)
    requires
        head.len() == 4,
        items.len() < 256,
        0 < text.len() < 256,
    ensures
        ({
            let d = head + seq![items.len() as u8] + items + seq![text.len() as u8] + text + rest;
            with_descriptor(e, 0x4E, d) == if b24_text(text).len() == 0 {
                e
            } else {
                Epg { detail: Some(b24_text(text)), ..e }
            }
        }),
{
    let d = head + seq![items.len() as u8] + items + seq![text.len() as u8] + text + rest;
    let at = 5 + items.len() as int;
    assert(d[4] == items.len() as u8);
    assert(d[at] == text.len() as u8);
    assert(d.subrange(at + 1, at + 1 + text.len()) =~= text);
}

/// Other descriptors say nothing of interest.
pub proof fn other_descriptors_are_passed_over(e: Epg, d: Descriptor)
    requires
        d.tag != 0x4D,
        d.tag != 0x4E,
        d.tag != 0xD5,
    ensures
        with_descriptor(e, d.tag, d.body) == e,
{
}

/// What descriptors say, one after another.
pub open spec fn said_by(e: Epg, all: Seq<Descriptor>) -> Epg
    decreases all.len(),
{
    if all.len() == 0 {
        e
    } else {
        said_by(with_descriptor(e, all[0].tag, all[0].body), all.skip(1))
    }
}

/// Descriptors are read one after another, as they are written.
pub proof fn written_descriptors_are_taken_in_order(
    e: Epg,
    data: Seq<u8>,
    at: int,
    end: int,
    all: Seq<Descriptor>,
)
    requires
        0 <= at <= end <= data.len(),
        data.subrange(at, end) == descriptor_bytes(all),
        descriptors_fit(all),
    ensures
        with_descriptors(e, data, at, end) == said_by(e, all),
    decreases all.len(),
{
    let bytes = data.subrange(at, end);
    assert(bytes.len() == end - at);
    if all.len() > 0 {
        let first = all[0];
        let rest = all.skip(1);
        let n = first.body.len();
        let next = at + 2 + n;
        assert(bytes.len() == 2 + n + descriptor_bytes(rest).len());
        assert(bytes[0] == first.tag && bytes[1] == n as u8);
        assert(data[at] == bytes[0] && data[at + 1] == bytes[1]);
        assert(bytes.subrange(2, 2 + n as int) =~= first.body);
        assert(data.subrange(at + 2, next) =~= bytes.subrange(2, 2 + n as int));
        assert(data.subrange(next, end) =~= bytes.skip(2 + n as int));
        assert(bytes.skip(2 + n as int) =~= descriptor_bytes(rest));
        assert(forall|i: int| 0 <= i < rest.len() ==> #[trigger] rest[i] == all[i + 1]);
        written_descriptors_are_taken_in_order(
            with_descriptor(e, first.tag, first.body),
            data,
            next,
            end,
            rest,
        );
    }
}

// ----------------------------------------------------------------------- events

/// An event in an event table.
pub ghost struct EventForm {
    pub id: Seq<u8>,
    /// When it starts, in the broadcast format.
    pub start: Seq<u8>,
    pub duration: Seq<u8>,
    pub flags: nat,
    pub descriptors: Seq<Descriptor>,
}

impl EventForm {
    pub open spec fn fits(self) -> bool {
        &&& self.id.len() == 2
        &&& self.start.len() == 5
        &&& self.duration.len() == 3
        &&& self.flags < 16
        &&& descriptors_fit(self.descriptors)
        &&& descriptor_bytes(self.descriptors).len() < 0x1000
    }

    pub open spec fn bytes(self) -> Seq<u8> {
        let n = descriptor_bytes(self.descriptors).len();
        self.id + self.start + self.duration + seq![
            (self.flags * 16 + n / 256) as u8,
            (n % 256) as u8,
        ] + descriptor_bytes(self.descriptors)
    }
}

/// An event is read as it is written: what its descriptors say, and when it starts.  Where
/// that gives a title, it is the answer; else the next event is read over it.
pub proof fn a_written_event_is_read(
    e: Epg,
    data: Seq<u8>,
    at: int,
    end: int,
    event: EventForm,
    rest: Seq<u8>,
)
    requires
        0 <= at <= end <= data.len(),
        event.fits(),
        data.subrange(at, end) == event.bytes() + rest,
    ensures
        ({
            let read = said_by(
                Epg { air_datetime: start_time(event.start), ..e },
                event.descriptors,
            );
            &&& read.title.len() > 0 ==> events_from(e, data, at, end) == read
            &&& read.title.len() == 0 ==> events_from(e, data, at, end) == events_from(
                read,
                data,
                at + event.bytes().len(),
                end,
            )
        }),
{
    let bytes = data.subrange(at, end);
    let own = event.bytes();
    let inner = descriptor_bytes(event.descriptors);
    let n = inner.len();
    assert(bytes.len() == end - at);
    assert(own.len() == 12 + n);
    let copy = data.subrange(at, at + own.len());
    assert(copy =~= bytes.take(own.len() as int));
    assert((own + rest).take(own.len() as int) =~= own);
    assert(copy[10] == data[at + 10] && copy[11] == data[at + 11]);
    assert(own[10] == (event.flags * 16 + n / 256) as u8 && own[11] == (n % 256) as u8);
    assert(data[at + 10] == own[10] && data[at + 11] == own[11]);
    assert(low12(data[at + 10], data[at + 11]) == n);
    assert(own.subrange(2, 7) =~= event.start);
    assert(data.subrange(at + 2, at + 7) =~= copy.subrange(2, 7));
    assert(own.subrange(12, 12 + n as int) =~= inner);
    assert(data.subrange(at + 12, at + 12 + n) =~= copy.subrange(12, 12 + n as int));
    written_descriptors_are_taken_in_order(
        Epg { air_datetime: start_time(event.start), ..e },
        data,
        at + 12,
        at + 12 + n,
        event.descriptors,
    );
}

/// A section whose first event has a title is read as that event, whatever follows it and
/// whatever stands before it.
pub proof fn a_written_programme_is_read(
    head: Seq<u8>,
    event: EventForm,
    rest: Seq<u8>,
    checksum: Seq<u8>,
)
    requires
        head.len() == 14,
        checksum.len() == 4,
        event.fits(),
        said_by(
            Epg { air_datetime: start_time(event.start), ..Epg::empty() },
            event.descriptors,
        ).title.len() > 0,
    ensures
        eit_programme(head + event.bytes() + rest + checksum) == Some(
            said_by(
                Epg { air_datetime: start_time(event.start), ..Epg::empty() },
                event.descriptors,
            ),
        ),
{
    let data = head + event.bytes() + rest + checksum;
    let end = data.len() - 4;
    assert(data.subrange(14, end) =~= event.bytes() + rest);
    a_written_event_is_read(Epg::empty(), data, 14, end, event, rest);
}

proof fn lemma_cut(head: Seq<u8>, a: Seq<u8>, b: Seq<u8>, rest: Seq<u8>, checksum: Seq<u8>)
    ensures
        ({
            let data = head + a + b + rest + checksum;
            let end = data.len() - checksum.len();
            &&& data.subrange(head.len() as int, end) == a + (b + rest)
            &&& data.subrange(head.len() + a.len() as int, end) == b + rest
        }),
{
    let data = head + a + b + rest + checksum;
    let end = data.len() - checksum.len();
    assert(data.subrange(head.len() as int, end) =~= a + (b + rest));
    assert(data.subrange(head.len() + a.len() as int, end) =~= b + rest);
}

/// A section whose first event has no title is read as its second.
pub proof fn events_without_a_title_are_passed_over(
    head: Seq<u8>,
    untitled: EventForm,
    event: EventForm,
    rest: Seq<u8>,
    checksum: Seq<u8>,
)
    requires
        head.len() == 14,
        checksum.len() == 4,
        untitled.fits(),
        event.fits(),
        ({
            let first = said_by(
                Epg { air_datetime: start_time(untitled.start), ..Epg::empty() },
                untitled.descriptors,
            );
            &&& first.title.len() == 0
            &&& said_by(
                Epg { air_datetime: start_time(event.start), ..first },
                event.descriptors,
            ).title.len() > 0
        }),
    ensures
        ({
            let first = said_by(
                Epg { air_datetime: start_time(untitled.start), ..Epg::empty() },
                untitled.descriptors,
            );
            eit_programme(head + untitled.bytes() + event.bytes() + rest + checksum) == Some(
                said_by(
                    Epg { air_datetime: start_time(event.start), ..first },
                    event.descriptors,
                ),
            )
        }),
{
    let first = said_by(
        Epg { air_datetime: start_time(untitled.start), ..Epg::empty() },
        untitled.descriptors,
    );
    let data = head + untitled.bytes() + event.bytes() + rest + checksum;
    let end = data.len() - 4;
    let next = 14 + untitled.bytes().len() as int;
    lemma_cut(head, untitled.bytes(), event.bytes(), rest, checksum);
    a_written_event_is_read(Epg::empty(), data, 14, end, untitled, event.bytes() + rest);
    a_written_event_is_read(first, data, next, end, event, rest);
}

// --------------------------------------------------------------- the start time

/// A start time is read as it is written: the day by its number, and hour, minute and
/// second by two digits each.
pub proof fn a_written_start_time_is_read(mjd: int, hour: u8, minute: u8, second: u8)
    requires
        15_079 <= mjd <= 65_534,
        hour < 24,
        minute < 60,
        second < 60,
    ensures
        start_time(
            seq![
                (mjd / 256) as u8,
                (mjd % 256) as u8,
                ((hour / 10) * 16 + hour % 10) as u8,
                ((minute / 10) * 16 + minute % 10) as u8,
                ((second / 10) * 16 + second % 10) as u8,
            ],
        ) matches Some(t) && {
            &&& is_date(t.year as int, t.month as int, t.day as int)
            &&& day_number(t.year as int, t.month as int, t.day as int) == mjd - 40_587
            &&& t.hour == hour
            &&& t.minute == minute
            &&& t.second == second
        },
{
    mjd_date_is_gregorian(mjd);
    bcd_reads_two_digits(hour);
    bcd_reads_two_digits(minute);
    bcd_reads_two_digits(second);
    let data = seq![
        (mjd / 256) as u8,
        (mjd % 256) as u8,
        ((hour / 10) * 16 + hour % 10) as u8,
        ((minute / 10) * 16 + minute % 10) as u8,
        ((second / 10) * 16 + second % 10) as u8,
    ];
    assert(data[0] * 256 + data[1] == mjd);
    let (year, month, day) = mjd_date(mjd);
    assert(0 <= year <= 4000) by {
        if year < 0 {
            assert(day_number(year, month, day) < -700_000);
        }
    }
}

/// A time that there is not is none: so is one of which the day is all ones.
pub proof fn times_that_are_not_are_none(data: Seq<u8>)
    requires
        data.len() >= 5,
    ensures
        data[0] == 0xFF && data[1] == 0xFF ==> start_time(data) is None,
        data[2] > 0x23 || data[3] > 0x59 || data[4] > 0x59 ==> start_time(data) is None,
        data[2] % 16 > 9 || data[3] % 16 > 9 || data[4] % 16 > 9 ==> start_time(data) is None,
{
}

// ---------------------------------------------------------------------- finding

/// Whether a section describes the present programme of one of the services, where any is
/// named.
pub open spec fn is_wanted(section: Seq<u8>, services: Seq<u16>) -> bool {
    &&& section[0] == 0x4E
    &&& section[1] >= 0x80
    &&& section[6] == 0
    &&& services.len() == 0 || exists|i: int|
        0 <= i < services.len() && #[trigger] services[i] == section[3] * 256 + section[4]
}

/// The search, where so much of a section has arrived.
pub open spec fn searching(section: Seq<u8>, n: int) -> EitState {
    EitState {
        section: if n < section.len() {
            section.take(n)
        } else {
            section
        },
        total: section.len(),
        found: if n < section.len() {
            None
        } else {
            Some(section)
        },
    }
}

/// A section that is wanted is taken from the packet that it starts in, behind the
/// pointer; one that is not wanted is passed over.
pub proof fn a_wanted_section_is_taken(
    p: PacketForm,
    services: Seq<u16>,
    skipped: Seq<u8>,
    front: Seq<u8>,
    section: Seq<u8>,
)
    requires
        p.fits(),
        p.pid == 0x12,
        p.starts,
        p.payload == seq![skipped.len() as u8] + skipped + front,
        front.len() >= 8,
        section.len() >= 7,
        section.len() == 3 + low12(section[1], section[2]),
        goes_on(section, 0, front),
    ensures
        EitState::start().step(p.bytes(), services) == (if is_wanted(section, services) {
            searching(section, front.len() as int)
        } else {
            EitState::start()
        }),
{
    written_packet_is_read(p);
    let bytes = p.bytes();
    let start = 188 - p.payload.len();
    let first = start + 1 + skipped.len();
    assert(bytes.len() == 188);
    let payload = bytes.skip(start);
    assert(payload == p.payload);
    assert(bytes[start] == payload[0]);
    assert(p.payload[0] == skipped.len() as u8);
    assert forall|i: int| 0 <= i < front.len() implies bytes[first + i] == #[trigger] front[i] by {
        assert(payload[1 + skipped.len() + i] == front[i]);
    }
    assert(forall|i: int| 0 <= i < front.len() && i < section.len() ==> #[trigger] front[i]
        == section[i]) by {
        assert forall|i: int| 0 <= i < front.len() && i < section.len() implies #[trigger] front[i]
            == section[i] by {
            assert(front[i] == section[0 + i]);
        }
    }
    assert(bytes[first] == front[0] && bytes[first + 1] == front[1] && bytes[first + 2] == front[2]
        && bytes[first + 3] == front[3] && bytes[first + 4] == front[4] && bytes[first + 6]
        == front[6]);
    assert(bytes.skip(first) =~= front);
    let service = be16(section[3], section[4]);
    if services.contains(service) {
        let i = choose|i: int| 0 <= i < services.len() && services[i] == service;
        assert(services[i] == section[3] * 256 + section[4]);
    }
    if is_wanted(section, services) {
        if services.len() > 0 {
            let i = choose|i: int|
                0 <= i < services.len() && #[trigger] services[i] == section[3] * 256 + section[4];
            assert(services.contains(services[i]));
        }
        let taken = EitState { section: Seq::empty(), total: section.len(), found: None };
        assert(taken.append(front).section =~= searching(section, front.len() as int).section);
        assert(EitState::start().step(bytes, services) == taken.append(front));
    }
}

/// A section in progress goes on with the payload of the packets that follow, up to its
/// end; then it is found.
pub proof fn a_wanted_section_goes_on(section: Seq<u8>, n: int, p: PacketForm, services: Seq<u16>)
    requires
        p.fits(),
        p.pid == 0x12,
        !p.starts,
        0 < n < section.len(),
        goes_on(section, n, p.payload),
    ensures
        searching(section, n).step(p.bytes(), services) == searching(
            section,
            n + p.payload.len(),
        ),
{
    written_packet_is_read(p);
    let state = searching(section, n);
    let after = state.append(p.payload);
    assert(after.section =~= searching(section, n + p.payload.len()).section);
    assert(p.bytes().skip(188 - p.payload.len()) == p.payload);
}

/// A section in progress ends in front of the next one, in the packet in which that
/// starts.
pub proof fn a_wanted_section_ends_before_the_next(
    section: Seq<u8>,
    n: int,
    p: PacketForm,
    tail: Seq<u8>,
    next: Seq<u8>,
    services: Seq<u16>,
)
    requires
        p.fits(),
        p.pid == 0x12,
        p.starts,
        0 < n < section.len(),
        tail.len() < 256,
        p.payload == seq![tail.len() as u8] + tail + next,
        n + tail.len() >= section.len(),
        goes_on(section, n, tail),
    ensures
        searching(section, n).step(p.bytes(), services).found == Some(section),
{
    written_packet_is_read(p);
    let bytes = p.bytes();
    let start = 188 - p.payload.len();
    let payload = bytes.skip(start);
    assert(payload == p.payload);
    assert(bytes[start] == payload[0]);
    assert(bytes.subrange(start + 1, start + 1 + tail.len()) =~= tail) by {
        assert forall|i: int| 0 <= i < tail.len() implies bytes[start + 1 + i] == #[trigger] tail[i] by {
            assert(payload[1 + i] == tail[i]);
        }
    }
    let state = searching(section, n);
    assert(state.append(tail).section =~= section);
}

// -------------------------------------------------------------------- the answer

/// What the descriptors leave open, the title says: the series, the name of the episode,
/// and its number, unless a descriptor gave one.
pub proof fn the_title_fills_in_the_rest(e: Epg)
    ensures
        filled(e).series_title == title_parts(e.title).series,
        filled(e).sub_title == title_parts(e.title).sub_title,
        e.episode_number is None ==> (filled(e).episode_number is Some <==> title_parts(
            e.title,
        ).episode is Some),
        e.episode_number is None && title_parts(e.title).episode is Some
            ==> filled(e).episode_number == Some(title_parts(e.title).episode->0 as u16),
{
}

/// A long recording is looked into a fifth of the way, at the start of a packet, before
/// its start is; a short one at its start alone.
pub proof fn recordings_are_looked_into_a_fifth_of_the_way(ts: Seq<u8>, services: Seq<u16>)
    ensures
        ts.len() <= 500_000 ==> stream_programme(ts, services) == window_programme(
            ts,
            services,
            300_000,
        ),
        ts.len() > 500_000 ==> {
            let at = middle_offset(ts.len() as int);
            let middle = window_programme(ts.skip(at), services, 600_000);
            &&& at % 188 == 0
            &&& 0 < at <= ts.len() / 5 < at + 188
            &&& stream_programme(ts, services) == if middle is Some {
                middle
            } else {
                window_programme(ts, services, 300_000)
            }
        },
{
}

/// Packets of other streams, packets out of sync, and packets without a payload change
/// nothing.
pub proof fn other_packets_do_not_matter(state: EitState, p: Seq<u8>, services: Seq<u16>)
    requires
        !in_sync(p) || pid_of(p) != 0x12 || payload_start(p) is None,
    ensures
        state.step(p, services) == state,
{
}

/// A section that breaks off is given up: the next one that starts is looked at as if
/// nothing had been in progress.
pub proof fn a_section_that_breaks_off_is_given_up(
    section: Seq<u8>,
    n: int,
    p: PacketForm,
    tail: Seq<u8>,
    next: Seq<u8>,
    services: Seq<u16>,
)
    requires
        p.fits(),
        p.pid == 0x12,
        p.starts,
        0 < n,
        tail.len() < 256,
        p.payload == seq![tail.len() as u8] + tail + next,
        n + tail.len() < section.len(),
    ensures
        searching(section, n).step(p.bytes(), services) == EitState::start().step(
            p.bytes(),
            services,
        ),
{
    written_packet_is_read(p);
    let bytes = p.bytes();
    let start = 188 - p.payload.len();
    let payload = bytes.skip(start);
    assert(payload == p.payload);
    assert(bytes[start] == payload[0]);
    let state = searching(section, n);
    let first = start + 1 + tail.len();
    let given = bytes.subrange(start + 1, first);
    assert(state.append(given).found is None);
}

/// A packet that goes on with a section matters only where one is in progress.
pub proof fn nothing_goes_on_without_a_start(p: PacketForm, services: Seq<u16>)
    requires
        p.fits(),
        !p.starts,
    ensures
        EitState::start().step(p.bytes(), services) == EitState::start(),
{
    written_packet_is_read(p);
}

} // verus!
