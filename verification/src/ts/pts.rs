//! 33-bit presentation timestamps, unwrapped.
//!
//! MPEG-2 presentation timestamps count a 90 kHz clock in 33 bits, so the raw
//! value falls back to zero every 2^33 / 90000 s (about 26 h 30 min).  This
//! module is the one place where raw timestamps become milliseconds since the
//! first one.
use vstd::prelude::*;

verus! {

/// The modulus of a raw timestamp, in 90 kHz ticks (2^33).
pub const PTS_WRAP: u64 = 8_589_934_592;

/// The 33 bits of a raw timestamp.
pub const PTS_MASK: u64 = 8_589_934_591;

/// Half the modulus: differences above it are read as negative.
pub const PTS_HALF_WRAP: i64 = 4_294_967_296;

/// How far a timestamp may run backwards without being a discontinuity (1 s).
pub const PTS_BACKWARD_TOLERANCE: i64 = 90_000;

/// The longest forward gap that is still taken as elapsed time (3 h).
pub const PTS_FORWARD_LIMIT: i64 = 972_000_000;

/// What the timeline advances by across a discontinuity (1 s).
pub const PTS_DISCONTINUITY_ADVANCE: i64 = 90_000;

/// The latest timestamp that a caption may end at (24 h, in milliseconds).
pub const MAX_PLAUSIBLE_PTS_MS: i64 = 86_400_000;

/// Division that rounds towards zero, as the integer types divide.
pub open spec fn div_toward_zero(a: int, b: int) -> int
    recommends
        b > 0,
{
    if a >= 0 {
        a / b
    } else {
        -((-a) / b)
    }
}

/// The value of `i64` nearest to `x`.
pub open spec fn clamp_i64(x: int) -> int {
    if x > i64::MAX {
        i64::MAX as int
    } else if x < i64::MIN {
        i64::MIN as int
    } else {
        x
    }
}

/// The difference of two raw timestamps, by the shorter way round the wrap:
/// the number in `(-2^32, 2^32]` that is congruent to `raw - prev`.
pub open spec fn nearest_delta(prev: int, raw: int) -> int {
    let d = (raw - prev) % (PTS_WRAP as int);
    if d > PTS_HALF_WRAP {
        d - PTS_WRAP
    } else {
        d
    }
}

/// Whether a difference is read as elapsed time or small jitter.
pub open spec fn plausible_step(delta: int) -> bool {
    -PTS_BACKWARD_TOLERANCE <= delta <= PTS_FORWARD_LIMIT
}

/// What the timeline advances by for a difference.
pub open spec fn advance_of(delta: int) -> int {
    if plausible_step(delta) {
        delta
    } else {
        PTS_DISCONTINUITY_ADVANCE as int
    }
}

/// One normalised timestamp.
#[derive(Debug, Clone, Copy, PartialEq, Eq, Structural)]
pub struct PtsSample {
    /// Milliseconds since the epoch.
    pub ms: i64,
    /// True where the timeline was re-anchored after an implausible jump.
    pub discontinuity: bool,
}

/// What a normaliser remembers.
pub ghost struct PtsState {
    /// The 33 bits of the previous timestamp.
    pub prev: Option<int>,
    /// Ticks since the epoch.
    pub ticks: int,
    /// Jumps absorbed so far.
    pub discontinuities: nat,
}

impl PtsState {
    /// Before the first timestamp.
    pub open spec fn start() -> PtsState {
        PtsState { prev: None, ticks: 0, discontinuities: 0 }
    }

    /// With a timestamp for epoch that is not itself emitted.
    pub open spec fn from_epoch(raw: int) -> PtsState {
        PtsState { prev: Some(raw % (PTS_WRAP as int)), ticks: 0, discontinuities: 0 }
    }

    /// Whether `raw` follows the previous timestamp by an implausible step.
    pub open spec fn jumps_at(self, raw: int) -> bool {
        self.prev is Some && !plausible_step(nearest_delta(self.prev->0, raw))
    }

    /// The state after the timestamp `raw`.
    pub open spec fn push(self, raw: int) -> PtsState {
        PtsState {
            prev: Some(raw % (PTS_WRAP as int)),
            ticks: match self.prev {
                None => 0,
                Some(prev) => clamp_i64(self.ticks + advance_of(nearest_delta(prev, raw))),
            },
            discontinuities: if self.jumps_at(raw) {
                self.discontinuities + 1
            } else {
                self.discontinuities
            },
        }
    }

    /// The state after several timestamps, in stream order.
    pub open spec fn push_all(self, raws: Seq<int>) -> PtsState
        decreases raws.len(),
    {
        if raws.len() == 0 {
            self
        } else {
            self.push_all(raws.drop_last()).push(raws.last())
        }
    }

    /// Milliseconds since the epoch.
    pub open spec fn ms(self) -> int {
        div_toward_zero(self.ticks, 90)
    }
}

/// Turns raw timestamps into milliseconds.  Feed it in stream order.
#[derive(Debug)]
pub struct PtsNormalizer {
    prev_raw: Option<u64>,
    ticks: i64,
    discontinuities: u32,
}

impl View for PtsNormalizer {
    type V = PtsState;

    closed spec fn view(&self) -> PtsState {
        PtsState {
            prev: match self.prev_raw {
                None => None,
                Some(p) => Some(p as int),
            },
            ticks: self.ticks as int,
            discontinuities: self.discontinuities as nat,
        }
    }
}

impl PtsNormalizer {
    #[verifier::type_invariant]
    spec fn masked(self) -> bool {
        self.prev_raw matches Some(p) ==> p < PTS_WRAP
    }

    /// A normaliser whose epoch is the first timestamp pushed.
    pub fn new() -> (n: Self)
        ensures
            n@ == PtsState::start(),
    {
        PtsNormalizer { prev_raw: None, ticks: 0, discontinuities: 0 }
    }

    /// A normaliser whose epoch is `raw_epoch_90k`, which is not itself emitted.
    pub fn with_epoch(raw_epoch_90k: u64) -> (n: Self)
        ensures
            n@ == PtsState::from_epoch(raw_epoch_90k as int),
    {
        proof {
            lemma_low_33_bits(raw_epoch_90k);
        }
        PtsNormalizer { prev_raw: Some(raw_epoch_90k & PTS_MASK), ticks: 0, discontinuities: 0 }
    }

    /// Takes the next raw timestamp and returns its place on the timeline.
    pub fn push(&mut self, raw_pts_90k: u64) -> (sample: PtsSample)
        requires
            old(self)@.jumps_at(raw_pts_90k as int) ==> old(self)@.discontinuities < u32::MAX,
        ensures
            final(self)@ == old(self)@.push(raw_pts_90k as int),
            sample.ms == final(self)@.ms(),
            sample.discontinuity == old(self)@.jumps_at(raw_pts_90k as int),
    {
        proof {
            use_type_invariant(&*self);
            lemma_low_33_bits(raw_pts_90k);
        }
        let raw: u64 = raw_pts_90k & PTS_MASK;
        let prev: u64 = match self.prev_raw {
            None => {
                self.prev_raw = Some(raw);
                self.ticks = 0;
                return PtsSample { ms: 0, discontinuity: false };
            },
            Some(p) => p,
        };
        let diff: u64 = raw.wrapping_sub(prev);
        proof {
            lemma_low_33_bits(diff);
            lemma_masked_difference(prev as int, raw_pts_90k as int);
        }
        let mut delta: i64 = (diff & PTS_MASK) as i64;
        if delta > PTS_HALF_WRAP {
            delta = delta - 8_589_934_592;
        }
        assert(delta == nearest_delta(prev as int, raw_pts_90k as int));
        let discontinuity = !(-PTS_BACKWARD_TOLERANCE <= delta && delta <= PTS_FORWARD_LIMIT);
        let advance: i64 = if discontinuity {
            PTS_DISCONTINUITY_ADVANCE
        } else {
            delta
        };
        self.prev_raw = Some(raw);
        self.ticks = saturating_sum(self.ticks, advance);
        if discontinuity {
            self.discontinuities = self.discontinuities + 1;
        }
        PtsSample { ms: self.ticks / 90, discontinuity }
    }

    /// The number of discontinuities absorbed so far.
    pub fn discontinuities(&self) -> (count: u32)
        ensures
            count == self@.discontinuities,
    {
        self.discontinuities
    }
}

impl Default for PtsNormalizer {
    fn default() -> (n: Self)
        ensures
            n@ == PtsState::start(),
    {
        PtsNormalizer::new()
    }
}

/// The sum, held at the ends of the range.
fn saturating_sum(a: i64, b: i64) -> (sum: i64)
    ensures
        sum == clamp_i64(a + b),
{
    match a.checked_add(b) {
        Some(s) => s,
        None => if b > 0 {
            i64::MAX
        } else {
            i64::MIN
        },
    }
}

/// Whether a caption's time span can be used for seeking and display.
pub fn is_plausible_pts(start_ms: i64, end_ms: i64) -> (ok: bool)
    ensures
        ok == (0 <= start_ms < end_ms <= MAX_PLAUSIBLE_PTS_MS),
{
    start_ms >= 0 && end_ms > start_ms && end_ms <= MAX_PLAUSIBLE_PTS_MS
}

/// No single timestamp, however garbled, moves the timeline by more than the
/// forward limit.
pub proof fn step_is_bounded(state: PtsState, raw: int)
    requires
        i64::MIN <= state.ticks <= i64::MAX,
        state.prev is None ==> state.ticks == 0,
    ensures
        -PTS_FORWARD_LIMIT <= state.push(raw).ticks - state.ticks <= PTS_FORWARD_LIMIT,
        -(PTS_FORWARD_LIMIT / 90 + 1) <= state.push(raw).ms() - state.ms() <= PTS_FORWARD_LIMIT / 90
            + 1,
        i64::MIN <= state.push(raw).ticks <= i64::MAX,
{
}

/// Bits above the 33rd do not matter.
pub proof fn high_bits_are_ignored(state: PtsState, a: int, b: int)
    requires
        a % (PTS_WRAP as int) == b % (PTS_WRAP as int),
    ensures
        state.push(a) == state.push(b),
        state.jumps_at(a) == state.jumps_at(b),
{
    if state.prev is Some {
        let p = state.prev->0;
        assert((a - p) % (PTS_WRAP as int) == (b - p) % (PTS_WRAP as int));
    }
}

/// A timestamp that follows by an implausible step is counted and moves the
/// timeline by one second; any other is not counted.
pub proof fn discontinuities_are_counted(state: PtsState, raw: int)
    requires
        state.prev is Some,
        i64::MIN <= state.ticks <= i64::MAX - PTS_DISCONTINUITY_ADVANCE,
    ensures
        state.jumps_at(raw) ==> {
            &&& state.push(raw).discontinuities == state.discontinuities + 1
            &&& state.push(raw).ticks == state.ticks + PTS_DISCONTINUITY_ADVANCE
        },
        !state.jumps_at(raw) ==> state.push(raw).discontinuities == state.discontinuities,
{
}

/// Which timestamps count as jumps: those that follow the one before by more than
/// one second backwards or three hours forwards, by the shorter way round the wrap,
/// whatever came before that.
pub proof fn jumps_are_far_steps(state: PtsState, before: int, raw: int, d: int)
    requires
        d % (PTS_WRAP as int) == (raw - before) % (PTS_WRAP as int),
        -0x1_0000_0000 < d <= 0x1_0000_0000,
    ensures
        state.push(before).jumps_at(raw) <==> d < -90_000 || d > 972_000_000,
        PtsState::from_epoch(before).jumps_at(raw) <==> d < -90_000 || d > 972_000_000,
{
    let low = before % (PTS_WRAP as int);
    assert((raw - low) % (PTS_WRAP as int) == (raw - before) % (PTS_WRAP as int));
    assert(nearest_delta(low, raw) == d);
}

/// A step within these limits is taken as time elapsed; any other moves the timeline by
/// one second, and what follows goes on from the new timestamp.
pub proof fn steps_move_the_timeline(state: PtsState, before: int, raw: int, d: int)
    requires
        d % 0x2_0000_0000 == (raw - before) % 0x2_0000_0000,
        -0x1_0000_0000 < d <= 0x1_0000_0000,
        i64::MIN + 90_000 <= state.push(before).ticks <= i64::MAX - 972_000_000,
    ensures
        state.push(before).push(raw).ticks == state.push(before).ticks + (if -90_000 <= d
            <= 972_000_000 {
            d
        } else {
            90_000
        }),
        state.push(before).push(raw).prev == Some(raw % 0x2_0000_0000),
        state.prev is None ==> state.push(before).ticks == 0,
{
    let low = before % (PTS_WRAP as int);
    assert((raw - low) % (PTS_WRAP as int) == (raw - before) % (PTS_WRAP as int));
    assert(nearest_delta(low, raw) == d);
}

/// Ticks are counted in whole milliseconds, ninety to one; what is left over is dropped.
pub proof fn ninety_ticks_are_a_millisecond(state: PtsState)
    ensures
        state.ticks >= 0 ==> 90 * state.ms() <= state.ticks < 90 * state.ms() + 90,
        state.ticks <= 0 ==> 90 * state.ms() - 90 < state.ticks <= 90 * state.ms(),
{
}

/// What a normaliser makes of the timestamp at place `i` of some.
pub open spec fn sample_at(raws: Seq<int>, i: int) -> (int, bool) {
    (
        PtsState::start().push_all(raws.take(i + 1)).ms(),
        PtsState::start().push_all(raws.take(i)).jumps_at(raws[i]),
    )
}

proof fn lemma_shifted_state(a: Seq<int>, b: Seq<int>, shift: int)
    requires
        a.len() == b.len(),
        forall|i: int|
            0 <= i < a.len() ==> #[trigger] b[i] % (PTS_WRAP as int) == (a[i] + shift) % (
            PTS_WRAP as int),
    ensures
        ({
            let (x, y) = (PtsState::start().push_all(a), PtsState::start().push_all(b));
            &&& x.ticks == y.ticks
            &&& x.discontinuities == y.discontinuities
            &&& a.len() == 0 ==> x.prev is None && y.prev is None
            &&& a.len() > 0 ==> x.prev == Some(a.last() % (PTS_WRAP as int)) && y.prev == Some(
                b.last() % (PTS_WRAP as int),
            )
        }),
    decreases a.len(),
{
    if a.len() > 0 {
        let (fa, fb) = (a.drop_last(), b.drop_last());
        assert forall|i: int| 0 <= i < fa.len() implies #[trigger] fb[i] % (PTS_WRAP as int) == (
        fa[i] + shift) % (PTS_WRAP as int) by {
            assert(fb[i] == b[i]);
        }
        lemma_shifted_state(fa, fb, shift);
        if fa.len() > 0 {
            let n = a.len() as int;
            assert(fa.last() == a[n - 2] && fb.last() == b[n - 2]);
            assert(b[n - 1] % (PTS_WRAP as int) == (a[n - 1] + shift) % (PTS_WRAP as int));
            assert(b[n - 2] % (PTS_WRAP as int) == (a[n - 2] + shift) % (PTS_WRAP as int));
            lemma_shifted_delta(a[n - 2], a[n - 1], b[n - 2], b[n - 1], shift);
        }
    }
}

proof fn lemma_shifted_delta(p: int, raw: int, q: int, other: int, shift: int)
    requires
        q % (PTS_WRAP as int) == (p + shift) % (PTS_WRAP as int),
        other % (PTS_WRAP as int) == (raw + shift) % (PTS_WRAP as int),
    ensures
        nearest_delta(p % (PTS_WRAP as int), raw) == nearest_delta(q % (PTS_WRAP as int), other),
{
    let w = PTS_WRAP as int;
    assert((raw - p % w) % w == (other - q % w) % w);
}

/// Moving the clock changes nothing: where one constant is added to every
/// timestamp, in 33 bits, every sample stays what it was, and so does the number of
/// discontinuities.
pub proof fn moved_clock_gives_the_same_samples(a: Seq<int>, b: Seq<int>, shift: int)
    requires
        a.len() == b.len(),
        forall|i: int|
            0 <= i < a.len() ==> #[trigger] b[i] % (PTS_WRAP as int) == (a[i] + shift) % (
            PTS_WRAP as int),
    ensures
        forall|i: int| 0 <= i < a.len() ==> #[trigger] sample_at(a, i) == sample_at(b, i),
        PtsState::start().push_all(a).ticks == PtsState::start().push_all(b).ticks,
        PtsState::start().push_all(a).discontinuities == PtsState::start().push_all(
            b,
        ).discontinuities,
{
    lemma_shifted_state(a, b, shift);
    assert forall|i: int| 0 <= i < a.len() implies #[trigger] sample_at(a, i) == sample_at(b, i) by {
        let (pa, pb) = (a.take(i), b.take(i));
        let (na, nb) = (a.take(i + 1), b.take(i + 1));
        assert forall|k: int| 0 <= k < pa.len() implies #[trigger] pb[k] % (PTS_WRAP as int) == (
        pa[k] + shift) % (PTS_WRAP as int) by {
            assert(pb[k] == b[k]);
        }
        assert forall|k: int| 0 <= k < na.len() implies #[trigger] nb[k] % (PTS_WRAP as int) == (
        na[k] + shift) % (PTS_WRAP as int) by {
            assert(nb[k] == b[k]);
        }
        lemma_shifted_state(pa, pb, shift);
        lemma_shifted_state(na, nb, shift);
        if i > 0 {
            assert(pa.last() == a[i - 1] && pb.last() == b[i - 1]);
            assert(b[i - 1] % (PTS_WRAP as int) == (a[i - 1] + shift) % (PTS_WRAP as int));
            assert(b[i] % (PTS_WRAP as int) == (a[i] + shift) % (PTS_WRAP as int));
            lemma_shifted_delta(a[i - 1], a[i], b[i - 1], b[i], shift);
        }
    }
}

/// The shorter way round the wrap is the true difference, as long as the two
/// times are less than half a wrap apart.
pub proof fn nearest_delta_is_true_difference(earlier: int, later: int)
    requires
        -PTS_HALF_WRAP < later - earlier <= PTS_HALF_WRAP,
    ensures
        nearest_delta(earlier % (PTS_WRAP as int), later % (PTS_WRAP as int)) == later - earlier,
{
}

/// A clock read at plausible steps is recovered exactly, however often its 33
/// bits wrap: the timeline shows the time since the first reading, and no
/// discontinuity is counted.
pub proof fn wrapped_clock_is_recovered(times: Seq<int>)
    requires
        times.len() > 0,
        forall|i: int, j: int|
            #![trigger times[i], times[j]]
            0 <= i && j == i + 1 && j < times.len() ==> plausible_step(times[j] - times[i]),
        forall|i: int|
            0 <= i < times.len() ==> i64::MIN <= #[trigger] times[i] - times[0] <= i64::MAX,
    ensures
        ({
            let raws = times.map_values(|t: int| t % (PTS_WRAP as int));
            let state = PtsState::start().push_all(raws);
            &&& state.ticks == times.last() - times[0]
            &&& state.ms() == div_toward_zero(times.last() - times[0], 90)
            &&& state.discontinuities == 0
            &&& state.prev == Some(times.last() % (PTS_WRAP as int))
        }),
    decreases times.len(),
{
    let raws = times.map_values(|t: int| t % (PTS_WRAP as int));
    let before = raws.drop_last();
    if times.len() == 1 {
        assert(PtsState::start().push_all(before) == PtsState::start());
    } else {
        let shorter = times.drop_last();
        wrapped_clock_is_recovered(shorter);
        assert(before =~= shorter.map_values(|t: int| t % (PTS_WRAP as int)));
        let earlier = times[times.len() - 2];
        assert(shorter.last() == earlier);
        assert(plausible_step(times.last() - earlier));
        nearest_delta_is_true_difference(earlier, times.last());
    }
}

proof fn lemma_low_33_bits(x: u64)
    ensures
        x & PTS_MASK == x % PTS_WRAP,
{
    assert(x & 8_589_934_591u64 == x % 8_589_934_592u64) by (bit_vector);
}

proof fn lemma_masked_difference(prev: int, raw: int)
    requires
        0 <= prev < PTS_WRAP,
        0 <= raw <= u64::MAX,
    ensures
        ({
            let low = raw % (PTS_WRAP as int);
            let wrapped = if low - prev < 0 {
                low - prev + 0x1_0000_0000_0000_0000int
            } else {
                low - prev
            };
            wrapped % (PTS_WRAP as int) == (raw - prev) % (PTS_WRAP as int)
        }),
{
}

/// A caption may last up to a day after the recording starts.
pub proof fn a_caption_may_end_within_a_day(start: i64, end: i64)
    ensures
        0 <= start < end <= MAX_PLAUSIBLE_PTS_MS <==> 0 <= start < end <= 24 * 60 * 60 * 1000,
{
}

} // verus!
