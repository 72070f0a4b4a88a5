//! Which frames of a recording show a caption.
//!
//! A recording is decoded from six seconds before the caption; the frames are
//! spread evenly over the time from one and a half seconds into the caption to
//! its end.  Times are in seconds, as numbers of double precision.
use vstd::arithmetic::power2::pow2;
use vstd::prelude::*;

use crate::double::{
    common_factors_cancel, float_step, nearest, one, one_is_large, product, quotient,
    rounding_error, rounding_is_close, rounding_is_idempotent, rounding_keeps_the_order,
    small_numbers_are_exact, step_is_a_small_part, sum, to_u64, whole, whole_numbers_are_near,
    working_with_whole_numbers, Double,
};
use crate::ts::pts::MAX_PLAUSIBLE_PTS_MS;

verus! {

/// The frame rate of the recordings, as a fraction.
pub const FPS_NUM: u32 = 30_000;

pub const FPS_DEN: u32 = 1001;

/// A time in milliseconds, or a day where it is later.
pub open spec fn held(ms: int) -> int {
    if ms < MAX_PLAUSIBLE_PTS_MS {
        ms
    } else {
        MAX_PLAUSIBLE_PTS_MS as int
    }
}

/// A number, or zero where it is negative.
pub open spec fn not_negative(v: int) -> int {
    if v < 0 {
        0
    } else {
        v
    }
}

/// The seconds in some milliseconds.
pub open spec fn seconds(ms: int) -> int {
    quotient(whole(ms), whole(1000))
}

/// Where decoding starts.
pub open spec fn pre_seek(start: int) -> int {
    not_negative(sum(seconds(held(start)), -whole(6)))
}

/// When the first frame is taken.
pub open spec fn window_start(start: int) -> int {
    sum(seconds(held(start)), 3 * one() / 2)
}

/// When the last frame is taken.
pub open spec fn window_end(start: int, end: int) -> int {
    if seconds(held(end)) > window_start(start) {
        seconds(held(end))
    } else {
        sum(window_start(start), one() / 2)
    }
}

fn seconds_of(ms: i64) -> (s: Double)
    ensures
        s@ == seconds(held(ms as int)),
        s.within(-194, 138),
{
    let ms_held: i64 = if ms < MAX_PLAUSIBLE_PTS_MS {
        ms
    } else {
        MAX_PLAUSIBLE_PTS_MS
    };
    let thousand = Double::whole(1000);
    let all = Double::whole(ms_held);
    proof {
        working_with_whole_numbers(0, 1000);
        thousand.lemma_within(-52, 76, -60, 80);
        all.lemma_within(-52, 76, -520, 650);
        assert(all.within(-52, 76) && thousand.within(-52, 76));
    }
    all.over(&thousand)
}

/// The times of a caption's frames, in seconds: where decoding starts, and when the
/// first and the last frame are taken.  Times beyond a day are taken as a day, so
/// that a damaged timestamp cannot ask for a place past the end of the file.
pub fn caption_window(pts_start_ms: i64, pts_end_ms: i64) -> (w: (Double, Double, Double))
    ensures
        w.0@ == pre_seek(pts_start_ms as int),
        w.1@ == window_start(pts_start_ms as int),
        w.2@ == window_end(pts_start_ms as int, pts_end_ms as int),
        w.0.within(-298, 290),
        w.1.within(-298, 290),
        w.2.within(-298, 290),
{
    let start = seconds_of(pts_start_ms);
    let end = seconds_of(pts_end_ms);
    let six = Double::whole(6);
    let late = Double::halves(3);
    proof {
        six.lemma_within(-52, 76, -194, 138);
        late.lemma_within(-53, 75, -194, 138);
        start.lemma_within(-194, 138, -900, 820);
        six.lemma_within(-52, 76, -900, 820);
        late.lemma_within(-53, 75, -900, 820);
        assert(start.within(-194, 138) && six.within(-194, 138) && late.within(-194, 138));
    }
    let before = start.minus(&six);
    let pre = before.at_least_zero();
    let first = start.plus(&late);
    proof {
        before.lemma_within(-246, 214, -298, 290);
        assert(pre.within(-298, 290));
        first.lemma_within(-246, 214, -298, 290);
        end.lemma_within(-194, 138, -298, 290);
    }
    let last = if end.is_above(&first) {
        end
    } else {
        let half = Double::halves(1);
        proof {
            half.lemma_within(-53, 75, -246, 214);
            first.lemma_within(-246, 214, -900, 820);
            half.lemma_within(-53, 75, -900, 820);
            assert(first.within(-246, 214) && half.within(-246, 214));
        }
        first.plus(&half)
    };
    (pre, first, last)
}

/// The time of the frame `k` of `count`.
pub open spec fn sample_time(first: int, last: int, k: int, count: int) -> int {
    if count <= 1 {
        first
    } else {
        sum(first, quotient(product(whole(k), sum(last, -first)), whole(count - 1)))
    }
}

fn time_of_sample(first: &Double, last: &Double, k: u32, count: u32) -> (t: Double)
    requires
        first.within(-298, 290),
        last.within(-298, 290),
    ensures
        t@ == sample_time(first@, last@, k as int, count as int),
        t.within(-596, 656),
{
    if count <= 1 {
        proof {
            first.lemma_within(-298, 290, -596, 656);
        }
        return *first;
    }
    proof {
        first.lemma_within(-298, 290, -900, 820);
        last.lemma_within(-298, 290, -900, 820);
        assert(last.within(-298, 290) && first.within(-298, 290));
    }
    let span = last.minus(first);
    let place = Double::whole(k as i64);
    let steps = Double::whole(count as i64 - 1);
    proof {
        span.lemma_within(-350, 366, -700, 740);
        place.lemma_within(-52, 76, -320, 150);
        assert(span.within(-350, 366) && place.within(-52, 76));
    }
    let part = span.times(&place);
    proof {
        let (a, b) = (span@, place@);
        assert(a * b == b * a) by (nonlinear_arith);
        part.lemma_within(-402, 518, -520, 650);
        steps.lemma_within(-52, 76, -60, 80);
        working_with_whole_numbers(0, count as int - 1);
        assert(part.within(-402, 518) && steps.within(-52, 76));
    }
    let since = part.over(&steps);
    proof {
        first.lemma_within(-298, 290, -544, 580);
        since.lemma_within(-544, 580, -900, 820);
        assert(first.within(-544, 580) && since.within(-544, 580));
    }
    first.plus(&since)
}

/// A frame rate.
pub open spec fn frame_rate(num: int, den: int) -> int {
    quotient(whole(num), whole(den))
}

/// The place of the frame `k` of `count` among the frames decoded: the time since
/// decoding started, in frames, rounded to the nearest whole number.  A time before
/// that gives the first frame.
pub open spec fn frame_index(start: int, end: int, k: int, count: int, num: int, den: int) -> u64 {
    let time = sample_time(window_start(start), window_end(start, end), k, count);
    to_u64(product(not_negative(sum(time, -pre_seek(start))), frame_rate(num, den)))
}

/// The places of a caption's frames among the frames decoded.
pub open spec fn frame_list(start: int, end: int, count: int, num: int, den: int) -> Seq<u64> {
    Seq::new(count as nat, |k: int| frame_index(start, end, k, count, num, den))
}

/// The frames to cut for a caption, among those decoded.
pub fn frame_indices(
    pts_start_ms: i64,
    pts_end_ms: i64,
    count: u32,
    fps_num: u32,
    fps_den: u32,
) -> (frames: Vec<u64>)
    requires
        fps_den > 0,
    ensures
        frames@ == frame_list(
            pts_start_ms as int,
            pts_end_ms as int,
            count as int,
            fps_num as int,
            fps_den as int,
        ),
{
    let (pre, first, last) = caption_window(pts_start_ms, pts_end_ms);
    let top = Double::whole(fps_num as i64);
    let bottom = Double::whole(fps_den as i64);
    proof {
        working_with_whole_numbers(0, fps_den as int);
        top.lemma_within(-52, 76, -520, 650);
        bottom.lemma_within(-52, 76, -60, 80);
        assert(top.within(-52, 76) && bottom.within(-52, 76));
    }
    let rate = top.over(&bottom);
    proof {
        rate_is_not_negative(fps_num as int, fps_den as int);
        rate.lemma_within(-194, 138, -320, 150);
        pre.lemma_within(-298, 290, -596, 656);
        pre.lemma_within(-298, 290, -900, 820);
    }
    let mut frames: Vec<u64> = Vec::new();
    let mut k: u32 = 0;
    while k < count
        invariant
            k <= count,
            pre@ == pre_seek(pts_start_ms as int),
            first@ == window_start(pts_start_ms as int),
            last@ == window_end(pts_start_ms as int, pts_end_ms as int),
            rate@ == frame_rate(fps_num as int, fps_den as int),
            rate@ >= 0,
            first.within(-298, 290),
            last.within(-298, 290),
            pre.within(-596, 656),
            pre.within(-900, 820),
            rate.within(-320, 150),
            frames@.len() == k,
            forall|j: int|
                0 <= j < k ==> #[trigger] frames@[j] == frame_index(
                    pts_start_ms as int,
                    pts_end_ms as int,
                    j,
                    count as int,
                    fps_num as int,
                    fps_den as int,
                ),
        decreases count - k,
    {
        let time = time_of_sample(&first, &last, k, count);
        proof {
            time.lemma_within(-596, 656, -900, 820);
            assert(time.within(-596, 656) && pre.within(-596, 656));
        }
        let since = time.minus(&pre);
        let shown = since.at_least_zero();
        proof {
            since.lemma_within(-648, 732, -700, 740);
            assert(shown.within(-700, 740));
        }
        let place = shown.times(&rate);
        proof {
            product_is_not_negative(shown@, rate@);
        }
        frames.push(place.rounded());
        k = k + 1;
    }
    frames
}

proof fn rate_is_not_negative(num: int, den: int)
    requires
        0 <= num <= u32::MAX,
        0 < den <= u32::MAX,
    ensures
        frame_rate(num, den) >= 0,
{
    small_numbers_are_exact(num);
    working_with_whole_numbers(whole(num), den);
    let o = one();
    assert(num * o >= 0) by (nonlinear_arith)
        requires
            num >= 0,
            o > 0,
    ;
    rounding_is_close(whole(num), den);
}

proof fn product_is_not_negative(a: int, b: int)
    requires
        a >= 0,
        b >= 0,
    ensures
        product(a, b) >= 0,
{
    small_numbers_are_exact(0);
    assert(a * b >= 0) by (nonlinear_arith)
        requires
            a >= 0,
            b >= 0,
    ;
    rounding_is_close(a * b, one());
}

/// When the frame that stands for a caption is taken.
pub open spec fn preview_target(start: int, end: int, count: int) -> int {
    sample_time(window_start(start), window_end(start, end), count / 2, count)
}

/// When the frame that stands for a caption is taken, in seconds: the time of the
/// middle one of its frames.
pub fn preview_target_sec(pts_start_ms: i64, pts_end_ms: i64, count: u32) -> (t: Double)
    ensures
        t@ == preview_target(pts_start_ms as int, pts_end_ms as int, count as int),
        can_be_written(t@),
{
    let (_, first, last) = caption_window(pts_start_ms, pts_end_ms);
    proof {
        lemma_preview_bounds(pts_start_ms as int, pts_end_ms as int, count as int);
    }
    time_of_sample(&first, &last, count / 2, count)
}

/// How long decoding goes on: to half a second after the last frame.
pub open spec fn decode_time(start: int, end: int) -> int {
    sum(sum(window_end(start, end), -pre_seek(start)), one() / 2)
}

/// Where decoding of a caption starts, and how long it goes on, in seconds.
pub fn decode_window(pts_start_ms: i64, pts_end_ms: i64) -> (w: (Double, Double))
    ensures
        w.0@ == pre_seek(pts_start_ms as int),
        w.1@ == decode_time(pts_start_ms as int, pts_end_ms as int),
        can_be_written(w.0@),
        can_be_written(w.1@),
{
    let (pre, _, last) = caption_window(pts_start_ms, pts_end_ms);
    proof {
        pre.lemma_within(-298, 290, -900, 820);
        last.lemma_within(-298, 290, -900, 820);
        assert(last.within(-298, 290) && pre.within(-298, 290));
    }
    let span = last.minus(&pre);
    let half = Double::halves(1);
    proof {
        span.lemma_within(-350, 366, -900, 820);
        half.lemma_within(-53, 75, -900, 820);
        lemma_window_bounds(pts_start_ms as int, pts_end_ms as int);
    }
    let length = span.plus(&half);
    (pre, length)
}

// ---------------------------------------------------------------------- bounds

/// Whether a number of seconds has an integral part of at most 64 bits.
pub open spec fn can_be_written(v: int) -> bool {
    -0x1_0000_0000_0000_0000 * one() < v < 0x1_0000_0000_0000_0000 * one()
}

pub open spec fn size(v: int) -> int {
    if v < 0 {
        -v
    } else {
        v
    }
}

proof fn lemma_nearest_bound(num: int, den: int)
    requires
        den > 0,
    ensures
        8 * (size(nearest(num, den)) * den) <= 9 * size(num) + 8 * den,
{
    rounding_is_close(size(num), den);
}

proof fn lemma_window_bounds(start: int, end: int)
    requires
        i64::MIN <= start <= i64::MAX,
        i64::MIN <= end <= i64::MAX,
    ensures
        size(window_start(start)) <= 0x80_0000_0000_0000 * one(),
        size(sum(window_end(start, end), -window_start(start))) <= 0x200_0000_0000_0000 * one(),
        can_be_written(pre_seek(start)),
        can_be_written(decode_time(start, end)),
{
    let o = one();
    small_numbers_are_exact(6);
    small_numbers_are_exact(1);
    lemma_seconds_bound(held(start));
    lemma_seconds_bound(held(end));
    let s = seconds(held(start));
    let ws = window_start(start);
    let we = window_end(start, end);
    let pre = pre_seek(start);
    lemma_sum_bound(s, -whole(6), 0x40_0000_0000_0006 * o, 0x80_0000_0000_0000 * o);
    lemma_sum_bound(s, 3 * o / 2, 0x40_0000_0000_0002 * o, 0x80_0000_0000_0000 * o);
    lemma_sum_bound(ws, o / 2, 0x80_0000_0000_0001 * o, 0x100_0000_0000_0000 * o);
    lemma_sum_bound(we, -ws, 0x180_0000_0000_0000 * o, 0x200_0000_0000_0000 * o);
    lemma_sum_bound(we, -pre, 0x180_0000_0000_0000 * o, 0x200_0000_0000_0000 * o);
    lemma_sum_bound(
        sum(we, -pre),
        o / 2,
        0x200_0000_0000_0001 * o,
        0x400_0000_0000_0000 * o,
    );
}

proof fn lemma_sum_bound(a: int, b: int, most: int, rounded: int)
    requires
        size(a) + size(b) <= most,
        9 * most + 8 <= 8 * rounded,
    ensures
        size(sum(a, b)) <= rounded,
{
    lemma_nearest_bound(a + b, 1);
}

proof fn lemma_seconds_bound(ms: int)
    requires
        i64::MIN <= ms <= i64::MAX,
    ensures
        size(seconds(ms)) <= 0x40_0000_0000_0000 * one(),
{
    let o = one();
    small_numbers_are_exact(1);
    working_with_whole_numbers(whole(ms), 1000);
    lemma_nearest_bound(ms * o, 1);
    lemma_nearest_bound(whole(ms), 1000);
    assert(size(ms * o) <= 0x8000_0000_0000_0000 * o) by (nonlinear_arith)
        requires
            -0x8000_0000_0000_0000 <= ms <= 0x8000_0000_0000_0000,
            o > 0,
    ;
}

proof fn lemma_preview_bounds(start: int, end: int, count: int)
    requires
        i64::MIN <= start <= i64::MAX,
        i64::MIN <= end <= i64::MAX,
        0 <= count <= u32::MAX,
    ensures
        can_be_written(preview_target(start, end, count)),
{
    let o = one();
    lemma_window_bounds(start, end);
    small_numbers_are_exact(1);
    let ws = window_start(start);
    let d = sum(window_end(start, end), -ws);
    if count > 1 {
        let n = count - 1;
        let k = count / 2;
        working_with_whole_numbers(d, k);
        let p = product(whole(k), d);
        working_with_whole_numbers(p, n);
        let q = quotient(p, whole(n));
        lemma_nearest_bound(k * d, 1);
        lemma_nearest_bound(p, n);
        assert(size(k * d) == k * size(d)) by (nonlinear_arith)
            requires
                k >= 1,
        ;
        let (sd, sp, sq) = (size(d), size(p), size(q));
        assert(sq <= 2 * sd + 3) by (nonlinear_arith)
            requires
                8 * (sp * 1) <= 9 * (k * sd) + 8 * 1,
                8 * (sq * n) <= 9 * sp + 8 * n,
                1 <= k <= n,
                sd >= 0,
                sp >= 0,
        ;
        lemma_nearest_bound(ws + q, 1);
    }
}

// ------------------------------------------------------------------------ laws

/// The window never ends before it starts; and as long as half a second can be told
/// apart at its start, it is never empty.
pub proof fn window_is_not_empty(start: int, end: int)
    ensures
        window_start(start) <= window_end(start, end),
        window_start(start) >= -4_503_599_627_370_496 * one() ==> window_start(start) < window_end(
            start,
            end,
        ),
{
    let o = one();
    small_numbers_are_exact(1);
    let ws = window_start(start);
    let late = seconds(held(start)) + 3 * o / 2;
    rounding_is_idempotent(late, 1);
    let x = ws + o / 2;
    rounding_keeps_the_order(ws, x, 1);
    window_ends_within_a_day(start, end);
    if ws >= -4_503_599_627_370_496 * o {
        lemma_half_is_seen(x);
    }
}

proof fn lemma_half_is_seen(x: int)
    requires
        -4_503_599_627_370_496 * one() < x < 4_503_599_627_370_496 * one(),
    ensures
        2 * nearest(x, 1) > 2 * x - one(),
{
    let o = one();
    let a = size(x);
    rounding_is_close(a, 1);
    assert(a / 1 == a);
    step_is_a_small_part(a as nat);
    let s = float_step(a as nat) as int;
    small_numbers_are_exact(1);
    assert(s < o || s == 1);
    one_is_large();
}

/// However damaged the timestamps, decoding starts at a time of the first day, and
/// the frames are taken no later than two seconds after it.
pub proof fn window_ends_within_a_day(start: int, end: int)
    ensures
        0 <= pre_seek(start) <= 86_400 * one(),
        window_start(start) <= 86_402 * one(),
        window_end(start, end) <= 86_402 * one(),
{
    let o = one();
    let day = MAX_PLAUSIBLE_PTS_MS as int;
    small_numbers_are_exact(day);
    small_numbers_are_exact(86_400);
    small_numbers_are_exact(86_402);
    small_numbers_are_exact(6);
    lemma_seconds_in_order(held(start), day);
    lemma_seconds_in_order(held(end), day);
    lemma_a_day_in_seconds();
    let s = seconds(held(start));
    let ws = window_start(start);
    rounding_keeps_the_order(s + -whole(6), 86_400 * o, 1);
    small_numbers_are_exact(172_803);
    let h = pow2(1073) as int;
    assert(172_803 * h == 86_400 * o + 3 * o / 2);
    rounding_keeps_the_order(s + 3 * o / 2, 172_803 * h, 1);
    rounding_keeps_the_order(ws + o / 2, 86_402 * o, 1);
}

proof fn lemma_seconds_in_order(a: int, b: int)
    requires
        a <= b,
    ensures
        seconds(a) <= seconds(b),
{
    let o = one();
    small_numbers_are_exact(1);
    assert(a * o <= b * o) by (nonlinear_arith)
        requires
            a <= b,
            o > 0,
    ;
    rounding_keeps_the_order(a * o, b * o, 1);
    working_with_whole_numbers(whole(a), 1000);
    working_with_whole_numbers(whole(b), 1000);
    rounding_keeps_the_order(whole(a), whole(b), 1000);
}

proof fn lemma_a_day_in_seconds()
    ensures
        seconds(86_400_000) == 86_400 * one(),
{
    let o = one();
    small_numbers_are_exact(86_400_000);
    small_numbers_are_exact(86_400);
    working_with_whole_numbers(whole(86_400_000), 1000);
    common_factors_cancel(86_400 * o, 1, 1000);
    assert(86_400 * o * 1000 == 86_400_000 * o);
}

/// Frames follow one another: a later one is never taken before an earlier one.
pub proof fn frames_are_in_order(
    start: int,
    end: int,
    j: int,
    k: int,
    count: int,
    num: int,
    den: int,
)
    requires
        0 <= j <= k < count <= u32::MAX,
        0 <= num <= u32::MAX,
        0 < den <= u32::MAX,
    ensures
        frame_index(start, end, j, count, num, den) <= frame_index(start, end, k, count, num, den),
{
    let (ws, we) = (window_start(start), window_end(start, end));
    let pre = pre_seek(start);
    window_is_not_empty(start, end);
    small_numbers_are_exact(0);
    let o = one();
    if count > 1 {
        let d = sum(we, -ws);
        rounding_keeps_the_order(0, we + -ws, 1);
        assert(d >= 0);
        lemma_parts_in_order(d, j, k);
        let (pj, pk) = (product(whole(j), d), product(whole(k), d));
        let n = count - 1;
        working_with_whole_numbers(pj, n);
        working_with_whole_numbers(pk, n);
        rounding_keeps_the_order(pj, pk, n);
        rounding_keeps_the_order(
            ws + quotient(pj, whole(n)),
            ws + quotient(pk, whole(n)),
            1,
        );
    }
    let (tj, tk) = (sample_time(ws, we, j, count), sample_time(ws, we, k, count));
    assert(tj <= tk);
    rounding_keeps_the_order(tj + -pre, tk + -pre, 1);
    let (a, b) = (not_negative(sum(tj, -pre)), not_negative(sum(tk, -pre)));
    rate_is_not_negative(num, den);
    let r = frame_rate(num, den);
    assert(a * r <= b * r) by (nonlinear_arith)
        requires
            a <= b,
            r >= 0,
    ;
    rounding_keeps_the_order(a * r, b * r, o);
    let (x, y) = (product(a, r), product(b, r));
    assert((2 * x + o) / (2 * o) <= (2 * y + o) / (2 * o)) by (nonlinear_arith)
        requires
            x <= y,
            o > 0,
    ;
    product_is_not_negative(a, r);
    assert((2 * x + o) / (2 * o) >= 0) by (nonlinear_arith)
        requires
            x >= 0,
            o > 0,
    ;
}

proof fn lemma_parts_in_order(d: int, j: int, k: int)
    requires
        d >= 0,
        0 <= j <= k <= u32::MAX,
    ensures
        0 <= product(whole(j), d) <= product(whole(k), d),
{
    if k > 0 {
        working_with_whole_numbers(d, k);
        assert(0 <= k * d) by (nonlinear_arith)
            requires
                d >= 0,
                k >= 0,
        ;
        rounding_is_close(k * d, 1);
        if j > 0 {
            working_with_whole_numbers(d, j);
            assert(0 <= j * d <= k * d) by (nonlinear_arith)
                requires
                    d >= 0,
                    0 <= j <= k,
            ;
            rounding_is_close(j * d, 1);
            rounding_keeps_the_order(j * d, k * d, 1);
        }
    } else {
        working_with_whole_numbers(d, 1);
    }
}

/// The first frame is taken where the window starts.
pub proof fn the_first_frame_opens_the_window(start: int, end: int, count: int)
    requires
        count <= u32::MAX,
    ensures
        sample_time(window_start(start), window_end(start, end), 0, count) == window_start(start),
{
    if count > 1 {
        let (ws, we) = (window_start(start), window_end(start, end));
        working_with_whole_numbers(sum(we, -ws), count - 1);
        working_with_whole_numbers(0, count - 1);
        small_numbers_are_exact(0);
        assert(nearest(0, count - 1) == 0) by {
            common_factors_cancel(0, 1, count - 1);
            assert(0 * (count - 1) == 0 && 1 * (count - 1) == count - 1) by (nonlinear_arith);
            assert(0 * one() == 0) by (nonlinear_arith);
        }
        rounding_is_idempotent(seconds(held(start)) + 3 * one() / 2, 1);
    }
}

/// Frames are spread evenly over the window: for a caption that starts no earlier than
/// a day before the recording, each is taken within a millionth of a second of its even
/// place between the start and the end of the window.
pub proof fn frames_are_spread_evenly(start: int, end: int, k: int, count: int)
    requires
        -86_400_000 <= start,
        0 <= k < count <= u32::MAX,
        count > 1,
    ensures
        ({
            let (ws, we) = (window_start(start), window_end(start, end));
            let n = count - 1;
            let off = n * sample_time(ws, we, k, count) - (n * ws + k * (we - ws));
            -n * one() <= 1_000_000 * off <= n * one()
        }),
{
    let o = one();
    one_is_large();
    let (ws, we) = (window_start(start), window_end(start, end));
    let n = count - 1;
    window_ends_within_a_day(start, end);
    window_is_not_empty(start, end);
    lemma_window_starts_late(start);
    if k == 0 {
        the_first_frame_opens_the_window(start, end, count);
        assert(0 * (we - ws) == 0 && -n * o <= 0 <= n * o) by (nonlinear_arith)
            requires
                n > 0,
                o > 0,
        ;
    } else {
        let m = 262_144 * o;
        let d = sum(we, -ws);
        rounding_error(we + -ws, 1);
        assert(size(d) <= 2 * m);
        working_with_whole_numbers(d, k);
        let p = product(whole(k), d);
        rounding_error(k * d, 1);
        working_with_whole_numbers(p, n);
        let q = quotient(p, whole(n));
        rounding_error(p, n);
        lemma_part_bounds(m, d, p, q, k, n);
        rounding_error(ws + q, 1);
        let t = sum(ws, q);
        lemma_small_errors(o, ws, we, d, p, q, t, k, n);
    }
}

proof fn lemma_window_starts_late(start: int)
    requires
        -86_400_000 <= start,
    ensures
        window_start(start) >= -86_400 * one(),
{
    let o = one();
    small_numbers_are_exact(-86_400_000);
    small_numbers_are_exact(86_400_000);
    small_numbers_are_exact(-86_400);
    lemma_a_day_in_seconds();
    working_with_whole_numbers(whole(86_400_000), 1000);
    working_with_whole_numbers(whole(-86_400_000), 1000);
    lemma_seconds_in_order(-86_400_000, held(start));
    assert(seconds(-86_400_000) == -86_400 * o);
    rounding_keeps_the_order(-86_400 * o, seconds(held(start)) + 3 * o / 2, 1);
}

proof fn lemma_part_bounds(m: int, d: int, p: int, q: int, k: int, n: int)
    requires
        m > 0x1_0000_0000_0000_0000,
        1 <= k <= n,
        size(d) <= 2 * m,
        9_007_199_254_740_992 * size(p - k * d) <= size(k * d) + 9_007_199_254_740_992,
        9_007_199_254_740_992 * size(q * n - p) <= size(p) + 9_007_199_254_740_992 * n,
    ensures
        size(k * d) <= 2 * (n * m),
        size(p) <= 4 * (n * m),
        size(q) <= 8 * m,
{
    assert(size(k * d) <= 2 * (n * m)) by (nonlinear_arith)
        requires
            1 <= k <= n,
            size(d) <= 2 * m,
            m > 0,
    ;
    assert(n * m >= m) by (nonlinear_arith)
        requires
            n >= 1,
            m > 0,
    ;
    assert(n * m >= n * 0x1_0000_0000_0000_0000) by (nonlinear_arith)
        requires
            n >= 1,
            m > 0x1_0000_0000_0000_0000,
    ;
    assert(size(q * n) <= 8 * (n * m));
    assert(size(q) <= 8 * m) by (nonlinear_arith)
        requires
            size(q * n) <= 8 * (n * m),
            n >= 1,
    ;
}

proof fn lemma_small_errors(
    o: int,
    ws: int,
    we: int,
    d: int,
    p: int,
    q: int,
    t: int,
    k: int,
    n: int,
)
    requires
        o > 0x1_0000_0000_0000_0000,
        1 <= k <= n,
        9_007_199_254_740_992 * size(d - (we - ws)) <= 262_144 * o + 9_007_199_254_740_992,
        9_007_199_254_740_992 * size(p - k * d) <= 2 * (n * (262_144 * o)) + 9_007_199_254_740_992,
        9_007_199_254_740_992 * size(q * n - p) <= 4 * (n * (262_144 * o)) + 9_007_199_254_740_992
            * n,
        9_007_199_254_740_992 * size(t - (ws + q)) <= 10 * (262_144 * o) + 9_007_199_254_740_992,
    ensures
        -n * o <= 1_000_000 * (n * t - (n * ws + k * (we - ws))) <= n * o,
{
    let c: int = 9_007_199_254_740_992;
    let (e1, e4) = (d - (we - ws), t - (ws + q));
    let no = n * o;
    assert(n * (262_144 * o) == 262_144 * no) by (nonlinear_arith)
        requires
            no == n * o,
    ;
    assert(c * size(k * e1) <= 262_144 * no + c * n) by (nonlinear_arith)
        requires
            c * size(e1) <= 262_144 * o + c,
            1 <= k <= n,
            no == n * o,
            c > 0,
            o > 0,
    ;
    assert(c * size(n * e4) <= 10 * (262_144 * no) + c * n) by (nonlinear_arith)
        requires
            c * size(e4) <= 10 * (262_144 * o) + c,
            1 <= n,
            no == n * o,
            c > 0,
    ;
    assert(n * t - (n * ws + k * (we - ws)) == n * e4 + (q * n - p) + (p - k * d) + k * e1)
        by (nonlinear_arith)
        requires
            e1 == d - (we - ws),
            e4 == t - (ws + q),
    ;
    assert(no >= n * 0x1_0000_0000_0000_0000) by (nonlinear_arith)
        requires
            no == n * o,
            n >= 1,
            o > 0x1_0000_0000_0000_0000,
    ;
    assert(-n * o == -no) by (nonlinear_arith)
        requires
            no == n * o,
    ;
}

/// A frame that would lie before decoding starts is the first frame decoded.
pub proof fn early_frames_are_the_first(
    start: int,
    end: int,
    k: int,
    count: int,
    num: int,
    den: int,
)
    requires
        sample_time(window_start(start), window_end(start, end), k, count) <= pre_seek(start),
    ensures
        frame_index(start, end, k, count, num, den) == 0,
{
    small_numbers_are_exact(0);
    let o = one();
    let t = sample_time(window_start(start), window_end(start, end), k, count);
    rounding_keeps_the_order(t + -pre_seek(start), 0, 1);
    let r = frame_rate(num, den);
    working_with_whole_numbers(r, 1);
    assert(0 * o == 0 && 0 * r == 0) by (nonlinear_arith);
    assert((2 * 0 + o) / (2 * o) == 0) by (nonlinear_arith)
        requires
            o > 0,
    ;
}

proof fn lemma_seconds_near(ms: int)
    requires
        -86_400_000 <= ms <= 86_400_000,
    ensures
        ({
            let off = 1000 * seconds(ms) - ms * one();
            -one() <= 100_000_000 * off <= one()
        }),
        -86_401 * one() <= seconds(ms) <= 86_401 * one(),
{
    let o = one();
    one_is_large();
    small_numbers_are_exact(ms);
    working_with_whole_numbers(whole(ms), 1000);
    rounding_error(whole(ms), 1000);
    assert(-86_400_000 * o <= ms * o <= 86_400_000 * o) by (nonlinear_arith)
        requires
            -86_400_000 <= ms <= 86_400_000,
            o > 0,
    ;
}

/// A number of seconds, as milliseconds, within a hundred-thousandth of one.
pub open spec fn is_about(v: int, ms: int) -> bool {
    -one() <= 100_000 * (1000 * v - ms * one()) <= one()
}

/// Decoding starts six seconds before the caption, or at the start of the recording.
pub proof fn decoding_starts_six_seconds_before(start: int)
    requires
        -86_400_000 <= start <= 86_400_000,
    ensures
        start >= 6000 ==> is_about(pre_seek(start), start - 6000),
        start < 6000 ==> pre_seek(start) == 0,
{
    let o = one();
    one_is_large();
    lemma_seconds_near(start);
    small_numbers_are_exact(6);
    let s = seconds(start);
    assert((start - 6000) * o == start * o - 6000 * o) by (nonlinear_arith);
    rounding_error(s + -whole(6), 1);
    if start < 6000 {
        assert(start * o <= 5999 * o) by (nonlinear_arith)
            requires
                start <= 5999,
                o > 0,
        ;
        small_numbers_are_exact(0);
        rounding_keeps_the_order(s + -whole(6), 0, 1);
    } else {
        small_numbers_are_exact(0);
        assert(start * o >= 6000 * o) by (nonlinear_arith)
            requires
                start >= 6000,
                o > 0,
        ;
    }
}

/// The first frame is taken a second and a half into the caption; the last at its end, or,
/// where the caption is shorter than that, half a second after the first.
pub proof fn frames_are_taken_from_a_second_and_a_half_on(start: int, end: int)
    requires
        -86_400_000 <= start <= 86_400_000,
        -86_400_000 <= end <= 86_400_000,
    ensures
        is_about(window_start(start), start + 1500),
        end > start + 1500 ==> is_about(window_end(start, end), end),
        end < start + 1500 ==> is_about(window_end(start, end), start + 2000),
{
    let o = one();
    one_is_large();
    small_numbers_are_exact(1);
    lemma_seconds_near(start);
    lemma_seconds_near(end);
    let (s, e) = (seconds(start), seconds(end));
    let ws = window_start(start);
    assert((start + 1500) * o == start * o + 1500 * o) by (nonlinear_arith);
    assert((start + 2000) * o == start * o + 2000 * o) by (nonlinear_arith);
    rounding_error(s + 3 * o / 2, 1);
    rounding_error(ws + o / 2, 1);
    if end > start + 1500 {
        assert(end * o >= (start + 1501) * o) by (nonlinear_arith)
            requires
                end >= start + 1501,
                o > 0,
        ;
        assert((start + 1501) * o == start * o + 1501 * o) by (nonlinear_arith);
    }
    if end < start + 1500 {
        assert(end * o <= (start + 1499) * o) by (nonlinear_arith)
            requires
                end <= start + 1499,
                o > 0,
        ;
        assert((start + 1499) * o == start * o + 1499 * o) by (nonlinear_arith);
    }
}

/// Times beyond a day are taken as a day.
pub proof fn times_beyond_a_day_are_held(start: int, end: int)
    ensures
        start >= 86_400_000 ==> {
            &&& pre_seek(start) == pre_seek(86_400_000)
            &&& window_start(start) == window_start(86_400_000)
            &&& window_end(start, end) == window_end(86_400_000, end)
        },
        end >= 86_400_000 ==> window_end(start, end) == window_end(start, 86_400_000),
{
}

/// Decoding goes on to half a second after the last frame.
pub proof fn decoding_ends_half_a_second_after_the_last_frame(start: int, end: int)
    requires
        -86_400_000 <= start,
    ensures
        ({
            let off = decode_time(start, end) - (window_end(start, end) - pre_seek(start)) - one() / 2;
            -one() <= 1_000_000 * off <= one()
        }),
{
    let o = one();
    one_is_large();
    window_ends_within_a_day(start, end);
    window_is_not_empty(start, end);
    lemma_window_starts_late(start);
    let (we, pre) = (window_end(start, end), pre_seek(start));
    rounding_error(we + -pre, 1);
    rounding_error(sum(we, -pre) + o / 2, 1);
}

/// The frame that stands for a caption is the middle one.
pub proof fn the_middle_frame_stands_for_a_caption(start: int, end: int, count: int)
    ensures
        preview_target(start, end, count) == sample_time(
            window_start(start),
            window_end(start, end),
            count / 2,
            count,
        ),
{
}

/// The frames of a caption are as many as asked for, each at its own place.
pub proof fn there_are_as_many_frames_as_asked_for(
    start: int,
    end: int,
    k: int,
    count: int,
    num: int,
    den: int,
)
    requires
        0 <= k < count,
    ensures
        frame_list(start, end, count, num, den).len() == count,
        frame_list(start, end, count, num, den)[k] == frame_index(start, end, k, count, num, den),
{
}

/// A frame is the one of its time: at 30000/1001 frames a second from the start of
/// decoding on, the nearest one, but for a hundredth of a frame.
pub proof fn a_frame_is_the_nearest_to_its_time(start: int, end: int, k: int, count: int)
    requires
        -86_400_000 <= start,
        0 <= k < count <= u32::MAX,
        sample_time(window_start(start), window_end(start, end), k, count) >= pre_seek(start),
        sample_time(window_start(start), window_end(start, end), k, count) <= 131_072 * one(),
    ensures
        ({
            let since = sample_time(window_start(start), window_end(start, end), k, count)
                - pre_seek(start);
            let off = 1001 * (frame_index(start, end, k, count, 30_000, 1001) * one()) - 30_000
                * since;
            -51_051 * one() <= 100 * off <= 51_051 * one()
        }),
{
    let o = one();
    one_is_large();
    window_ends_within_a_day(start, end);
    let t = sample_time(window_start(start), window_end(start, end), k, count);
    let since = t - pre_seek(start);
    rounding_error(t + -pre_seek(start), 1);
    small_numbers_are_exact(0);
    rounding_keeps_the_order(0, t + -pre_seek(start), 1);
    let rel = not_negative(sum(t, -pre_seek(start)));
    assert(rel == sum(t, -pre_seek(start)));
    small_numbers_are_exact(30_000);
    working_with_whole_numbers(whole(30_000), 1001);
    rounding_error(whole(30_000), 1001);
    let r = frame_rate(30_000, 1001);
    assert(29 * o <= r <= 31 * o);
    product_is_not_negative(rel, r);
    assert(rel * r >= 0) by (nonlinear_arith)
        requires
            rel >= 0,
            r >= 0,
    ;
    rounding_error(rel * r, o);
    let p = product(rel, r);
    lemma_product_near(o, rel, r, p);
    whole_numbers_are_near(p);
    let n = frame_index(start, end, k, count, 30_000, 1001);
    assert(n == to_u64(p));
    let no = n * o;
    assert(-o < 2 * (no - p) <= o);
    assert(0 <= since <= 131_072 * o);
    assert(-o <= 1_000_000 * (rel - since) <= o);
    lemma_offs_add_up(o, no, p, rel, since);
}

proof fn lemma_offs_add_up(o: int, no: int, p: int, rel: int, since: int)
    requires
        o > 0,
        -o < 2 * (no - p) <= o,
        -o <= 1000 * (1001 * p - 30_000 * rel) <= o,
        -o <= 1_000_000 * (rel - since) <= o,
    ensures
        -51_051 * o <= 100 * (1001 * no - 30_000 * since) <= 51_051 * o,
{
    let off = 1001 * no - 30_000 * since;
    assert(off == 1001 * (no - p) + (1001 * p - 30_000 * rel) + 30_000 * (rel - since));
}

proof fn lemma_small_parts(o: int, oo: int, rr: int, cre: int, re: int, f: int)
    requires
        o > 0,
        oo >= 0x1_0000_0000_0000_0000 * o,
        rr <= 8_126_464 * oo,
        cre == 9_007_199_254_740_992 * re,
        -7_864_582_144 * oo <= cre <= 7_864_582_144 * oo,
        -rr - 9_007_199_254_740_992 * o <= 9_007_199_254_740_992 * f <= rr + 9_007_199_254_740_992
            * o,
    ensures
        -oo <= 1000 * (1001 * f + re) <= oo,
{
    assert(-oo <= 100_000 * re <= oo);
    assert(-oo <= 100_000_000 * f <= oo);
}

proof fn lemma_product_near(o: int, rel: int, r: int, p: int)
    requires
        o > 0x1_0000_0000_0000_0000,
        0 <= rel <= 262_144 * o,
        29 * o <= r <= 31 * o,
        -30_000 * o - 9_016_206_453_995_732_992 <= 9_007_199_254_740_992 * (r * 1001 - 30_000 * o)
            <= 30_000 * o + 9_016_206_453_995_732_992,
        -(rel * r) - 9_007_199_254_740_992 * o <= 9_007_199_254_740_992 * (p * o - rel * r) <= rel * r
            + 9_007_199_254_740_992 * o,
    ensures
        -o <= 1000 * (1001 * p - 30_000 * rel) <= o,
{
    let e = r * 1001 - 30_000 * o;
    let f = p * o - rel * r;
    let oo = o * o;
    // |e| is far below a part in 2^38 of `o`, so that rel * e is far below `oo`.
    assert(-30_001 * o <= 9_007_199_254_740_992 * e <= 30_001 * o);
    assert(rel * (9_007_199_254_740_992 * e) <= 7_864_582_144 * oo && rel * (9_007_199_254_740_992 * e) >= -7_864_582_144 * oo)
        by (nonlinear_arith)
        requires
            0 <= rel <= 262_144 * o,
            -30_001 * o <= 9_007_199_254_740_992 * e <= 30_001 * o,
            oo == o * o,
            o > 0,
    ;
    assert(rel * r <= 8_126_464 * oo) by (nonlinear_arith)
        requires
            0 <= rel <= 262_144 * o,
            0 <= r <= 31 * o,
            oo == o * o,
            o > 0,
    ;
    assert(oo >= 0x1_0000_0000_0000_0000 * o) by (nonlinear_arith)
        requires
            oo == o * o,
            o > 0x1_0000_0000_0000_0000,
    ;
    assert(rel * (9_007_199_254_740_992 * e) == 9_007_199_254_740_992 * (rel * e)) by (nonlinear_arith);
    let re = rel * e;
    let d = 1001 * p - 30_000 * rel;
    assert(d * o == 1001 * f + re) by (nonlinear_arith)
        requires
            d == 1001 * p - 30_000 * rel,
            f == p * o - rel * r,
            re == rel * e,
            e == r * 1001 - 30_000 * o,
    ;
    lemma_small_parts(o, oo, rel * r, rel * (9_007_199_254_740_992 * e), re, f);
    assert(1000 * (d * o) <= oo && 1000 * (d * o) >= -oo);
    assert(1000 * d <= o && 1000 * d >= -o) by (nonlinear_arith)
        requires
            1000 * (d * o) <= oo,
            1000 * (d * o) >= -oo,
            oo == o * o,
            o > 0,
    ;
}

} // verus!
