//! What the pages show.
pub mod capture;
pub mod contact;
pub mod episodes;
pub mod ingest;
pub mod search;
pub mod statement;
pub mod tags;

use vstd::prelude::*;

use crate::double::{float_step, half_to_even, lemma_step_pos, round_half_to_even};
use crate::media::capture::str_opt;
use crate::text::{
    dec, padded_dec, push_dec, push_padded_dec, push_signed_dec, signed_dec, trim, trim_text,
};
use crate::ts::pts::MAX_PLAUSIBLE_PTS_MS;

verus! {

// ----------------------------------------------------------------------- times

/// A time for display: minutes and seconds, with hours where there are any.
/// Times before zero are shown as zero, times beyond a day as dashes.
pub open spec fn clock_text(ms: int) -> Seq<char> {
    let total = if ms < 0 {
        0
    } else {
        ms / 1000
    };
    let short = padded_dec((total % 3600 / 60) as nat, 2) + ":"@ + padded_dec(
        (total % 60) as nat,
        2,
    );
    if ms > MAX_PLAUSIBLE_PTS_MS {
        "--:--"@
    } else if total >= 3600 {
        padded_dec((total / 3600) as nat, 2) + ":"@ + short
    } else {
        short
    }
}

/// A time for display.
pub fn fmt_ms(ms: i64) -> (s: String)
    ensures
        s@ == clock_text(ms as int),
{
    if ms > MAX_PLAUSIBLE_PTS_MS {
        return "--:--".to_string();
    }
    let total: u64 = if ms < 0 {
        0
    } else {
        (ms / 1000) as u64
    };
    let mut s = String::new();
    if total / 3600 > 0 {
        push_padded_dec(&mut s, total / 3600, 2);
        s.append(":");
    }
    push_padded_dec(&mut s, total % 3600 / 60, 2);
    s.append(":");
    push_padded_dec(&mut s, total % 60, 2);
    assert(s@ =~= clock_text(ms as int));
    s
}

/// However damaged a timestamp, its text has five characters, or eight with hours.
pub proof fn clock_text_is_short(ms: int)
    ensures
        clock_text(ms).len() == 5 || clock_text(ms).len() == 8,
{
    reveal_strlit(":");
    reveal_strlit("--:--");
    let total = if ms < 0 {
        0
    } else {
        ms / 1000
    };
    lemma_two_digits((total % 3600 / 60) as nat);
    lemma_two_digits((total % 60) as nat);
    if ms <= MAX_PLAUSIBLE_PTS_MS {
        lemma_two_digits((total / 3600) as nat);
    }
}

proof fn lemma_two_digits(n: nat)
    requires
        n < 100,
    ensures
        padded_dec(n, 2).len() == 2,
{
    reveal_with_fuel(dec, 2);
}

/// When a caption is shown.
pub open spec fn span_text(start: int, end: int) -> Seq<char> {
    clock_text(start) + " – "@ + clock_text(end)
}

/// When a caption is shown.
pub fn fmt_span(start_ms: i64, end_ms: i64) -> (s: String)
    ensures
        s@ == span_text(start_ms as int, end_ms as int),
{
    let mut s = fmt_ms(start_ms);
    s.append(" – ");
    s.append(fmt_ms(end_ms).as_str());
    s
}

// ---------------------------------------------------------------------- titles

/// Two texts with a space between them, where neither is empty.
pub open spec fn spaced(a: Seq<char>, b: Seq<char>) -> Seq<char> {
    if a.len() == 0 {
        b
    } else if b.len() == 0 {
        a
    } else {
        a + " "@ + b
    }
}

/// A title for display: the programme, the episode number, the episode's name.
pub open spec fn full_title(title: Seq<char>, episode: Option<i64>, sub: Option<Seq<char>>) -> Seq<
    char,
> {
    let number = match episode {
        Some(n) => "#"@ + signed_dec(n as int),
        None => Seq::empty(),
    };
    let name = match sub {
        Some(s) => trim(s),
        None => Seq::empty(),
    };
    spaced(spaced(title, number), name)
}

fn push_spaced(s: &mut String, part: &str)
    ensures
        final(s)@ == spaced(old(s)@, part@),
{
    if part.is_empty() {
        assert(s@ =~= spaced(s@, part@));
        return;
    }
    if !s.as_str().is_empty() {
        s.append(" ");
    }
    s.append(part);
    assert(s@ =~= spaced(old(s)@, part@));
}

/// A title for display.
pub fn display_title(title: &str, ep: Option<i64>, sub: Option<&str>) -> (s: String)
    ensures
        s@ == full_title(title@, ep, str_opt(sub)),
{
    let mut s = title.to_string();
    let mut number = String::new();
    if let Some(n) = ep {
        number.append("#");
        push_signed_dec(&mut number, n);
        assert(number@ =~= "#"@ + signed_dec(n as int));
    }
    push_spaced(&mut s, number.as_str());
    let name = match sub {
        Some(t) => trim_text(t),
        None => String::new(),
    };
    push_spaced(&mut s, name.as_str());
    s
}

// ----------------------------------------------------------------------- sizes

/// A number as a float of double precision holds it.
pub open spec fn as_float(n: nat) -> int {
    half_to_even(n as int, float_step(n) as int) * float_step(n)
}

/// The size of a unit in bytes, and its name.
pub open spec fn size_unit(bytes: nat) -> (int, Seq<char>) {
    if bytes < 1024 {
        (1, "B"@)
    } else if bytes < 1_048_576 {
        (1024, "KiB"@)
    } else if bytes < 1_073_741_824 {
        (1_048_576, "MiB"@)
    } else {
        (1_073_741_824, "GiB"@)
    }
}

/// A number of bytes for display, with one decimal from KiB on.
pub open spec fn size_text(bytes: nat) -> Seq<char> {
    let (unit, name) = size_unit(bytes);
    let tenths = half_to_even(10 * as_float(bytes), unit);
    if unit == 1 {
        dec(bytes) + " B"@
    } else {
        dec((tenths / 10) as nat) + "."@ + dec((tenths % 10) as nat) + " "@ + name
    }
}

/// A number as a float of double precision holds it.
fn to_float(n: u64) -> (v: u128)
    ensures
        v == as_float(n as nat),
        v <= 0x2_0000_0000_0000_0000,
{
    let mut step: u128 = 1;
    let mut rest: u64 = n;
    assert(rest < 9_007_199_254_740_992 ==> float_step(rest as nat) == 1);
    while rest >= 9_007_199_254_740_992
        invariant
            step * float_step(rest as nat) == float_step(n as nat),
            1 <= step,
            step * rest <= n,
        decreases rest,
    {
        proof {
            let half = (rest / 2) as int;
            assert(float_step(rest as nat) == 2 * float_step((rest / 2) as nat));
            assert(step * (2 * float_step(half as nat)) == (step * 2) * float_step(half as nat))
                by (nonlinear_arith);
            assert((step * 2) * half <= step * rest) by (nonlinear_arith)
                requires
                    2 * half <= rest,
                    1 <= step,
            ;
            assert(step * 2 <= n) by (nonlinear_arith)
                requires
                    (step * 2) * half <= n,
                    half >= 1,
                    step >= 1,
            ;
        }
        step = step * 2;
        rest = rest / 2;
    }
    proof {
        assert(float_step(rest as nat) == 1);
        assert(step * 1 == step) by (nonlinear_arith);
        lemma_step_pos(n as nat);
    }
    let q: u128 = round_half_to_even(n as u128, step);
    proof {
        let s = step as int;
        assert((n as int / s) * s <= n) by (nonlinear_arith)
            requires
                s > 0,
                n >= 0,
        ;
        assert(q * s <= n + s) by (nonlinear_arith)
            requires
                q <= n as int / s + 1,
                (n as int / s) * s <= n,
                s > 0,
        ;
    }
    q * step
}

/// A number of bytes for display.
pub fn fmt_bytes(bytes: u64) -> (s: String)
    ensures
        s@ == size_text(bytes as nat),
{
    let mut s = String::new();
    if bytes < 1024 {
        push_dec(&mut s, bytes);
        s.append(" B");
        assert(s@ =~= size_text(bytes as nat));
        return s;
    }
    let (unit, name): (u128, &str) = if bytes < 1_048_576 {
        (1024, "KiB")
    } else if bytes < 1_073_741_824 {
        (1_048_576, "MiB")
    } else {
        (1_073_741_824, "GiB")
    };
    let tenths: u128 = round_half_to_even(10 * to_float(bytes), unit);
    proof {
        let num = 10 * as_float(bytes as nat);
        assert(half_to_even(num, unit as int) <= num / (unit as int) + 1);
        assert(num / (unit as int) <= num / 1024) by (nonlinear_arith)
            requires
                num >= 0,
                unit >= 1024,
        ;
    }
    push_dec(&mut s, (tenths / 10) as u64);
    s.append(".");
    push_dec(&mut s, (tenths % 10) as u64);
    s.append(" ");
    s.append(name);
    assert(s@ =~= size_text(bytes as nat));
    s
}

// ------------------------------------------------------------------- searching

/// Whether a character means something in a pattern of `LIKE`.
pub open spec fn is_like_special(c: char) -> bool {
    c == '\\' || c == '%' || c == '_'
}

/// A text in a pattern of `LIKE`, with a backslash before each character that
/// means something there.
pub open spec fn like_escaped(s: Seq<char>) -> Seq<char>
    decreases s.len(),
{
    if s.len() == 0 {
        Seq::empty()
    } else if is_like_special(s.last()) {
        like_escaped(s.drop_last()).push('\\').push(s.last())
    } else {
        like_escaped(s.drop_last()).push(s.last())
    }
}

/// Writes a text so that a pattern of `LIKE` takes it as it is.
pub fn like_escape(s: &str) -> (t: String)
    ensures
        t@ == like_escaped(s@),
{
    let mut t = String::new();
    for c in it: s.chars()
        invariant
            it.seq() == s@,
            t@ == like_escaped(s@.take(it.index() as int)),
    {
        assert(s@.take(it.index() + 1).drop_last() =~= s@.take(it.index() as int));
        if c == '\\' || c == '%' || c == '_' {
            t.push('\\');
        }
        t.push(c);
    }
    assert(s@.take(s@.len() as int) =~= s@);
    t
}

/// What a pattern of `LIKE` without wildcards stands for: a backslash makes the
/// next character stand for itself.  None where there is a wildcard, or a
/// backslash at the end.
pub open spec fn like_literal(p: Seq<char>) -> Option<Seq<char>>
    decreases p.len(),
{
    if p.len() == 0 {
        Some(Seq::empty())
    } else if p[0] == '\\' {
        if p.len() < 2 {
            None
        } else {
            match like_literal(p.skip(2)) {
                Some(rest) => Some(seq![p[1]] + rest),
                None => None,
            }
        }
    } else if p[0] == '%' || p[0] == '_' {
        None
    } else {
        match like_literal(p.skip(1)) {
            Some(rest) => Some(seq![p[0]] + rest),
            None => None,
        }
    }
}

/// An escaped text holds no wildcard and stands for the text itself, whatever
/// the text.
pub proof fn escaped_text_is_literal(s: Seq<char>)
    ensures
        like_literal(like_escaped(s)) == Some(s),
    decreases s.len(),
{
    if s.len() > 0 {
        lemma_escape_front(s);
        escaped_text_is_literal(s.skip(1));
        let rest = like_escaped(s.skip(1));
        assert(s =~= seq![s[0]] + s.skip(1));
        if is_like_special(s[0]) {
            let all = seq!['\\', s[0]] + rest;
            assert(all.skip(2) =~= rest);
        } else {
            let all = seq![s[0]] + rest;
            assert(all.skip(1) =~= rest);
        }
    }
}

proof fn lemma_escape_front(s: Seq<char>)
    requires
        s.len() > 0,
    ensures
        like_escaped(s) == (if is_like_special(s[0]) {
            seq!['\\', s[0]]
        } else {
            seq![s[0]]
        }) + like_escaped(s.skip(1)),
    decreases s.len(),
{
    reveal_with_fuel(like_escaped, 2);
    if s.len() == 1 {
        assert(s.skip(1) =~= Seq::empty());
        assert(s.drop_last() =~= Seq::empty());
        assert(like_escaped(s) =~= (if is_like_special(s[0]) {
            seq!['\\', s[0]]
        } else {
            seq![s[0]]
        }) + like_escaped(s.skip(1)));
    } else {
        lemma_escape_front(s.drop_last());
        assert(s.drop_last().skip(1) =~= s.skip(1).drop_last());
        assert(s.skip(1).last() == s.last());
        assert(like_escaped(s) =~= (if is_like_special(s[0]) {
            seq!['\\', s[0]]
        } else {
            seq![s[0]]
        }) + like_escaped(s.skip(1)));
    }
}

// ------------------------------------------------------------------------ laws

/// A time is shown by its minutes and seconds, with the hours before them where there are
/// any; parts of a second are dropped.  A time before zero is shown as zero, and one
/// beyond a day as dashes.
pub proof fn a_time_is_shown_by_its_parts(hours: int, minutes: int, seconds: int, rest: int)
    requires
        0 <= hours,
        0 <= minutes < 60,
        0 <= seconds < 60,
        0 <= rest < 1000,
    ensures
        ({
            let ms = ((hours * 60 + minutes) * 60 + seconds) * 1000 + rest;
            let short = padded_dec(minutes as nat, 2) + ":"@ + padded_dec(seconds as nat, 2);
            &&& ms <= 86_400_000 && hours == 0 ==> clock_text(ms) == short
            &&& ms <= 86_400_000 && hours > 0 ==> clock_text(ms) == padded_dec(hours as nat, 2)
                + ":"@ + short
            &&& ms > 86_400_000 ==> clock_text(ms) == "--:--"@
            &&& clock_text(-ms) == clock_text(0)
            &&& clock_text(0) == padded_dec(0, 2) + ":"@ + padded_dec(0, 2)
        }),
{
    let ms = ((hours * 60 + minutes) * 60 + seconds) * 1000 + rest;
    let total = ms / 1000;
    assert(total == (hours * 60 + minutes) * 60 + seconds);
    assert(total / 3600 == hours);
    assert(total % 3600 / 60 == minutes);
    assert(total % 60 == seconds);
}

/// A span is shown by its start and its end.
pub proof fn a_span_is_shown_by_its_ends(start: int, end: int)
    ensures
        span_text(start, end) == clock_text(start) + " – "@ + clock_text(end),
{
}

/// A title is shown with the number and the name of the episode behind it, one space
/// between each two; what is missing or blank leaves no trace.
pub proof fn a_title_is_shown_with_its_episode(title: Seq<char>, n: i64, sub: Seq<char>)
    requires
        title.len() > 0,
    ensures
        full_title(title, None, None) == title,
        full_title(title, Some(n), None) == title + " #"@ + signed_dec(n as int),
        trim(sub).len() > 0 ==> full_title(title, None, Some(sub)) == title + " "@ + trim(sub),
        trim(sub).len() > 0 ==> full_title(title, Some(n), Some(sub)) == title + " #"@ + signed_dec(
            n as int,
        ) + " "@ + trim(sub),
        trim(sub).len() == 0 ==> full_title(title, Some(n), Some(sub)) == full_title(
            title,
            Some(n),
            None,
        ),
{
    reveal_strlit(" ");
    reveal_strlit("#");
    reveal_strlit(" #");
    assert(" "@.len() == 1 && "#"@.len() == 1);
    assert(title + " "@ + ("#"@ + signed_dec(n as int)) =~= title + " #"@ + signed_dec(n as int));
}

/// A number of bytes is shown in the largest unit that it fills, in tenths of it, the
/// nearest tenth; bytes themselves are shown as they are.
pub proof fn a_size_is_shown_in_tenths_of_its_unit(bytes: nat)
    requires
        bytes < 9_007_199_254_740_992,
    ensures
        bytes < 1024 ==> size_text(bytes) == dec(bytes) + " B"@,
        bytes >= 1024 ==> exists|tenths: nat|
            #![trigger dec(tenths / 10)]
            {
                let (unit, name) = if bytes < 1024 * 1024 {
                    (1024int, " KiB"@)
                } else if bytes < 1024 * 1024 * 1024 {
                    (1_048_576int, " MiB"@)
                } else {
                    (1_073_741_824int, " GiB"@)
                };
                &&& -unit <= 2 * (tenths * unit - 10 * bytes) <= unit
                &&& size_text(bytes) == dec(tenths / 10) + "."@ + dec(tenths % 10) + name
            },
{
    if bytes >= 1024 {
        let (unit, name) = size_unit(bytes);
        assert(as_float(bytes) == bytes) by {
            assert(float_step(bytes) == 1);
            assert(bytes as int / 1 == bytes);
        }
        let tenths = half_to_even(10 * bytes as int, unit) as nat;
        reveal_strlit(" ");
        reveal_strlit(" KiB");
        reveal_strlit(" MiB");
        reveal_strlit(" GiB");
        reveal_strlit("KiB");
        reveal_strlit("MiB");
        reveal_strlit("GiB");
        assert(" "@ + "KiB"@ =~= " KiB"@);
        assert(" "@ + "MiB"@ =~= " MiB"@);
        assert(" "@ + "GiB"@ =~= " GiB"@);
        let spaced_name = " "@ + name;
        assert(size_text(bytes) =~= dec(tenths / 10) + "."@ + dec(tenths % 10) + spaced_name);
        if bytes < 1024 * 1024 {
            assert(-1024 <= 2 * (tenths * 1024 - 10 * bytes) <= 1024);
        } else if bytes < 1024 * 1024 * 1024 {
            assert(-1_048_576 <= 2 * (tenths * 1_048_576 - 10 * bytes) <= 1_048_576);
        } else {
            assert(-1_073_741_824 <= 2 * (tenths * 1_073_741_824 - 10 * bytes) <= 1_073_741_824);
        }
    }
}

/// Exactly the backslash and the two wildcards get a backslash before them.
pub proof fn wildcards_are_escaped(s: Seq<char>, c: char)
    ensures
        like_escaped(s.push(c)) == like_escaped(s) + (if c == '\\' || c == '%' || c == '_' {
            seq!['\\', c]
        } else {
            seq![c]
        }),
        like_escaped(Seq::empty()) == Seq::<char>::empty(),
{
    assert(s.push(c).drop_last() =~= s);
    assert(like_escaped(s.push(c)) =~= like_escaped(s) + (if c == '\\' || c == '%' || c == '_' {
        seq!['\\', c]
    } else {
        seq![c]
    }));
}

} // verus!
