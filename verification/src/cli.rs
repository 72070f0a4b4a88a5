//! The command line.
use vstd::prelude::*;

use crate::config::Config;
use crate::text::{
    padded_dec, parse_u32, push_signed_padded_dec, same_text, signed_padded_dec, small_number,
    texts,
};
use crate::ts::pts::div_toward_zero;

verus! {

/// The value that follows an option, where it is first given with one after it.
pub open spec fn value_after(args: Seq<Seq<char>>, name: Seq<char>, from: int) -> Option<Seq<char>>
    decreases args.len() - from,
{
    if 0 <= from && from + 1 < args.len() {
        if args[from] == name {
            Some(args[from + 1])
        } else {
            value_after(args, name, from + 1)
        }
    } else {
        None
    }
}

/// The value of an option.
pub fn option_value<'a>(args: &'a Vec<String>, name: &str) -> (v: Option<&'a String>)
    ensures
        match v {
            Some(s) => value_after(texts(args@), name@, 0) == Some(s@),
            None => value_after(texts(args@), name@, 0) is None,
        },
{
    let mut i: usize = 0;
    while i < args.len() && args.len() - i > 1
        invariant
            i <= args@.len(),
            value_after(texts(args@), name@, i as int) == value_after(texts(args@), name@, 0),
        decreases args@.len() - i,
    {
        if same_text(args[i].as_str(), name) {
            return Some(&args[i + 1]);
        }
        i = i + 1;
    }
    None
}

/// Whether an option is given.
pub fn has_flag(args: &Vec<String>, name: &str) -> (b: bool)
    ensures
        b == texts(args@).contains(name@),
{
    let mut i: usize = 0;
    while i < args.len()
        invariant
            i <= args@.len(),
            forall|j: int| 0 <= j < i ==> #[trigger] texts(args@)[j] != name@,
        decreases args@.len() - i,
    {
        if same_text(args[i].as_str(), name) {
            assert(texts(args@)[i as int] == name@);
            return true;
        }
        i = i + 1;
    }
    false
}

/// A setting after an option that may replace it.
pub open spec fn set_by(setting: Seq<char>, args: Seq<Seq<char>>, name: Seq<char>) -> Seq<char> {
    match value_after(args, name, 0) {
        Some(v) => v,
        None => setting,
    }
}

/// Puts what the command line says in place of settings.  A number of workers
/// that is no number is passed over.
pub fn apply_args(config: &mut Config, args: &Vec<String>)
    ensures
        final(config).paths.nas_mount@ == set_by(
            old(config).paths.nas_mount@,
            texts(args@),
            "--scan"@,
        ),
        final(config).paths.db_path@ == set_by(old(config).paths.db_path@, texts(args@), "--db"@),
        final(config).paths.cache_dir@ == set_by(
            old(config).paths.cache_dir@,
            texts(args@),
            "--cache-dir"@,
        ),
        final(config).paths.ts_glob == old(config).paths.ts_glob,
        final(config).ingest.concurrency == match value_after(
            texts(args@),
            "--concurrency"@,
            0,
        ) {
            Some(v) if small_number(v) is Some => small_number(v)->0,
            _ => old(config).ingest.concurrency as int,
        },
        final(config).ingest == (crate::config::IngestConfig {
            concurrency: final(config).ingest.concurrency,
            ..old(config).ingest
        }),
        final(config).capture == old(config).capture,
        final(config).server == old(config).server,
{
    if let Some(v) = option_value(args, "--scan") {
        config.paths.nas_mount = v.clone();
    }
    if let Some(v) = option_value(args, "--db") {
        config.paths.db_path = v.clone();
    }
    if let Some(v) = option_value(args, "--cache-dir") {
        config.paths.cache_dir = v.clone();
    }
    if let Some(v) = option_value(args, "--concurrency") {
        if let Some(n) = parse_u32(v.as_str()) {
            config.ingest.concurrency = n;
        }
    }
}

/// What is left of a division that rounds towards zero.
pub open spec fn rem_toward_zero(a: int, b: int) -> int {
    a - b * div_toward_zero(a, b)
}

/// A time in hours, minutes, seconds and hundredths; the hundredths in three
/// digits.
pub open spec fn time_text(ms: int) -> Seq<char> {
    signed_padded_dec(div_toward_zero(ms, 3_600_000), 2) + ":"@ + signed_padded_dec(
        div_toward_zero(rem_toward_zero(ms, 3_600_000), 60_000),
        2,
    ) + ":"@ + signed_padded_dec(div_toward_zero(rem_toward_zero(ms, 60_000), 1000), 2) + "."@
        + signed_padded_dec(div_toward_zero(rem_toward_zero(ms, 1000), 10), 3)
}

/// Writes a time.
pub fn format_ms(ms: i64) -> (s: String)
    ensures
        s@ == time_text(ms as int),
{
    let mut s = String::new();
    push_signed_padded_dec(&mut s, ms / 3_600_000, 2);
    s.append(":");
    push_signed_padded_dec(&mut s, (ms % 3_600_000) / 60_000, 2);
    s.append(":");
    push_signed_padded_dec(&mut s, (ms % 60_000) / 1000, 2);
    s.append(".");
    push_signed_padded_dec(&mut s, (ms % 1000) / 10, 3);
    assert(s@ =~= time_text(ms as int));
    s
}

/// The value of an option is what follows it where it is first given.
pub proof fn the_first_value_counts(
    before: Seq<Seq<char>>,
    name: Seq<char>,
    value: Seq<char>,
    after: Seq<Seq<char>>,
)
    requires
        !before.contains(name),
    ensures
        value_after(before + seq![name, value] + after, name, 0) == Some(value),
        value_after(before, name, 0) is None,
        value_after(before.push(name), name, 0) is None,
{
    lemma_value_behind(before, seq![name, value] + after, name, 0);
    let args = before + seq![name, value] + after;
    assert(args =~= before + (seq![name, value] + after));
    let k = before.len() as int;
    assert(args[k] == name && args[k + 1] == value);
    lemma_value_behind(before, Seq::empty(), name, 0);
    assert(before + Seq::empty() =~= before);
    lemma_value_behind(before, seq![name], name, 0);
    assert(before + seq![name] =~= before.push(name));
}

proof fn lemma_value_behind(before: Seq<Seq<char>>, rest: Seq<Seq<char>>, name: Seq<char>, i: int)
    requires
        !before.contains(name),
        0 <= i <= before.len(),
    ensures
        value_after(before + rest, name, i) == value_after(before + rest, name, before.len() as int),
    decreases before.len() - i,
{
    if i < before.len() {
        assert(before.contains(before[i]));
        assert((before + rest)[i] == before[i]);
        lemma_value_behind(before, rest, name, i + 1);
    }
}

/// A setting is what its option says, where it is given; else it stays.
pub proof fn options_replace_settings(setting: Seq<char>, args: Seq<Seq<char>>, name: Seq<char>)
    ensures
        value_after(args, name, 0) is Some ==> set_by(setting, args, name) == value_after(
            args,
            name,
            0,
        )->0,
        value_after(args, name, 0) is None ==> set_by(setting, args, name) == setting,
{
}

/// A time is written by its hours, minutes, seconds and hundredths.
pub proof fn a_time_is_written_by_its_parts(hours: int, minutes: int, seconds: int, rest: int)
    requires
        0 <= hours,
        0 <= minutes < 60,
        0 <= seconds < 60,
        0 <= rest < 1000,
    ensures
        time_text(((hours * 60 + minutes) * 60 + seconds) * 1000 + rest) == padded_dec(
            hours as nat,
            2,
        ) + ":"@ + padded_dec(minutes as nat, 2) + ":"@ + padded_dec(seconds as nat, 2) + "."@
            + padded_dec((rest / 10) as nat, 3),
{
    let ms = ((hours * 60 + minutes) * 60 + seconds) * 1000 + rest;
    assert(ms / 3_600_000 == hours);
    assert((ms - 3_600_000 * hours) / 60_000 == minutes);
    assert(ms / 60_000 == hours * 60 + minutes);
    assert((ms - 60_000 * (ms / 60_000)) / 1000 == seconds);
    assert(ms / 1000 == (hours * 60 + minutes) * 60 + seconds);
    assert(ms - 1000 * (ms / 1000) == rest);
}

/// A time before zero is written by the same parts, each below zero.
pub proof fn a_time_before_zero_is_written_by_its_parts(
    hours: int,
    minutes: int,
    seconds: int,
    rest: int,
)
    requires
        0 <= hours,
        0 <= minutes < 60,
        0 <= seconds < 60,
        0 <= rest < 1000,
    ensures
        time_text(-(((hours * 60 + minutes) * 60 + seconds) * 1000 + rest)) == signed_padded_dec(
            -hours,
            2,
        ) + ":"@ + signed_padded_dec(-minutes, 2) + ":"@ + signed_padded_dec(-seconds, 2) + "."@
            + signed_padded_dec(-(rest / 10), 3),
{
    let ms = ((hours * 60 + minutes) * 60 + seconds) * 1000 + rest;
    assert(ms / 3_600_000 == hours);
    assert((ms - 3_600_000 * hours) / 60_000 == minutes);
    assert(ms / 60_000 == hours * 60 + minutes);
    assert((ms - 60_000 * (ms / 60_000)) / 1000 == seconds);
    assert(ms / 1000 == (hours * 60 + minutes) * 60 + seconds);
    assert(ms - 1000 * (ms / 1000) == rest);
    assert(div_toward_zero(-ms, 3_600_000) == -hours);
    assert(rem_toward_zero(-ms, 3_600_000) == -(ms - 3_600_000 * hours));
    assert(div_toward_zero(rem_toward_zero(-ms, 3_600_000), 60_000) == -minutes);
    assert(rem_toward_zero(-ms, 60_000) == -(ms - 60_000 * (ms / 60_000)));
    assert(div_toward_zero(rem_toward_zero(-ms, 60_000), 1000) == -seconds);
    assert(rem_toward_zero(-ms, 1000) == -rest);
}

} // verus!
