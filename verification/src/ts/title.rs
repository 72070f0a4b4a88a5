//! What a programme's title says: the series, the episode and its name.
use vstd::prelude::*;
use vstd::slice::slice_subrange;
use vstd::utf8::encode_utf8;

use crate::text::{
    all_white, chars_of, is_white, string_of, trim, trim_chars, trim_is_idempotent,
    trimmed_ends_are_not_white, trimmed_text_has_white_around, trimming_takes_off_white_ends,
};

verus! {

// ----------------------------------------------------------------------- icons

/// The squared letters that broadcasters put in titles as icons.
pub open spec fn is_icon(c: char) -> bool {
    '\u{1F100}' <= c <= '\u{1F2FF}'
}

/// A text without icons.
pub open spec fn without_icons(s: Seq<char>) -> Seq<char> {
    s.filter(|c: char| !is_icon(c))
}

/// Takes the icons out of a text.
pub fn strip_arib_icons(s: &str) -> (t: String)
    ensures
        t@ == without_icons(s@),
{
    let mut t = String::new();
    let ghost keep = |c: char| !is_icon(c);
    reveal(Seq::filter);
    for c in it: s.chars()
        invariant
            it.seq() == s@,
            keep == (|c: char| !is_icon(c)),
            t@ == s@.take(it.index() as int).filter(keep),
    {
        reveal(Seq::filter);
        assert(s@.take(it.index() + 1).drop_last() =~= s@.take(it.index() as int));
        if !('\u{1F100}' <= c && c <= '\u{1F2FF}') {
            t.push(c);
        }
    }
    assert(s@.take(s@.len() as int) =~= s@);
    t
}

// ----------------------------------------------------------------------- flags

/// The place of the last opening bracket.
pub open spec fn last_bracket(s: Seq<char>) -> Option<int>
    decreases s.len(),
{
    if s.len() == 0 {
        None
    } else if s.last() == '[' {
        Some(s.len() - 1)
    } else {
        last_bracket(s.drop_last())
    }
}

pub proof fn lemma_last_bracket(s: Seq<char>)
    ensures
        match last_bracket(s) {
            Some(k) => 0 <= k < s.len() && s[k] == '[' && forall|j: int|
                k < j < s.len() ==> s[j] != '[',
            None => !s.contains('['),
        },
    decreases s.len(),
{
    if s.len() > 0 && s.last() != '[' {
        lemma_last_bracket(s.drop_last());
        assert(forall|j: int| 0 <= j < s.len() - 1 ==> s[j] == #[trigger] s.drop_last()[j]);
        if last_bracket(s) is Some {
            let k = last_bracket(s)->0;
            assert forall|j: int| k < j < s.len() implies s[j] != '[' by {
                if j < s.len() - 1 {
                    assert(s.drop_last()[j] != '[');
                }
            }
        } else {
            assert forall|j: int| 0 <= j < s.len() implies s[j] != '[' by {
                if j < s.len() - 1 {
                    assert(s.drop_last()[j] == s[j]);
                    assert(s.drop_last().contains(s.drop_last()[j]));
                }
            }
        }
    }
}

/// Whether a text ends with a flag in brackets.
pub open spec fn ends_with_flag(s: Seq<char>) -> bool {
    s.len() > 0 && s.last() == ']' && last_bracket(s) is Some
}

/// A title without the flags in brackets that it ends with, and without white
/// space at its ends.
pub open spec fn without_flags(s: Seq<char>) -> Seq<char>
    decreases s.len(),
    via without_flags_decreases
{
    let t = trim(s);
    if ends_with_flag(t) {
        without_flags(t.take(last_bracket(t)->0))
    } else {
        t
    }
}

#[via_fn]
proof fn without_flags_decreases(s: Seq<char>) {
    trimmed_ends_are_not_white(s);
    lemma_last_bracket(trim(s));
}

fn find_last_bracket(s: &[char]) -> (at: Option<usize>)
    ensures
        match at {
            Some(k) => last_bracket(s@) == Some(k as int) && k < s@.len(),
            None => last_bracket(s@) is None,
        },
{
    let mut i: usize = s.len();
    assert(s@.take(i as int) =~= s@);
    while i > 0
        invariant
            i <= s@.len(),
            last_bracket(s@.take(i as int)) == last_bracket(s@),
        decreases i,
    {
        assert(s@.take(i as int).drop_last() =~= s@.take(i - 1));
        if s[i - 1] == '[' {
            return Some(i - 1);
        }
        i = i - 1;
    }
    None
}

pub fn strip_flags(s: &[char]) -> (t: &[char])
    ensures
        t@ == without_flags(s@),
{
    let mut t = trim_chars(s);
    proof {
        trimmed_ends_are_not_white(s@);
    }
    while t.len() > 0 && t[t.len() - 1] == ']'
        invariant_except_break
            without_flags(s@) == (if ends_with_flag(t@) {
                without_flags(t@.take(last_bracket(t@)->0))
            } else {
                t@
            }),
        ensures
            t@ == without_flags(s@),
        decreases t@.len(),
    {
        match find_last_bracket(t) {
            None => {
                break;
            },
            Some(k) => {
                let front = slice_subrange(t, 0, k);
                assert(front@ =~= t@.take(k as int));
                proof {
                    trimmed_ends_are_not_white(front@);
                }
                t = trim_chars(front);
            },
        }
    }
    t
}

/// Takes the flags in brackets off the end of a title.
pub fn strip_broadcast_flags(s: &str) -> (t: String)
    ensures
        t@ == without_flags(s@),
{
    let chars = chars_of(s);
    string_of(strip_flags(chars.as_slice()))
}

// ---------------------------------------------------------------------- digits

/// The value of a digit, ASCII or full-width.
pub open spec fn digit_value(c: char) -> Option<int> {
    if '0' <= c <= '9' {
        Some(c as u32 - '0' as u32)
    } else if '\u{FF10}' <= c <= '\u{FF19}' {
        Some(c as u32 - 0xFF10)
    } else {
        None
    }
}

/// Reads digits from `at` on, after a value so far: the value, and where the
/// reading stops.  A digit that takes the value past 9999 counts, but is not
/// read past.
pub open spec fn digits_from(s: Seq<char>, at: int, value: int) -> (int, int)
    decreases s.len() - at,
{
    if 0 <= at < s.len() && digit_value(s[at]) is Some {
        let next = value * 10 + digit_value(s[at])->0;
        if next > 9999 {
            (next, at)
        } else {
            digits_from(s, at + 1, next)
        }
    } else {
        (value, at)
    }
}

/// The number at a place of a text, and where it ends.
pub open spec fn number_at(s: Seq<char>, at: int) -> Option<(int, int)> {
    let (value, end) = digits_from(s, at, 0);
    if end > at && value <= u16::MAX {
        Some((value, end))
    } else {
        None
    }
}

fn read_digit(c: char) -> (d: Option<u32>)
    ensures
        match d {
            Some(n) => digit_value(c) == Some(n as int) && n <= 9,
            None => digit_value(c) is None,
        },
{
    if '0' <= c && c <= '9' {
        Some(c as u32 - '0' as u32)
    } else if '\u{FF10}' <= c && c <= '\u{FF19}' {
        Some(c as u32 - '\u{FF10}' as u32)
    } else {
        None
    }
}

/// Reads the number at a place of a text.
pub fn read_number(s: &[char], at: usize) -> (r: Option<(u16, usize)>)
    requires
        at <= s@.len(),
    ensures
        match r {
            Some((n, end)) => number_at(s@, at as int) == Some((n as int, end as int)) && at < end
                <= s@.len(),
            None => number_at(s@, at as int) is None,
        },
{
    let mut value: u32 = 0;
    let mut i: usize = at;
    while i < s.len()
        invariant_except_break
            value <= 9999,
            digits_from(s@, at as int, 0) == digits_from(s@, i as int, value as int),
        invariant
            at <= i <= s@.len(),
        ensures
            digits_from(s@, at as int, 0) == (value as int, i as int),
        decreases s@.len() - i,
    {
        match read_digit(s[i]) {
            None => {
                break;
            },
            Some(d) => {
                value = value * 10 + d;
                if value > 9999 {
                    break;
                }
                i = i + 1;
            },
        }
    }
    if i > at && value <= 65_535 {
        Some((value as u16, i))
    } else {
        None
    }
}

/// The number that a text starts with, and how many bytes its digits take.
pub fn parse_digits_at(s: &str) -> (r: Option<(u16, usize)>)
    ensures
        match number_at(s@, 0) {
            Some((value, end)) => r matches Some((n, bytes)) && n == value && bytes == encode_utf8(
                s@.take(end),
            ).len(),
            None => r is None,
        },
{
    let chars = chars_of(s);
    match read_number(chars.as_slice(), 0) {
        None => None,
        Some((n, end)) => {
            let digits = s.substring_char(0, end);
            assert(digits@ =~= s@.take(end as int));
            Some((n, digits.as_bytes().len()))
        },
    }
}

// -------------------------------------------------------------------- episodes

/// The two spaces that titles use.
pub open spec fn is_title_space(c: char) -> bool {
    c == ' ' || c == '\u{3000}'
}

/// The first place from `at` on that holds no space.
pub open spec fn skip_spaces(s: Seq<char>, at: int) -> int
    decreases s.len() - at,
{
    if 0 <= at < s.len() && is_title_space(s[at]) {
        skip_spaces(s, at + 1)
    } else {
        at
    }
}

/// The episode number at a place of a title, and where it ends: `#3`, `＃3`, or
/// `第3話` with spaces allowed around the number and the last sign optional.
pub open spec fn episode_at(s: Seq<char>, at: int) -> Option<(int, int)> {
    if s[at] == '#' || s[at] == '＃' {
        number_at(s, at + 1)
    } else if s[at] == '第' {
        match number_at(s, skip_spaces(s, at + 1)) {
            None => None,
            Some((number, end)) => {
                let next = skip_spaces(s, end);
                if next < s.len() && s[next] == '話' {
                    Some((number, next + 1))
                } else {
                    Some((number, end))
                }
            },
        }
    } else {
        None
    }
}

/// Where the first episode number from `at` on stands, the number, and where it
/// ends.
pub open spec fn first_episode(s: Seq<char>, at: int) -> Option<(int, int, int)>
    decreases s.len() - at,
{
    if 0 <= at < s.len() {
        match episode_at(s, at) {
            Some((number, end)) => Some((at, number, end)),
            None => first_episode(s, at + 1),
        }
    } else {
        None
    }
}

/// The first space from `at` on.
pub open spec fn first_space(s: Seq<char>, at: int) -> Option<int>
    decreases s.len() - at,
{
    if 0 <= at < s.len() {
        if is_title_space(s[at]) {
            Some(at)
        } else {
            first_space(s, at + 1)
        }
    } else {
        None
    }
}

/// A text, or nothing where it is empty.
pub open spec fn non_empty(s: Seq<char>) -> Option<Seq<char>> {
    if s.len() == 0 {
        None
    } else {
        Some(s)
    }
}

/// What a title says.
pub ghost struct TitleParts {
    pub series: Seq<char>,
    pub episode: Option<int>,
    pub sub_title: Option<Seq<char>>,
}

/// The parts of a title: what stands before and after its first episode number,
/// or else before and after its first space.
pub open spec fn title_parts(raw: Seq<char>) -> TitleParts {
    let title = without_flags(raw);
    match first_episode(title, 0) {
        Some((start, number, end)) => TitleParts {
            series: trim(title.take(start)),
            episode: Some(number),
            sub_title: non_empty(without_flags(title.skip(end))),
        },
        None => match first_space(title, 0) {
            Some(at) => TitleParts {
                series: title.take(at),
                episode: None,
                sub_title: non_empty(without_flags(title.skip(at))),
            },
            None => TitleParts { series: title, episode: None, sub_title: None },
        },
    }
}

pub open spec fn text_opt(s: Option<String>) -> Option<Seq<char>> {
    match s {
        Some(t) => Some(t@),
        None => None,
    }
}

fn read_skip_spaces(s: &[char], at: usize) -> (next: usize)
    requires
        at <= s@.len(),
    ensures
        next == skip_spaces(s@, at as int),
        at <= next <= s@.len(),
{
    let mut i: usize = at;
    while i < s.len() && (s[i] == ' ' || s[i] == '\u{3000}')
        invariant
            at <= i <= s@.len(),
            skip_spaces(s@, i as int) == skip_spaces(s@, at as int),
        decreases s@.len() - i,
    {
        i = i + 1;
    }
    i
}

fn read_episode_at(s: &[char], at: usize) -> (r: Option<(u16, usize)>)
    requires
        at < s@.len(),
    ensures
        match r {
            Some((n, end)) => episode_at(s@, at as int) == Some((n as int, end as int)) && at < end
                <= s@.len(),
            None => episode_at(s@, at as int) is None,
        },
{
    if s[at] == '#' || s[at] == '＃' {
        read_number(s, at + 1)
    } else if s[at] == '第' {
        match read_number(s, read_skip_spaces(s, at + 1)) {
            None => None,
            Some((number, end)) => {
                let next: usize = read_skip_spaces(s, end);
                if next < s.len() && s[next] == '話' {
                    Some((number, next + 1))
                } else {
                    Some((number, end))
                }
            },
        }
    } else {
        None
    }
}

/// What follows a place of a title, without flags, or nothing.
fn read_rest(title: &[char], at: usize) -> (rest: Option<String>)
    requires
        at <= title@.len(),
    ensures
        text_opt(rest) == non_empty(without_flags(title@.skip(at as int))),
{
    let after = slice_subrange(title, at, title.len());
    assert(after@ =~= title@.skip(at as int));
    let sub = strip_flags(after);
    if sub.len() == 0 {
        None
    } else {
        Some(string_of(sub))
    }
}

/// Takes a title apart: the series, the episode number, and the episode's name.
pub fn extract_series_episode(raw_title: &str) -> (r: (String, Option<u16>, Option<String>))
    ensures
        r.0@ == title_parts(raw_title@).series,
        match title_parts(raw_title@).episode {
            Some(n) => r.1 is Some && r.1->0 == n,
            None => r.1 is None,
        },
        text_opt(r.2) == title_parts(raw_title@).sub_title,
{
    let raw = chars_of(raw_title);
    let title = strip_flags(raw.as_slice());
    let mut i: usize = 0;
    while i < title.len()
        invariant
            i <= title@.len(),
            title@ == without_flags(raw_title@),
            first_episode(title@, i as int) == first_episode(title@, 0),
        decreases title@.len() - i,
    {
        if let Some((number, end)) = read_episode_at(title, i) {
            let front = slice_subrange(title, 0, i);
            assert(front@ =~= title@.take(i as int));
            return (string_of(trim_chars(front)), Some(number), read_rest(title, end));
        }
        i = i + 1;
    }
    let mut at: usize = 0;
    while at < title.len()
        invariant
            at <= title@.len(),
            title@ == without_flags(raw_title@),
            first_episode(title@, 0) is None,
            first_space(title@, at as int) == first_space(title@, 0),
        decreases title@.len() - at,
    {
        if title[at] == ' ' || title[at] == '\u{3000}' {
            let front = slice_subrange(title, 0, at);
            assert(front@ =~= title@.take(at as int));
            return (string_of(front), None, read_rest(title, at));
        }
        at = at + 1;
    }
    (string_of(title), None, None)
}

// ------------------------------------------------------------------------ laws

/// Without icons means without icons, and taking them out twice changes nothing.
pub proof fn icons_are_gone(s: Seq<char>)
    ensures
        forall|i: int| 0 <= i < without_icons(s).len() ==> !is_icon(#[trigger] without_icons(s)[i]),
        without_icons(without_icons(s)) == without_icons(s),
    decreases s.len(),
{
    reveal(Seq::filter);
    let keep = |c: char| !is_icon(c);
    if s.len() > 0 {
        icons_are_gone(s.drop_last());
        let front = without_icons(s.drop_last());
        if keep(s.last()) {
            assert(front.push(s.last()).drop_last() =~= front);
        }
    }
}

/// Nothing but icons goes: all other characters stay, in order.
pub proof fn only_icons_go(a: Seq<char>, c: char, b: Seq<char>)
    ensures
        without_icons(a + seq![c] + b) == without_icons(a) + (if '\u{1F100}' <= c <= '\u{1F2FF}' {
            Seq::empty()
        } else {
            seq![c]
        }) + without_icons(b),
        without_icons(Seq::empty()) == Seq::<char>::empty(),
{
    reveal_with_fuel(Seq::filter, 2);
    let keep = |c: char| !is_icon(c);
    Seq::filter_distributes_over_add(a + seq![c], b, keep);
    Seq::filter_distributes_over_add(a, seq![c], keep);
    assert(seq![c].drop_last() =~= Seq::empty());
    assert(seq![c].filter(keep) =~= if keep(c) {
        seq![c]
    } else {
        Seq::empty()
    });
}

/// A title without flags neither ends with a flag nor has white space at its
/// ends, and taking the flags off again changes nothing.
pub proof fn flags_are_gone(s: Seq<char>)
    ensures
        !ends_with_flag(without_flags(s)),
        trim(without_flags(s)) == without_flags(s),
        without_flags(without_flags(s)) == without_flags(s),
    decreases s.len(),
{
    trimmed_ends_are_not_white(s);
    lemma_last_bracket(trim(s));
    trim_is_idempotent(s);
    let t = trim(s);
    if ends_with_flag(t) {
        flags_are_gone(t.take(last_bracket(t)->0));
    }
}

proof fn lemma_bracket_is_last(s: Seq<char>, k: int)
    requires
        0 <= k < s.len(),
        s[k] == '[',
        forall|j: int| k < j < s.len() ==> s[j] != '[',
    ensures
        last_bracket(s) == Some(k),
{
    lemma_last_bracket(s);
    if last_bracket(s) is None {
        assert(s.contains(s[k]));
    }
}

/// A flag in brackets at the end of a title makes no difference, nor does white space
/// around it.
pub proof fn a_flag_makes_no_difference(title: Seq<char>, flag: Seq<char>, white: Seq<char>)
    requires
        !flag.contains('['),
        all_white(white),
    ensures
        without_flags(title + seq!['['] + flag + seq![']'] + white) == without_flags(title),
{
    let (front, back) = trimmed_text_has_white_around(title);
    let core = trim(title);
    let mark = seq!['['] + flag + seq![']'];
    let whole = title + seq!['['] + flag + seq![']'] + white;
    trimmed_ends_are_not_white(title);
    assert forall|j: int| 0 < j < mark.len() implies mark[j] != '[' by {
        if j < mark.len() - 1 {
            assert(mark[j] == flag[j - 1]);
            assert(flag.contains(flag[j - 1]));
        }
    }
    if core.len() > 0 {
        let body = core + back + mark;
        assert(whole =~= front + body + white);
        assert(body[0] == core[0] && body.last() == ']');
        trimming_takes_off_white_ends(front, body, white);
        let k = (core + back).len() as int;
        assert forall|j: int| k < j < body.len() implies body[j] != '[' by {
            assert(body[j] == mark[j - k]);
        }
        assert(body[k] == mark[0]);
        lemma_bracket_is_last(body, k);
        assert(body.take(k) =~= core + back);
        trimming_takes_off_white_ends(Seq::empty(), core, back);
        assert(Seq::<char>::empty() + core + back =~= core + back);
        assert(trim(whole) == body && ends_with_flag(body));
        assert(without_flags(whole) == without_flags(core + back));
        assert(trim(core + back) == trim(title));
        assert(without_flags(core + back) == without_flags(title));
    } else {
        assert(whole =~= (front + back) + mark + white);
        assert forall|j: int| 0 <= j < (front + back).len() implies is_white(
            #[trigger] (front + back)[j],
        ) by {
            if j < front.len() {
                assert(is_white(front[j]));
            } else {
                assert(is_white(back[j - front.len()]));
            }
        }
        assert(mark[0] == '[' && mark.last() == ']');
        trimming_takes_off_white_ends(front + back, mark, white);
        lemma_bracket_is_last(mark, 0);
        assert(mark.take(0) =~= Seq::empty());
        assert(trim(Seq::<char>::empty()) =~= Seq::empty());
        assert(without_flags(Seq::<char>::empty()) =~= Seq::empty());
        assert(core =~= Seq::empty());
        assert(trim(whole) == mark && ends_with_flag(mark));
        assert(without_flags(whole) == without_flags(mark.take(0)));
    }
}

/// A title that does not end with a closing bracket keeps all but the white space at its
/// ends.
pub proof fn a_title_without_flags_is_kept(title: Seq<char>)
    requires
        trim(title).len() > 0 ==> trim(title).last() != ']',
    ensures
        without_flags(title) == trim(title),
{
}

/// A digit of a number in a title, in narrow or in wide form.
pub ghost struct TitleDigit {
    pub value: int,
    pub wide: bool,
}

impl TitleDigit {
    pub open spec fn sign(self) -> char {
        if self.wide {
            (0xFF10 + self.value) as char
        } else {
            (0x30 + self.value) as char
        }
    }
}

pub open spec fn digits_fit(digits: Seq<TitleDigit>) -> bool {
    forall|i: int| 0 <= i < digits.len() ==> 0 <= (#[trigger] digits[i]).value <= 9
}

pub open spec fn digit_signs(digits: Seq<TitleDigit>) -> Seq<char> {
    digits.map_values(|d: TitleDigit| d.sign())
}

/// The number that digits stand for.
pub open spec fn number_of(digits: Seq<TitleDigit>) -> int
    decreases digits.len(),
{
    if digits.len() == 0 {
        0
    } else {
        10 * number_of(digits.drop_last()) + digits.last().value
    }
}

/// Whether what follows a place is no further digit.
pub open spec fn no_digit_at(s: Seq<char>, at: int) -> bool {
    at >= s.len() || !('0' <= s[at] <= '9' || '０' <= s[at] <= '９')
}

proof fn lemma_number_grows(digits: Seq<TitleDigit>, k: int)
    requires
        digits_fit(digits),
        0 <= k <= digits.len(),
    ensures
        0 <= number_of(digits.take(k)) <= number_of(digits),
    decreases digits.len() - k,
{
    if k < digits.len() {
        lemma_number_grows(digits, k + 1);
        let next = digits.take(k + 1);
        assert(next.drop_last() =~= digits.take(k));
        assert(next.last() == digits[k]);
        lemma_number_is_not_negative(digits.take(k));
    } else {
        assert(digits.take(k) =~= digits);
        lemma_number_is_not_negative(digits);
    }
}

proof fn lemma_number_is_not_negative(digits: Seq<TitleDigit>)
    requires
        digits_fit(digits),
    ensures
        number_of(digits) >= 0,
    decreases digits.len(),
{
    if digits.len() > 0 {
        let front = digits.drop_last();
        assert(forall|i: int| 0 <= i < front.len() ==> #[trigger] front[i] == digits[i]);
        lemma_number_is_not_negative(front);
    }
}

proof fn lemma_digits_read(s: Seq<char>, at: int, digits: Seq<TitleDigit>, k: int)
    requires
        digits_fit(digits),
        0 <= k <= digits.len(),
        0 <= at,
        at + digits.len() <= s.len(),
        s.subrange(at, at + digits.len()) == digit_signs(digits),
        no_digit_at(s, at + digits.len()),
        number_of(digits) <= 9999,
    ensures
        digits_from(s, at + k, number_of(digits.take(k))) == (
            number_of(digits),
            at + digits.len(),
        ),
    decreases digits.len() - k,
{
    if k < digits.len() {
        let d = digits[k];
        assert(s[at + k] == s.subrange(at, at + digits.len())[k]);
        assert(s[at + k] == d.sign());
        assert(0 <= d.value <= 9);
        let next = digits.take(k + 1);
        assert(next.drop_last() =~= digits.take(k));
        lemma_number_grows(digits, k + 1);
        lemma_digits_read(s, at, digits, k + 1);
    } else {
        assert(digits.take(k) =~= digits);
    }
}

/// A number in a title is read as it is written, in narrow or wide digits, with or
/// without zeros before it, up to 9999.
pub proof fn written_number_is_read(s: Seq<char>, at: int, digits: Seq<TitleDigit>)
    requires
        digits_fit(digits),
        digits.len() > 0,
        0 <= at,
        at + digits.len() <= s.len(),
        s.subrange(at, at + digits.len()) == digit_signs(digits),
        no_digit_at(s, at + digits.len()),
        number_of(digits) <= 9999,
    ensures
        number_at(s, at) == Some((number_of(digits), at + digits.len())),
{
    lemma_digits_read(s, at, digits, 0);
    assert(digits.take(0) =~= Seq::empty());
}

/// Of a number past 9999 five digits count, and the last of them is not read past; one
/// that 16 bits do not hold is none.
pub proof fn long_numbers_count_to_five_digits(s: Seq<char>, at: int, digits: Seq<TitleDigit>)
    requires
        digits_fit(digits),
        digits.len() == 5,
        0 <= at,
        at + 5 <= s.len(),
        s.subrange(at, at + 5) == digit_signs(digits),
        number_of(digits) > 9999,
    ensures
        number_at(s, at) == (if number_of(digits) <= 65_535 {
            Some((number_of(digits), at + 4))
        } else {
            None
        }),
{
    let signs = s.subrange(at, at + 5);
    assert forall|i: int| 0 <= i < 5 implies digit_value(#[trigger] signs[i]) == Some(
        digits[i].value,
    ) by {
        assert(0 <= digits[i].value <= 9);
        assert(signs[i] == digits[i].sign());
    }
    assert(s[at] == signs[0] && s[at + 1] == signs[1] && s[at + 2] == signs[2] && s[at + 3]
        == signs[3] && s[at + 4] == signs[4]);
    let (a, b, c, d, e) = (
        digits[0].value,
        digits[1].value,
        digits[2].value,
        digits[3].value,
        digits[4].value,
    );
    reveal_with_fuel(number_of, 6);
    assert(number_of(digits) == a * 10_000 + b * 1000 + c * 100 + d * 10 + e);
    assert(digits_from(s, at, 0) == digits_from(s, at + 1, a));
    assert(digits_from(s, at + 1, a) == digits_from(s, at + 2, a * 10 + b));
    assert(digits_from(s, at + 2, a * 10 + b) == digits_from(s, at + 3, a * 100 + b * 10 + c));
    assert(digits_from(s, at + 3, a * 100 + b * 10 + c) == digits_from(
        s,
        at + 4,
        a * 1000 + b * 100 + c * 10 + d,
    ));
}

/// Without a digit there is no number.
pub proof fn no_number_without_a_digit(s: Seq<char>, at: int)
    requires
        0 <= at,
        no_digit_at(s, at),
    ensures
        number_at(s, at) is None,
{
}

/// Whether none of the signs that a number can follow is followed by one, before a place:
/// neither by a digit, nor by spaces that a digit could stand behind.
pub open spec fn announces_nothing(s: Seq<char>, n: int) -> bool {
    forall|i: int|
        0 <= i < n && ((#[trigger] s[i]) == '#' || s[i] == '＃' || s[i] == '第') ==> no_digit_at(
            s,
            i + 1,
        ) && !(s[i] == '第' && i + 1 < s.len() && (s[i + 1] == ' ' || s[i + 1] == '\u{3000}'))
}

proof fn lemma_no_episode_before(s: Seq<char>, n: int, at: int)
    requires
        0 <= at <= n <= s.len(),
        announces_nothing(s, n),
    ensures
        first_episode(s, at) == first_episode(s, n),
    decreases n - at,
{
    if at < n {
        assert(s[at] == s[at]);
        lemma_no_episode_before(s, n, at + 1);
    }
}

proof fn lemma_spaces_skipped(s: Seq<char>, at: int, to: int)
    requires
        0 <= at <= to <= s.len(),
        forall|i: int| at <= i < to ==> (#[trigger] s[i]) == ' ' || s[i] == '\u{3000}',
        to < s.len() ==> s[to] != ' ' && s[to] != '\u{3000}',
    ensures
        skip_spaces(s, at) == to,
    decreases to - at,
{
    if at < to {
        assert(s[at] == ' ' || s[at] == '\u{3000}');
        lemma_spaces_skipped(s, at + 1, to);
    }
}

/// Whether a text is nothing but narrow and wide spaces.
pub open spec fn only_spaces(s: Seq<char>) -> bool {
    forall|i: int| 0 <= i < s.len() ==> (#[trigger] s[i]) == ' ' || s[i] == '\u{3000}'
}

/// A title with an episode number after `#` or `＃`: the series stands before it, the
/// name of the episode after it, both without white space at their ends.  Of several
/// numbers the first counts.
pub proof fn a_title_with_a_number_is_parted(
    raw: Seq<char>,
    front: Seq<char>,
    sign: char,
    digits: Seq<TitleDigit>,
    rest: Seq<char>,
)
    requires
        without_flags(raw) == front + seq![sign] + digit_signs(digits) + rest,
        announces_nothing(without_flags(raw), front.len() as int),
        sign == '#' || sign == '＃',
        digits_fit(digits),
        digits.len() > 0,
        number_of(digits) <= 9999,
        no_digit_at(rest, 0),
    ensures
        title_parts(raw).series == trim(front),
        title_parts(raw).episode == Some(number_of(digits)),
        title_parts(raw).sub_title == (if without_flags(rest).len() == 0 {
            None
        } else {
            Some(without_flags(rest))
        }),
{
    let title = without_flags(raw);
    let n = front.len() as int;
    let end = n + 1 + digits.len();
    assert(title.take(n) =~= front);
    lemma_no_episode_before(title, n, 0);
    assert(title[n] == sign);
    assert(title.subrange(n + 1, end) =~= digit_signs(digits));
    assert(end < title.len() ==> title[end] == rest[0]);
    written_number_is_read(title, n + 1, digits);
    assert(title.skip(end) =~= rest);
}

/// A title with an episode number of the form `第3話`, with or without spaces around the
/// number, and with or without the last sign.
pub proof fn a_title_with_a_counted_episode_is_parted(
    raw: Seq<char>,
    front: Seq<char>,
    before: Seq<char>,
    digits: Seq<TitleDigit>,
    after: Seq<char>,
    closed: bool,
    rest: Seq<char>,
)
    requires
        without_flags(raw) == front + seq!['第'] + before + digit_signs(digits) + (if closed {
            after + seq!['話']
        } else {
            after
        }) + rest,
        announces_nothing(without_flags(raw), front.len() as int),
        only_spaces(before),
        only_spaces(after),
        digits_fit(digits),
        digits.len() > 0,
        number_of(digits) <= 9999,
        !closed ==> rest.len() == 0 || !(rest[0] == ' ' || rest[0] == '\u{3000}' || rest[0] == '話'
            || '0' <= rest[0] <= '9' || '０' <= rest[0] <= '９'),
    ensures
        title_parts(raw).series == trim(front),
        title_parts(raw).episode == Some(number_of(digits)),
        title_parts(raw).sub_title == ({
            let name = without_flags(if closed {
                rest
            } else {
                after + rest
            });
            if name.len() == 0 {
                None
            } else {
                Some(name)
            }
        }),
{
    let title = without_flags(raw);
    let n = front.len() as int;
    let at = n + 1 + before.len();
    let end = at + digits.len();
    let next = end + after.len();
    assert(title.take(n) =~= front);
    lemma_no_episode_before(title, n, 0);
    assert(title[n] == '第');
    assert forall|i: int| n + 1 <= i < at implies (#[trigger] title[i]) == ' ' || title[i]
        == '\u{3000}' by {
        assert(title[i] == before[i - n - 1]);
    }
    assert(title.subrange(at, end) =~= digit_signs(digits));
    assert(title[at] == digit_signs(digits)[0]);
    assert(digit_signs(digits)[0] == digits[0].sign());
    assert(0 <= digits[0].value <= 9);
    lemma_spaces_skipped(title, n + 1, at);
    assert forall|i: int| end <= i < next implies (#[trigger] title[i]) == ' ' || title[i]
        == '\u{3000}' by {
        assert(title[i] == after[i - end]);
    }
    if closed {
        assert(title[next] == '話');
    } else if rest.len() > 0 {
        assert(title[next] == rest[0]);
    }
    if after.len() > 0 {
        assert(title[end] == ' ' || title[end] == '\u{3000}');
    }
    assert(no_digit_at(title, end));
    written_number_is_read(title, at, digits);
    lemma_spaces_skipped(title, end, next);
    if closed {
        assert(title.skip(next + 1) =~= rest);
    } else {
        assert(title.skip(end) =~= after + rest);
    }
}

/// A sign that no number follows counts for nothing.
pub proof fn signs_without_a_number_count_for_nothing(s: Seq<char>)
    requires
        announces_nothing(s, s.len() as int),
    ensures
        first_episode(s, 0) is None,
{
    lemma_no_episode_before(s, s.len() as int, 0);
}

proof fn lemma_first_space(s: Seq<char>, at: int)
    requires
        0 <= at <= s.len(),
    ensures
        match first_space(s, at) {
            Some(k) => at <= k < s.len() && (s[k] == ' ' || s[k] == '\u{3000}') && forall|j: int|
                at <= j < k ==> (#[trigger] s[j]) != ' ' && s[j] != '\u{3000}',
            None => forall|j: int|
                at <= j < s.len() ==> (#[trigger] s[j]) != ' ' && s[j] != '\u{3000}',
        },
    decreases s.len() - at,
{
    if at < s.len() {
        lemma_first_space(s, at + 1);
    }
}

/// A title without an episode number: its series is the longest start of it that holds
/// neither a narrow nor a wide space, and the name of the episode is what follows, without
/// white space and flags.
pub proof fn a_title_without_a_number_is_parted_at_its_first_space(raw: Seq<char>)
    requires
        first_episode(without_flags(raw), 0) is None,
    ensures
        ({
            let title = without_flags(raw);
            let parts = title_parts(raw);
            let n = parts.series.len() as int;
            &&& parts.episode is None
            &&& parts.series.is_prefix_of(title)
            &&& forall|i: int|
                0 <= i < n ==> (#[trigger] parts.series[i]) != ' ' && parts.series[i] != '\u{3000}'
            &&& n < title.len() ==> title[n] == ' ' || title[n] == '\u{3000}'
            &&& parts.sub_title == if without_flags(title.skip(n)).len() == 0 {
                None
            } else {
                Some(without_flags(title.skip(n)))
            }
        }),
{
    let title = without_flags(raw);
    lemma_first_space(title, 0);
    if first_space(title, 0) is None {
        assert(title.skip(title.len() as int) =~= Seq::empty());
        assert(trim(Seq::<char>::empty()) =~= Seq::empty());
        assert(without_flags(Seq::<char>::empty()) =~= Seq::empty());
    }
}

/// The same, of a title in which nothing announces a number.
pub proof fn a_plain_title_is_parted_at_its_first_space(
    raw: Seq<char>,
    series: Seq<char>,
    rest: Seq<char>,
)
    requires
        without_flags(raw) == series + rest,
        announces_nothing(without_flags(raw), without_flags(raw).len() as int),
        forall|i: int| 0 <= i < series.len() ==> (#[trigger] series[i]) != ' ' && series[i] != '\u{3000}',
        rest.len() > 0 ==> rest[0] == ' ' || rest[0] == '\u{3000}',
    ensures
        title_parts(raw).series == series,
        title_parts(raw).episode is None,
        title_parts(raw).sub_title == (if without_flags(rest).len() == 0 {
            None
        } else {
            Some(without_flags(rest))
        }),
{
    let title = without_flags(raw);
    signs_without_a_number_count_for_nothing(title);
    a_title_without_a_number_is_parted_at_its_first_space(raw);
    let found = title_parts(raw).series;
    let n = found.len() as int;
    if n < series.len() {
        assert(title[n] == series[n]);
        assert(false);
    }
    if n > series.len() {
        let k = series.len() as int;
        assert(title[k] == rest[0]);
        assert(found[k] == title[k]);
        assert(false);
    }
    assert(found =~= series);
    assert(title.skip(n) =~= rest);
}

} // verus!
