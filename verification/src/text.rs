//! Text: white space, trimming, numbers in decimal.
use vstd::prelude::*;
use vstd::slice::slice_subrange;

verus! {

/// `String::push` puts one character at the end.
pub assume_specification[ String::push ](s: &mut String, c: char)
    ensures
        final(s)@ == old(s)@.push(c),
;

/// The characters of a text.
pub fn chars_of(s: &str) -> (v: Vec<char>)
    ensures
        v@ == s@,
{
    let mut v: Vec<char> = Vec::new();
    for c in it: s.chars()
        invariant
            it.seq() == s@,
            v@ == s@.take(it.index() as int),
    {
        v.push(c);
        assert(s@.take(it.index() + 1) =~= s@.take(it.index() as int).push(c));
    }
    assert(s@.take(s@.len() as int) =~= s@);
    v
}

/// The text of some characters.
pub fn string_of(chars: &[char]) -> (s: String)
    ensures
        s@ == chars@,
{
    let mut s = String::new();
    let mut i: usize = 0;
    while i < chars.len()
        invariant
            i <= chars@.len(),
            s@ == chars@.take(i as int),
        decreases chars@.len() - i,
    {
        s.push(chars[i]);
        assert(chars@.take(i + 1) =~= chars@.take(i as int).push(chars@[i as int]));
        i = i + 1;
    }
    assert(chars@.take(i as int) =~= chars@);
    s
}

/// Whether two texts are the same.
pub fn same_text(a: &str, b: &str) -> (same: bool)
    ensures
        same == (a@ == b@),
{
    a.to_string() == b.to_string()
}

/// The contents of some texts.
pub open spec fn texts(v: Seq<String>) -> Seq<Seq<char>> {
    v.map_values(|s: String| s@)
}

/// Puts a text at the end of a list.
pub fn push_text(v: &mut Vec<String>, s: &str)
    ensures
        texts(final(v)@) == texts(old(v)@).push(s@),
{
    v.push(s.to_string());
    assert(texts(v@) =~= texts(old(v)@).push(s@));
}

// ------------------------------------------------------------------- splitting

/// The pieces of a text between separators; there is one more than there are
/// separators.
pub open spec fn split(s: Seq<char>, sep: char) -> Seq<Seq<char>>
    decreases s.len(),
{
    if s.len() == 0 {
        seq![Seq::empty()]
    } else {
        let before = split(s.drop_last(), sep);
        if s.last() == sep {
            before.push(Seq::empty())
        } else {
            before.drop_last().push(before.last().push(s.last()))
        }
    }
}

proof fn lemma_split_has_pieces(s: Seq<char>, sep: char)
    ensures
        split(s, sep).len() > 0,
    decreases s.len(),
{
    if s.len() > 0 {
        lemma_split_has_pieces(s.drop_last(), sep);
    }
}

/// Splits a text at a character.
pub fn split_text(s: &str, sep: char) -> (pieces: Vec<String>)
    ensures
        texts(pieces@) == split(s@, sep),
{
    let mut pieces: Vec<String> = Vec::new();
    let mut piece = String::new();
    assert(texts(pieces@).push(piece@) =~= seq![Seq::<char>::empty()]);
    assert(s@.take(0) =~= Seq::empty());
    for c in it: s.chars()
        invariant
            it.seq() == s@,
            texts(pieces@).push(piece@) == split(s@.take(it.index() as int), sep),
    {
        let ghost before = texts(pieces@).push(piece@);
        proof {
            assert(s@.take(it.index() + 1).drop_last() =~= s@.take(it.index() as int));
            assert(before.drop_last() =~= texts(pieces@));
        }
        if c == sep {
            push_text(&mut pieces, piece.as_str());
            piece = String::new();
            assert(piece@ =~= Seq::empty());
        } else {
            piece.push(c);
        }
    }
    assert(s@.take(s@.len() as int) =~= s@);
    push_text(&mut pieces, piece.as_str());
    pieces
}

/// Splitting a text at one of its separators first makes no difference.
pub proof fn split_of_two_parts(a: Seq<char>, b: Seq<char>, sep: char)
    ensures
        split(a + seq![sep] + b, sep) == split(a, sep) + split(b, sep),
    decreases b.len(),
{
    let whole = a + seq![sep] + b;
    if b.len() == 0 {
        assert(whole.drop_last() =~= a);
        assert(split(a, sep).push(Seq::empty()) =~= split(a, sep) + split(b, sep));
    } else {
        split_of_two_parts(a, b.drop_last(), sep);
        lemma_split_has_pieces(b.drop_last(), sep);
        assert(whole.drop_last() =~= a + seq![sep] + b.drop_last());
        assert(split(whole, sep) =~= split(a, sep) + split(b, sep));
    }
}

// ---------------------------------------------------------------- white space

/// The characters that Unicode counts as white space.
pub open spec fn is_white(c: char) -> bool {
    ||| '\u{9}' <= c <= '\u{d}'
    ||| c == ' '
    ||| c == '\u{85}'
    ||| c == '\u{a0}'
    ||| c == '\u{1680}'
    ||| '\u{2000}' <= c <= '\u{200a}'
    ||| c == '\u{2028}'
    ||| c == '\u{2029}'
    ||| c == '\u{202f}'
    ||| c == '\u{205f}'
    ||| c == '\u{3000}'
}

pub fn is_white_space(c: char) -> (b: bool)
    ensures
        b == is_white(c),
{
    ('\u{9}' <= c && c <= '\u{d}') || c == ' ' || c == '\u{85}' || c == '\u{a0}' || c == '\u{1680}'
        || ('\u{2000}' <= c && c <= '\u{200a}') || c == '\u{2028}' || c == '\u{2029}' || c
        == '\u{202f}' || c == '\u{205f}' || c == '\u{3000}'
}

/// A text without the white space that it starts with.
pub open spec fn trim_start(s: Seq<char>) -> Seq<char>
    decreases s.len(),
{
    if s.len() > 0 && is_white(s[0]) {
        trim_start(s.skip(1))
    } else {
        s
    }
}

/// A text without the white space that it ends with.
pub open spec fn trim_end(s: Seq<char>) -> Seq<char>
    decreases s.len(),
{
    if s.len() > 0 && is_white(s.last()) {
        trim_end(s.drop_last())
    } else {
        s
    }
}

/// A text without white space at either end.
pub open spec fn trim(s: Seq<char>) -> Seq<char> {
    trim_end(trim_start(s))
}

/// What is left of some characters without white space at either end.
pub fn trim_chars(chars: &[char]) -> (r: &[char])
    ensures
        r@ == trim(chars@),
{
    let n: usize = chars.len();
    let mut from: usize = 0;
    assert(chars@.skip(0) =~= chars@);
    while from < n && is_white_space(chars[from])
        invariant
            from <= n == chars@.len(),
            trim_start(chars@.skip(from as int)) == trim_start(chars@),
        decreases n - from,
    {
        assert(chars@.skip(from as int).skip(1) =~= chars@.skip(from + 1));
        from = from + 1;
    }
    let mut to: usize = n;
    assert(chars@.subrange(from as int, to as int) =~= chars@.skip(from as int));
    while from < to && is_white_space(chars[to - 1])
        invariant
            from <= to <= n == chars@.len(),
            trim_end(chars@.subrange(from as int, to as int)) == trim(chars@),
        decreases to,
    {
        assert(chars@.subrange(from as int, to as int).drop_last() =~= chars@.subrange(
            from as int,
            to - 1,
        ));
        to = to - 1;
    }
    slice_subrange(chars, from, to)
}

/// A text without white space at either end.
pub fn trim_text(s: &str) -> (t: String)
    ensures
        t@ == trim(s@),
{
    let chars = chars_of(s);
    string_of(trim_chars(chars.as_slice()))
}

/// What trimming leaves is part of the text, and neither starts nor ends with
/// white space.
pub proof fn trimmed_ends_are_not_white(s: Seq<char>)
    ensures
        trim(s).len() <= s.len(),
        trim(s).len() > 0 ==> !is_white(trim(s)[0]) && !is_white(trim(s).last()),
{
    lemma_trim_start(s);
    lemma_trim_end(trim_start(s));
}

proof fn lemma_trim_start(s: Seq<char>)
    ensures
        trim_start(s).len() <= s.len(),
        trim_start(s).len() > 0 ==> !is_white(trim_start(s)[0]),
    decreases s.len(),
{
    if s.len() > 0 && is_white(s[0]) {
        lemma_trim_start(s.skip(1));
    }
}

proof fn lemma_trim_end(s: Seq<char>)
    ensures
        trim_end(s).len() <= s.len(),
        trim_end(s) == s.take(trim_end(s).len() as int),
        trim_end(s).len() > 0 ==> !is_white(trim_end(s).last()),
    decreases s.len(),
{
    if s.len() > 0 && is_white(s.last()) {
        lemma_trim_end(s.drop_last());
        let t = trim_end(s);
        assert(s.drop_last().take(t.len() as int) =~= s.take(t.len() as int));
    } else {
        assert(s.take(s.len() as int) =~= s);
    }
}

/// Trimming twice is trimming once.
pub proof fn trim_is_idempotent(s: Seq<char>)
    ensures
        trim(trim(s)) == trim(s),
{
    trimmed_ends_are_not_white(s);
}

pub open spec fn all_white(s: Seq<char>) -> bool {
    forall|i: int| 0 <= i < s.len() ==> is_white(#[trigger] s[i])
}

proof fn lemma_trim_start_white(front: Seq<char>, core: Seq<char>)
    requires
        all_white(front),
        core.len() > 0 ==> !is_white(core[0]),
    ensures
        trim_start(front + core) == core,
    decreases front.len(),
{
    if front.len() > 0 {
        assert(is_white(front[0]));
        assert((front + core)[0] == front[0]);
        assert((front + core).skip(1) =~= front.skip(1) + core);
        lemma_trim_start_white(front.skip(1), core);
    } else {
        assert(front + core =~= core);
    }
}

proof fn lemma_trim_end_white(core: Seq<char>, back: Seq<char>)
    requires
        all_white(back),
        core.len() > 0 ==> !is_white(core.last()),
    ensures
        trim_end(core + back) == core,
    decreases back.len(),
{
    if back.len() > 0 {
        assert(is_white(back[back.len() - 1]));
        assert((core + back).last() == back.last());
        assert((core + back).drop_last() =~= core + back.drop_last());
        lemma_trim_end_white(core, back.drop_last());
    } else {
        assert(core + back =~= core);
    }
}

/// Trimming takes off the white space around a text, all of it and nothing else.
pub proof fn trimming_takes_off_white_ends(front: Seq<char>, core: Seq<char>, back: Seq<char>)
    requires
        all_white(front),
        all_white(back),
        core.len() > 0 ==> !is_white(core[0]) && !is_white(core.last()),
    ensures
        trim(front + core + back) == core,
{
    assert(front + core + back =~= front + (core + back));
    if core.len() > 0 {
        assert((core + back)[0] == core[0]);
        lemma_trim_start_white(front, core + back);
        lemma_trim_end_white(core, back);
    } else {
        assert(front + core + back =~= (front + back) + Seq::empty());
        lemma_trim_start_white(front + back, Seq::empty());
    }
}

/// A text is what trimming leaves of it, with white space before and after.
pub proof fn trimmed_text_has_white_around(s: Seq<char>) -> (ends: (Seq<char>, Seq<char>))
    ensures
        all_white(ends.0),
        all_white(ends.1),
        s == ends.0 + trim(s) + ends.1,
{
    let front = lemma_front_white(s);
    let back = lemma_back_white(trim_start(s));
    assert(front + (trim(s) + back) =~= front + trim(s) + back);
    (front, back)
}

proof fn lemma_front_white(s: Seq<char>) -> (front: Seq<char>)
    ensures
        all_white(front),
        s == front + trim_start(s),
    decreases s.len(),
{
    if s.len() > 0 && is_white(s[0]) {
        let front = lemma_front_white(s.skip(1));
        let whole = seq![s[0]] + front;
        assert(s =~= seq![s[0]] + s.skip(1));
        assert(seq![s[0]] + (front + trim_start(s)) =~= whole + trim_start(s));
        assert forall|i: int| 0 <= i < whole.len() implies is_white(#[trigger] whole[i]) by {
            if i > 0 {
                assert(is_white(front[i - 1]));
            }
        }
        whole
    } else {
        assert(s =~= Seq::empty() + trim_start(s));
        Seq::empty()
    }
}

proof fn lemma_back_white(s: Seq<char>) -> (back: Seq<char>)
    ensures
        all_white(back),
        s == trim_end(s) + back,
    decreases s.len(),
{
    if s.len() > 0 && is_white(s.last()) {
        let back = lemma_back_white(s.drop_last());
        let whole = back.push(s.last());
        assert(s =~= s.drop_last().push(s.last()));
        assert((trim_end(s) + back).push(s.last()) =~= trim_end(s) + whole);
        assert forall|i: int| 0 <= i < whole.len() implies is_white(#[trigger] whole[i]) by {
            if i < back.len() {
                assert(is_white(back[i]));
            }
        }
        whole
    } else {
        assert(s =~= trim_end(s) + Seq::empty());
        Seq::empty()
    }
}

// -------------------------------------------------------------------- decimals

pub open spec fn digit_char(d: int) -> char {
    if d == 0 {
        '0'
    } else if d == 1 {
        '1'
    } else if d == 2 {
        '2'
    } else if d == 3 {
        '3'
    } else if d == 4 {
        '4'
    } else if d == 5 {
        '5'
    } else if d == 6 {
        '6'
    } else if d == 7 {
        '7'
    } else if d == 8 {
        '8'
    } else {
        '9'
    }
}

/// A number in decimal.
pub open spec fn dec(n: nat) -> Seq<char>
    decreases n,
{
    if n < 10 {
        seq![digit_char(n as int)]
    } else {
        dec(n / 10).push(digit_char((n % 10) as int))
    }
}

/// A number in decimal, with a minus sign where it is negative.
pub open spec fn signed_dec(n: int) -> Seq<char> {
    if n < 0 {
        seq!['-'] + dec((-n) as nat)
    } else {
        dec(n as nat)
    }
}

/// `n` zeros.
pub open spec fn zeros(n: int) -> Seq<char> {
    Seq::new(
        if n > 0 {
            n as nat
        } else {
            0
        },
        |i: int| '0',
    )
}

/// A number in decimal with zeros in front, at least `width` characters long.
pub open spec fn padded_dec(n: nat, width: int) -> Seq<char> {
    zeros(width - dec(n).len()) + dec(n)
}

pub fn push_dec(out: &mut String, n: u64)
    ensures
        final(out)@ == old(out)@ + dec(n as nat),
    decreases n,
{
    if n >= 10 {
        push_dec(out, n / 10);
    }
    let d: u64 = n % 10;
    let c: char = if d == 0 {
        '0'
    } else if d == 1 {
        '1'
    } else if d == 2 {
        '2'
    } else if d == 3 {
        '3'
    } else if d == 4 {
        '4'
    } else if d == 5 {
        '5'
    } else if d == 6 {
        '6'
    } else if d == 7 {
        '7'
    } else if d == 8 {
        '8'
    } else {
        '9'
    };
    out.push(c);
    assert(out@ =~= old(out)@ + dec(n as nat));
}

pub fn push_signed_dec(out: &mut String, n: i64)
    ensures
        final(out)@ == old(out)@ + signed_dec(n as int),
{
    if n < 0 {
        out.push('-');
        let size: u64 = if n == i64::MIN {
            0x8000_0000_0000_0000
        } else {
            (-n) as u64
        };
        push_dec(out, size);
        assert(out@ =~= old(out)@ + signed_dec(n as int));
    } else {
        push_dec(out, n as u64);
    }
}

/// A number in decimal with zeros in front, at least `width` characters long
/// with its sign.
pub open spec fn signed_padded_dec(n: int, width: int) -> Seq<char> {
    if n < 0 {
        seq!['-'] + padded_dec((-n) as nat, width - 1)
    } else {
        padded_dec(n as nat, width)
    }
}

pub fn push_signed_padded_dec(out: &mut String, n: i64, width: usize)
    requires
        width > 0,
    ensures
        final(out)@ == old(out)@ + signed_padded_dec(n as int, width as int),
{
    if n < 0 {
        out.push('-');
        let size: u64 = if n == i64::MIN {
            0x8000_0000_0000_0000
        } else {
            (-n) as u64
        };
        push_padded_dec(out, size, width - 1);
        assert(out@ =~= old(out)@ + signed_padded_dec(n as int, width as int));
    } else {
        push_padded_dec(out, n as u64, width);
    }
}

pub fn push_padded_dec(out: &mut String, n: u64, width: usize)
    ensures
        final(out)@ == old(out)@ + padded_dec(n as nat, width as int),
{
    let mut digits = String::new();
    push_dec(&mut digits, n);
    assert(digits@ =~= dec(n as nat));
    let len: usize = digits.as_str().unicode_len();
    let mut i: usize = len;
    assert(out@ =~= old(out)@ + zeros(0));
    while i < width
        invariant
            len <= i,
            i <= width || i == len,
            out@ == old(out)@ + zeros(i - len),
        decreases width - i,
    {
        out.push('0');
        assert(out@ =~= old(out)@ + zeros(i + 1 - len));
        i = i + 1;
    }
    out.append(digits.as_str());
    assert(out@ =~= old(out)@ + padded_dec(n as nat, width as int));
}

// ------------------------------------------------------------ reading decimals

pub open spec fn ascii_digit(c: char) -> Option<int> {
    if '0' <= c <= '9' {
        Some(c as u32 - '0' as u32)
    } else {
        None
    }
}

/// The value of a text of digits.
pub open spec fn digits_value(s: Seq<char>) -> Option<int>
    decreases s.len(),
{
    if s.len() == 0 {
        Some(0)
    } else {
        match (digits_value(s.drop_last()), ascii_digit(s.last())) {
            (Some(v), Some(d)) => Some(v * 10 + d),
            _ => None,
        }
    }
}

/// The whole number that a text writes, a sign before it or not.
pub open spec fn whole_number(s: Seq<char>) -> Option<int> {
    let signed = s.len() > 0 && (s[0] == '-' || s[0] == '+');
    let digits = if signed {
        s.skip(1)
    } else {
        s
    };
    match digits_value(digits) {
        Some(v) if digits.len() > 0 => {
            let n = if signed && s[0] == '-' {
                -v
            } else {
                v
            };
            if i64::MIN <= n <= i64::MAX {
                Some(n)
            } else {
                None
            }
        },
        _ => None,
    }
}

/// Digits that follow make a value no smaller, and what is no number stays none.
proof fn lemma_digits_grow(s: Seq<char>, n: int)
    requires
        0 <= n <= s.len(),
    ensures
        digits_value(s) matches Some(v) ==> {
            &&& digits_value(s.take(n)) is Some
            &&& 0 <= digits_value(s.take(n))->0 <= v
        },
    decreases s.len(),
{
    if n < s.len() {
        lemma_digits_grow(s.drop_last(), n);
        assert(s.drop_last().take(n) =~= s.take(n));
    } else {
        assert(s.take(n) =~= s);
        if s.len() > 0 {
            lemma_digits_grow(s.drop_last(), s.len() - 1);
            assert(s.drop_last().take(s.len() - 1) =~= s.drop_last());
        }
    }
}

fn read_digits(s: &[char]) -> (v: Option<i128>)
    ensures
        match v {
            Some(n) => digits_value(s@) == Some(n as int) && 0 <= n <= 0x8000_0000_0000_0000,
            None => digits_value(s@) is None || digits_value(s@)->0 > 0x8000_0000_0000_0000,
        },
{
    let mut value: i128 = 0;
    let mut i: usize = 0;
    assert(s@.take(0) =~= Seq::empty());
    while i < s.len()
        invariant
            i <= s@.len(),
            digits_value(s@.take(i as int)) == Some(value as int),
            0 <= value <= 0x8000_0000_0000_0000,
        decreases s@.len() - i,
    {
        let c: char = s[i];
        proof {
            assert(s@.take(i + 1).drop_last() =~= s@.take(i as int));
            lemma_digits_grow(s@, i + 1);
        }
        if !('0' <= c && c <= '9') {
            return None;
        }
        value = value * 10 + (c as u32 - '0' as u32) as i128;
        if value > 0x8000_0000_0000_0000 {
            return None;
        }
        i = i + 1;
    }
    assert(s@.take(i as int) =~= s@);
    Some(value)
}

/// The whole number of 32 bits, without sign or with a plus, that a text writes.
pub open spec fn small_number(s: Seq<char>) -> Option<int> {
    let digits = if s.len() > 0 && s[0] == '+' {
        s.skip(1)
    } else {
        s
    };
    match digits_value(digits) {
        Some(v) if digits.len() > 0 && v <= u32::MAX => Some(v),
        _ => None,
    }
}

/// Reads a whole number of 32 bits.
pub fn parse_u32(s: &str) -> (n: Option<u32>)
    ensures
        match n {
            Some(v) => small_number(s@) == Some(v as int),
            None => small_number(s@) is None,
        },
{
    let chars = chars_of(s);
    let signed = chars.len() > 0 && chars[0] == '+';
    let from: usize = if signed {
        1
    } else {
        0
    };
    let digits = slice_subrange(chars.as_slice(), from, chars.len());
    assert(digits@ =~= if signed {
        s@.skip(1)
    } else {
        s@
    });
    if digits.len() == 0 {
        return None;
    }
    match read_digits(digits) {
        None => None,
        Some(v) => {
            if v <= 0xFFFF_FFFF {
                Some(v as u32)
            } else {
                None
            }
        },
    }
}

/// Reads a whole number.
pub fn parse_i64(s: &str) -> (n: Option<i64>)
    ensures
        match n {
            Some(v) => whole_number(s@) == Some(v as int),
            None => whole_number(s@) is None,
        },
{
    let chars = chars_of(s);
    let signed = chars.len() > 0 && (chars[0] == '-' || chars[0] == '+');
    let negative = chars.len() > 0 && chars[0] == '-';
    let from: usize = if signed {
        1
    } else {
        0
    };
    let digits = slice_subrange(chars.as_slice(), from, chars.len());
    assert(digits@ =~= if signed {
        s@.skip(1)
    } else {
        s@
    });
    if digits.len() == 0 {
        return None;
    }
    match read_digits(digits) {
        None => None,
        Some(v) => {
            if negative {
                Some((-v) as i64)
            } else if v <= 0x7FFF_FFFF_FFFF_FFFF {
                Some(v as i64)
            } else {
                None
            }
        },
    }
}

// ------------------------------------------------------------------------ laws

/// A number in decimal has digits alone, at least one, and reads back.
pub proof fn decimal_reads_back(n: nat)
    ensures
        digits_value(dec(n)) == Some(n as int),
        dec(n).len() > 0,
        forall|i: int| 0 <= i < dec(n).len() ==> ascii_digit(#[trigger] dec(n)[i]) is Some,
    decreases n,
{
    reveal_with_fuel(digits_value, 2);
    if n < 10 {
        assert(dec(n).drop_last() =~= Seq::empty());
    } else {
        decimal_reads_back(n / 10);
        assert(dec(n).drop_last() =~= dec(n / 10));
    }
}

/// A number in decimal with zeros in front has digits alone and reads back.
pub proof fn padded_decimal_reads_back(n: nat, width: int)
    ensures
        digits_value(padded_dec(n, width)) == Some(n as int),
        padded_dec(n, width).len() > 0,
        forall|i: int|
            0 <= i < padded_dec(n, width).len() ==> ascii_digit(
                #[trigger] padded_dec(n, width)[i],
            ) is Some,
{
    decimal_reads_back(n);
    lemma_leading_zeros(width - dec(n).len(), dec(n));
}

proof fn lemma_leading_zeros(k: int, digits: Seq<char>)
    ensures
        digits_value(zeros(k) + digits) == digits_value(digits),
    decreases digits.len(),
{
    if digits.len() == 0 {
        assert(zeros(k) + digits =~= zeros(k));
        lemma_only_zeros(k);
    } else {
        lemma_leading_zeros(k, digits.drop_last());
        assert((zeros(k) + digits).drop_last() =~= zeros(k) + digits.drop_last());
    }
}

proof fn lemma_only_zeros(k: int)
    ensures
        digits_value(zeros(k)) == Some(0int),
    decreases k,
{
    reveal_with_fuel(digits_value, 2);
    if k > 0 {
        lemma_only_zeros(k - 1);
        assert(zeros(k).drop_last() =~= zeros(k - 1));
    }
}

/// Every number of 64 bits that is written in decimal reads back.
pub proof fn written_number_reads_back(n: i64)
    ensures
        whole_number(signed_dec(n as int)) == Some(n as int),
{
    if n < 0 {
        decimal_reads_back((-n) as nat);
        assert(signed_dec(n as int).skip(1) =~= dec((-n) as nat));
    } else {
        decimal_reads_back(n as nat);
        assert(ascii_digit(dec(n as nat)[0]) is Some);
    }
}

/// A text without the separator is one piece.
pub proof fn split_of_one_part(s: Seq<char>, sep: char)
    requires
        forall|i: int| 0 <= i < s.len() ==> #[trigger] s[i] != sep,
    ensures
        split(s, sep) == seq![s],
    decreases s.len(),
{
    if s.len() > 0 {
        let front = s.drop_last();
        assert(forall|i: int| 0 <= i < front.len() ==> #[trigger] front[i] == s[i]);
        split_of_one_part(front, sep);
        assert(s.last() == s[s.len() - 1]);
        assert(front.push(s.last()) =~= s);
        assert(split(s, sep) =~= seq![s]);
    } else {
        assert(s =~= Seq::empty());
    }
}

/// A number of 32 bits is read as it is written, also after a plus sign; one with a minus
/// sign is none, nor is one that 32 bits do not hold.
pub proof fn written_small_number_is_read(n: nat)
    ensures
        small_number(dec(n)) == (if n <= u32::MAX {
            Some(n as int)
        } else {
            None
        }),
        small_number(seq!['+'] + dec(n)) == small_number(dec(n)),
        small_number(seq!['-'] + dec(n)) is None,
{
    decimal_reads_back(n);
    assert(ascii_digit(dec(n)[0]) is Some);
    assert((seq!['+'] + dec(n)).skip(1) =~= dec(n));
    let minus = seq!['-'] + dec(n);
    assert(minus[0] == '-');
    lemma_no_value(minus, 0);
}

proof fn lemma_no_value(s: Seq<char>, i: int)
    requires
        0 <= i < s.len(),
        ascii_digit(s[i]) is None,
    ensures
        digits_value(s) is None,
    decreases s.len(),
{
    if i < s.len() - 1 {
        assert(s.drop_last()[i] == s[i]);
        lemma_no_value(s.drop_last(), i);
    }
}

/// A text with anything but digits behind its sign, or with nothing there, is no number.
pub proof fn other_texts_are_no_numbers(s: Seq<char>, i: int)
    requires
        0 <= i < s.len(),
        !('0' <= s[i] <= '9'),
        i > 0 || (s[0] != '-' && s[0] != '+'),
    ensures
        whole_number(s) is None,
        small_number(s) is None,
        whole_number(Seq::empty()) is None,
        whole_number(seq!['-']) is None,
        small_number(Seq::empty()) is None,
        small_number(seq!['+']) is None,
{
    lemma_no_value(s, i);
    if i > 0 {
        assert(s.skip(1)[i - 1] == s[i]);
        lemma_no_value(s.skip(1), i - 1);
    }
    assert(seq!['-'].skip(1) =~= Seq::empty());
    assert(seq!['+'].skip(1) =~= Seq::empty());
}

/// A number is written without zeros before it; padded, it is as long as asked for, or as
/// long as it is.
pub proof fn numbers_are_written_without_zeros_before_them(n: nat, width: int)
    ensures
        n > 0 ==> dec(n)[0] != '0',
        dec(0) == seq!['0'],
        dec(n).len() > 0,
        padded_dec(n, width).len() == (if dec(n).len() < width {
            width
        } else {
            dec(n).len() as int
        }),
        signed_dec(-(n as int)) == (if n == 0 {
            dec(0)
        } else {
            seq!['-'] + dec(n)
        }),
        signed_padded_dec(n as int, width) == padded_dec(n, width),
        n > 0 ==> signed_padded_dec(-(n as int), width) == seq!['-'] + padded_dec(n, width - 1),
    decreases n,
{
    if n >= 10 {
        numbers_are_written_without_zeros_before_them(n / 10, width);
        assert(dec(n)[0] == dec(n / 10)[0]);
    }
}

/// The characters that count as white space are these.
pub proof fn white_space_is_this(c: char)
    ensures
        is_white(c) <==> seq![
            '\t', '\n', '\u{b}', '\u{c}', '\r', ' ', '\u{85}', '\u{a0}', '\u{1680}', '\u{2000}',
            '\u{2001}', '\u{2002}', '\u{2003}', '\u{2004}', '\u{2005}', '\u{2006}', '\u{2007}',
            '\u{2008}', '\u{2009}', '\u{200a}', '\u{2028}', '\u{2029}', '\u{202f}', '\u{205f}',
            '\u{3000}',
        ].contains(c),
{
    let all = seq![
        '\t', '\n', '\u{b}', '\u{c}', '\r', ' ', '\u{85}', '\u{a0}', '\u{1680}', '\u{2000}',
        '\u{2001}', '\u{2002}', '\u{2003}', '\u{2004}', '\u{2005}', '\u{2006}', '\u{2007}',
        '\u{2008}', '\u{2009}', '\u{200a}', '\u{2028}', '\u{2029}', '\u{202f}', '\u{205f}',
        '\u{3000}',
    ];
    if is_white(c) {
        if c <= '\r' {
            assert(all[c as int - 9] == c);
        } else if c == ' ' {
            assert(all[5] == c);
        } else if c == '\u{85}' {
            assert(all[6] == c);
        } else if c == '\u{a0}' {
            assert(all[7] == c);
        } else if c == '\u{1680}' {
            assert(all[8] == c);
        } else if c <= '\u{200a}' {
            assert(all[9 + (c as int - 0x2000)] == c);
        } else if c == '\u{2028}' {
            assert(all[20] == c);
        } else if c == '\u{2029}' {
            assert(all[21] == c);
        } else if c == '\u{202f}' {
            assert(all[22] == c);
        } else if c == '\u{205f}' {
            assert(all[23] == c);
        } else {
            assert(all[24] == c);
        }
    }
}

} // verus!
