//! ARIB STD-B24 text, as programme tables carry it.
//!
//! Characters come in four sets, two of which are in reach at a time: one for
//! the low bytes and one for the high bytes.  Escape sequences choose the sets.
use vstd::prelude::*;

use crate::text::{chars_of, string_of, trim, trim_chars};

verus! {

/// A set of characters.
#[derive(Debug, Clone, Copy, PartialEq, Eq, Structural)]
pub enum CodeSet {
    /// JIS X 0208, two bytes to a character.
    Kanji,
    Alphanumeric,
    Hiragana,
    Katakana,
}

/// Which sets are in reach.
#[derive(Debug, Clone, Copy, PartialEq, Eq, Structural)]
pub struct Designation {
    pub g0: CodeSet,
    pub g1: CodeSet,
    pub g2: CodeSet,
    pub g3: CodeSet,
    /// The set that low bytes are read in.
    pub low: u8,
    /// The set that high bytes are read in.
    pub high: u8,
}

impl Designation {
    /// What a text starts with.
    pub open spec fn start() -> Designation {
        Designation {
            g0: CodeSet::Kanji,
            g1: CodeSet::Alphanumeric,
            g2: CodeSet::Hiragana,
            g3: CodeSet::Katakana,
            low: 0,
            high: 2,
        }
    }

    pub open spec fn set(self, n: int) -> CodeSet {
        if n == 0 {
            self.g0
        } else if n == 1 {
            self.g1
        } else if n == 2 {
            self.g2
        } else {
            self.g3
        }
    }

    pub open spec fn designate(self, n: int, set: CodeSet) -> Designation {
        if n == 0 {
            Designation { g0: set, ..self }
        } else if n == 1 {
            Designation { g1: set, ..self }
        } else if n == 2 {
            Designation { g2: set, ..self }
        } else {
            Designation { g3: set, ..self }
        }
    }

    fn read_set(&self, n: u8) -> (set: CodeSet)
        ensures
            set == self.set(n as int),
    {
        if n == 0 {
            self.g0
        } else if n == 1 {
            self.g1
        } else if n == 2 {
            self.g2
        } else {
            self.g3
        }
    }

    fn put_set(&mut self, n: u8, set: CodeSet)
        ensures
            *final(self) == old(self).designate(n as int, set),
    {
        if n == 0 {
            self.g0 = set;
        } else if n == 1 {
            self.g1 = set;
        } else if n == 2 {
            self.g2 = set;
        } else {
            self.g3 = set;
        }
    }
}

/// A piece of text.
#[derive(Debug, Clone, Copy, PartialEq, Eq, Structural)]
pub enum Token {
    /// A character that needs no table.
    Plain(char),
    /// Two bytes of EUC-JP.
    Euc(u8, u8),
}

/// What one code leads to.
pub ghost struct CodeStep {
    pub state: Designation,
    pub next: int,
    pub out: Seq<Token>,
}

/// The single-byte set that the last byte of an escape sequence names.
pub open spec fn named_set(byte: u8, n: int) -> Option<CodeSet> {
    if byte == 0x42 || (byte == 0x4A && n == 0) {
        Some(CodeSet::Alphanumeric)
    } else if byte == 0x30 {
        Some(CodeSet::Hiragana)
    } else if byte == 0x31 {
        Some(CodeSet::Katakana)
    } else {
        None
    }
}

/// The escape sequence at `i`: the sets after it, and where it ends.
pub open spec fn escape_step(state: Designation, data: Seq<u8>, i: int) -> CodeStep {
    let n = data.len() as int;
    let (after, next) = if i + 1 >= n {
        (state, n)
    } else {
        let kind = data[i + 1];
        if kind == 0x24 {
            if i + 2 >= n {
                (state, n)
            } else if data[i + 2] == 0x42 {
                (state.designate(0, CodeSet::Kanji), i + 3)
            } else if 0x29 <= data[i + 2] <= 0x2B && i + 3 < n && data[i + 3] == 0x42 {
                (state.designate(data[i + 2] - 0x28, CodeSet::Kanji), i + 4)
            } else {
                (state, i + 3)
            }
        } else if 0x28 <= kind <= 0x2B {
            if i + 2 >= n {
                (state, n)
            } else {
                match named_set(data[i + 2], kind - 0x28) {
                    Some(set) => (state.designate(kind - 0x28, set), i + 3),
                    None => (state, i + 3),
                }
            }
        } else if kind == 0x6E {
            (Designation { low: 2, ..state }, i + 2)
        } else if kind == 0x6F {
            (Designation { low: 3, ..state }, i + 2)
        } else if kind == 0x7E {
            (Designation { high: 1, ..state }, i + 2)
        } else if kind == 0x7D {
            (Designation { high: 2, ..state }, i + 2)
        } else if kind == 0x7C {
            (Designation { high: 3, ..state }, i + 2)
        } else {
            (state, i + 2)
        }
    };
    CodeStep { state: after, next, out: Seq::empty() }
}

/// The kana sets end in eight signs of their own.
pub open spec fn kana_sign(n: int) -> char {
    if n == 0 {
        'ヷ'
    } else if n == 1 {
        'ヸ'
    } else if n == 2 {
        'ー'
    } else if n == 3 {
        'ヺ'
    } else if n == 4 {
        '・'
    } else if n == 5 {
        'ヽ'
    } else if n == 6 {
        '、'
    } else {
        '・'
    }
}

/// A byte with its high bit set.
pub open spec fn high_byte(b: u8) -> u8 {
    (b % 128 + 128) as u8
}

/// Whether a byte can be the second of a pair, among low bytes or high bytes.
pub open spec fn pairs_up(b: u8, high: bool) -> bool {
    if high {
        0xA1 <= b <= 0xFE
    } else {
        0x21 <= b <= 0x7E
    }
}

/// The character at `i`, read in a set: what it is, and how many bytes it takes.
///
/// Rows 85 to 94 of the kanji set hold signs that have no text; they are
/// dropped.
pub open spec fn glyph(set: CodeSet, data: Seq<u8>, i: int, high: bool) -> (Seq<Token>, int) {
    let b = data[i];
    let low = b % 128;
    match set {
        CodeSet::Kanji => {
            if i + 1 < data.len() && pairs_up(data[i + 1], high) {
                if low >= 0x75 {
                    (Seq::empty(), 2)
                } else {
                    (seq![Token::Euc(high_byte(b), high_byte(data[i + 1]))], 2)
                }
            } else {
                (Seq::empty(), 1)
            }
        },
        CodeSet::Alphanumeric => (seq![Token::Plain(low as char)], 1),
        CodeSet::Hiragana => if low >= 0x77 {
            (seq![Token::Plain(kana_sign(low - 0x77))], 1)
        } else {
            (seq![Token::Euc(0xA4, high_byte(b))], 1)
        },
        CodeSet::Katakana => if low >= 0x77 {
            (seq![Token::Plain(kana_sign(low - 0x77))], 1)
        } else {
            (seq![Token::Euc(0xA5, high_byte(b))], 1)
        },
    }
}

/// The code at `i`.
pub open spec fn code_step(state: Designation, data: Seq<u8>, i: int) -> CodeStep {
    let b = data[i];
    if b == 0x1B {
        escape_step(state, data, i)
    } else if b == 0x0A || b == 0x0D {
        CodeStep { state, next: i + 1, out: seq![Token::Plain('\n')] }
    } else if b == 0x20 {
        CodeStep { state, next: i + 1, out: seq![Token::Plain(' ')] }
    } else if b == 0x0F {
        CodeStep { state: Designation { low: 0, ..state }, next: i + 1, out: Seq::empty() }
    } else if b == 0x0E {
        CodeStep { state: Designation { low: 1, ..state }, next: i + 1, out: Seq::empty() }
    } else if 0x21 <= b <= 0x7E {
        let (out, len) = glyph(state.set(state.low as int), data, i, false);
        CodeStep { state, next: i + len, out }
    } else if 0xA1 <= b <= 0xFE {
        let (out, len) = glyph(state.set(state.high as int), data, i, true);
        CodeStep { state, next: i + len, out }
    } else {
        CodeStep { state, next: i + 1, out: Seq::empty() }
    }
}

/// The text from `i` on.
pub open spec fn tokens_from(state: Designation, data: Seq<u8>, i: int) -> Seq<Token>
    decreases data.len() - i,
{
    if 0 <= i < data.len() {
        let step = code_step(state, data, i);
        if i < step.next <= data.len() {
            step.out + tokens_from(step.state, data, step.next)
        } else {
            step.out
        }
    } else {
        Seq::empty()
    }
}

/// The text of a whole field.
pub open spec fn tokens_of(data: Seq<u8>) -> Seq<Token> {
    tokens_from(Designation::start(), data, 0)
}

fn read_escape(state: Designation, data: &[u8], i: usize) -> (r: (Designation, usize))
    requires
        i < data@.len(),
    ensures
        ({
            let step = escape_step(state, data@, i as int);
            r.0 == step.state && r.1 == step.next
        }),
        i < r.1 <= data@.len(),
{
    let n: usize = data.len();
    let mut after = state;
    if n - i < 2 {
        return (after, n);
    }
    let kind: u8 = data[i + 1];
    if kind == 0x24 {
        if n - i < 3 {
            return (after, n);
        }
        let target: u8 = data[i + 2];
        if target == 0x42 {
            after.put_set(0, CodeSet::Kanji);
            return (after, i + 3);
        }
        if 0x29 <= target && target <= 0x2B && n - i > 3 && data[i + 3] == 0x42 {
            after.put_set(target - 0x28, CodeSet::Kanji);
            return (after, i + 4);
        }
        return (after, i + 3);
    }
    if 0x28 <= kind && kind <= 0x2B {
        if n - i < 3 {
            return (after, n);
        }
        let target: u8 = kind - 0x28;
        let name: u8 = data[i + 2];
        if name == 0x42 || (name == 0x4A && target == 0) {
            after.put_set(target, CodeSet::Alphanumeric);
        } else if name == 0x30 {
            after.put_set(target, CodeSet::Hiragana);
        } else if name == 0x31 {
            after.put_set(target, CodeSet::Katakana);
        }
        return (after, i + 3);
    }
    if kind == 0x6E {
        after.low = 2;
    } else if kind == 0x6F {
        after.low = 3;
    } else if kind == 0x7E {
        after.high = 1;
    } else if kind == 0x7D {
        after.high = 2;
    } else if kind == 0x7C {
        after.high = 3;
    }
    (after, i + 2)
}

fn read_kana_sign(n: u8) -> (c: char)
    ensures
        c == kana_sign(n as int),
{
    if n == 0 {
        'ヷ'
    } else if n == 1 {
        'ヸ'
    } else if n == 2 {
        'ー'
    } else if n == 3 {
        'ヺ'
    } else if n == 4 {
        '・'
    } else if n == 5 {
        'ヽ'
    } else if n == 6 {
        '、'
    } else {
        '・'
    }
}

fn set_high_bit(b: u8) -> (h: u8)
    ensures
        h == high_byte(b),
{
    assert(b | 0x80 == b % 128 + 128) by (bit_vector);
    b | 0x80
}

/// Reads the character at `i` in a set.
fn decode_gset(set: CodeSet, data: &[u8], i: usize, high: bool) -> (r: (Option<Token>, usize))
    requires
        i < data@.len(),
    ensures
        ({
            let (out, len) = glyph(set, data@, i as int, high);
            &&& r.1 == len
            &&& out == match r.0 {
                Some(token) => seq![token],
                None => Seq::empty(),
            }
        }),
        1 <= r.1 <= data@.len() - i,
{
    let b: u8 = data[i];
    assert(b & 0x7F == b % 128) by (bit_vector);
    let low: u8 = b & 0x7F;
    match set {
        CodeSet::Kanji => {
            let paired = data.len() - i > 1 && if high {
                0xA1 <= data[i + 1] && data[i + 1] <= 0xFE
            } else {
                0x21 <= data[i + 1] && data[i + 1] <= 0x7E
            };
            if !paired {
                (None, 1)
            } else if low >= 0x75 {
                (None, 2)
            } else {
                (Some(Token::Euc(set_high_bit(b), set_high_bit(data[i + 1]))), 2)
            }
        },
        CodeSet::Alphanumeric => (Some(Token::Plain(low as char)), 1),
        CodeSet::Hiragana => {
            if low >= 0x77 {
                (Some(Token::Plain(read_kana_sign(low - 0x77))), 1)
            } else {
                (Some(Token::Euc(0xA4, set_high_bit(b))), 1)
            }
        },
        CodeSet::Katakana => {
            if low >= 0x77 {
                (Some(Token::Plain(read_kana_sign(low - 0x77))), 1)
            } else {
                (Some(Token::Euc(0xA5, set_high_bit(b))), 1)
            }
        },
    }
}

/// Takes a field apart into characters.
pub fn tokenize(data: &[u8]) -> (tokens: Vec<Token>)
    ensures
        tokens@ == tokens_of(data@),
{
    let mut tokens: Vec<Token> = Vec::new();
    let mut state = Designation {
        g0: CodeSet::Kanji,
        g1: CodeSet::Alphanumeric,
        g2: CodeSet::Hiragana,
        g3: CodeSet::Katakana,
        low: 0,
        high: 2,
    };
    let mut i: usize = 0;
    while i < data.len()
        invariant
            i <= data@.len(),
            tokens@ + tokens_from(state, data@, i as int) == tokens_of(data@),
        decreases data@.len() - i,
    {
        let b: u8 = data[i];
        let ghost step = code_step(state, data@, i as int);
        let ghost before = tokens@;
        if b == 0x1B {
            let (after, next) = read_escape(state, data, i);
            state = after;
            i = next;
        } else if b == 0x0A || b == 0x0D {
            tokens.push(Token::Plain('\n'));
            i = i + 1;
        } else if b == 0x20 {
            tokens.push(Token::Plain(' '));
            i = i + 1;
        } else if b == 0x0F {
            state.low = 0;
            i = i + 1;
        } else if b == 0x0E {
            state.low = 1;
            i = i + 1;
        } else if (0x21 <= b && b <= 0x7E) || (0xA1 <= b && b <= 0xFE) {
            let high = b >= 0xA1;
            let set = if high {
                state.read_set(state.high)
            } else {
                state.read_set(state.low)
            };
            let (token, len) = decode_gset(set, data, i, high);
            if let Some(t) = token {
                tokens.push(t);
            }
            i = i + len;
        } else {
            i = i + 1;
        }
        assert(tokens@ =~= before + step.out);
        assert(state == step.state && i == step.next);
        assert(tokens@ + tokens_from(state, data@, i as int) =~= before + (step.out + tokens_from(
            state,
            data@,
            i as int,
        )));
    }
    assert(tokens@ + Seq::<Token>::empty() =~= tokens@);
    tokens
}

/// The text that `encoding_rs` reads in bytes of EUC-JP.
pub uninterp spec fn euc_jp_text(bytes: Seq<u8>) -> Seq<char>;

/// `encoding_rs::EUC_JP.decode`: the text of some bytes, which depends on the
/// bytes alone.  Bytes that are not EUC-JP become replacement characters, and a
/// byte order mark is taken as one.
#[verifier::external_body]
fn decode_euc_jp(bytes: &[u8]) -> (text: String)
    requires
        bytes@.len() <= 2,
    ensures
        text@ == euc_jp_text(bytes@),
{
    let (text, _, _) = encoding_rs::EUC_JP.decode(bytes);
    text.into_owned()
}

/// The text of a character.
pub open spec fn token_text(token: Token) -> Seq<char> {
    match token {
        Token::Plain(c) => seq![c],
        Token::Euc(a, b) => euc_jp_text(seq![a, b]),
    }
}

pub open spec fn tokens_text(tokens: Seq<Token>) -> Seq<char>
    decreases tokens.len(),
{
    if tokens.len() == 0 {
        Seq::empty()
    } else {
        tokens_text(tokens.drop_last()) + token_text(tokens.last())
    }
}

/// The text of a field, without white space at its ends.
pub open spec fn b24_text(data: Seq<u8>) -> Seq<char> {
    trim(tokens_text(tokens_of(data)))
}

/// Decodes a field.
pub fn decode_arib_b24(data: &[u8]) -> (text: String)
    ensures
        text@ == b24_text(data@),
{
    let tokens = tokenize(data);
    let mut all = String::new();
    let mut i: usize = 0;
    assert(tokens@.take(0) =~= Seq::empty());
    while i < tokens.len()
        invariant
            i <= tokens@.len(),
            all@ == tokens_text(tokens@.take(i as int)),
        decreases tokens@.len() - i,
    {
        assert(tokens@.take(i + 1).drop_last() =~= tokens@.take(i as int));
        match tokens[i] {
            Token::Plain(c) => {
                all.push(c);
                assert(all@ =~= tokens_text(tokens@.take(i as int)) + seq![c]);
            },
            Token::Euc(a, b) => {
                let pair: [u8; 2] = [a, b];
                assert(pair@ =~= seq![a, b]);
                let text = decode_euc_jp(pair.as_slice());
                all.append(text.as_str());
            },
        }
        i = i + 1;
    }
    assert(tokens@.take(i as int) =~= tokens@);
    let chars = chars_of(all.as_str());
    string_of(trim_chars(chars.as_slice()))
}

/// The text that follows the choice of the alphanumeric set is plain ASCII: every
/// byte from the space to the tilde stands for itself.
pub proof fn alphanumeric_text_is_ascii(text: Seq<u8>)
    requires
        forall|i: int| 0 <= i < text.len() ==> 0x20 <= #[trigger] text[i] <= 0x7E,
    ensures
        tokens_of(seq![0x1Bu8, 0x28, 0x42] + text) == text.map_values(
            |b: u8| Token::Plain(b as char),
        ),
        tokens_of(seq![0x1Bu8, 0x28, 0x4A] + text) == text.map_values(
            |b: u8| Token::Plain(b as char),
        ),
{
    let state = Designation { g0: CodeSet::Alphanumeric, ..Designation::start() };
    let with_42 = seq![0x1Bu8, 0x28, 0x42] + text;
    let with_4a = seq![0x1Bu8, 0x28, 0x4A] + text;
    lemma_alphanumeric_from(state, with_42, 3);
    lemma_alphanumeric_from(state, with_4a, 3);
    assert(with_42.skip(3) =~= text);
    assert(with_4a.skip(3) =~= text);
    assert(code_step(Designation::start(), with_42, 0).state == state);
    assert(code_step(Designation::start(), with_4a, 0).state == state);
    assert(tokens_of(with_42) =~= tokens_from(state, with_42, 3));
    assert(tokens_of(with_4a) =~= tokens_from(state, with_4a, 3));
}

proof fn lemma_alphanumeric_from(state: Designation, data: Seq<u8>, at: int)
    requires
        0 <= at <= data.len(),
        state.low == 0,
        state.g0 == CodeSet::Alphanumeric,
        forall|i: int| at <= i < data.len() ==> 0x20 <= #[trigger] data[i] <= 0x7E,
    ensures
        tokens_from(state, data, at) == data.skip(at).map_values(|b: u8| Token::Plain(b as char)),
    decreases data.len() - at,
{
    if at < data.len() {
        lemma_alphanumeric_from(state, data, at + 1);
        assert(0x20 <= data[at] <= 0x7E);
        assert(code_step(state, data, at).out =~= seq![Token::Plain(data[at] as char)]);
        assert(data.skip(at) =~= seq![data[at]] + data.skip(at + 1));
        assert(data.skip(at).map_values(|b: u8| Token::Plain(b as char)) =~= seq![
            Token::Plain(data[at] as char),
        ] + data.skip(at + 1).map_values(|b: u8| Token::Plain(b as char)));
    } else {
        assert(data.skip(at).map_values(|b: u8| Token::Plain(b as char)) =~= Seq::empty());
    }
}

/// Reading always moves on, and never past the end of the field.
pub proof fn reading_moves_on(state: Designation, data: Seq<u8>, i: int)
    requires
        0 <= i < data.len(),
    ensures
        i < code_step(state, data, i).next <= data.len(),
{
}

/// What is read depends on the sets and on what is left of the field alone.
pub proof fn reading_goes_by_what_is_left(state: Designation, front: Seq<u8>, rest: Seq<u8>, i: int)
    requires
        0 <= i <= rest.len(),
    ensures
        tokens_from(state, front + rest, front.len() + i) == tokens_from(state, rest, i),
    decreases rest.len() - i,
{
    let data = front + rest;
    let k = front.len() + i;
    if i < rest.len() {
        assert(data[k] == rest[i]);
        assert(i + 1 < rest.len() ==> data[k + 1] == rest[i + 1]);
        assert(i + 2 < rest.len() ==> data[k + 2] == rest[i + 2]);
        assert(i + 3 < rest.len() ==> data[k + 3] == rest[i + 3]);
        let a = code_step(state, data, k);
        let b = code_step(state, rest, i);
        assert(a.state == b.state && a.next == front.len() + b.next && a.out == b.out);
        reading_moves_on(state, rest, i);
        reading_goes_by_what_is_left(b.state, front, rest, b.next);
    }
}

/// Whether one of the four sets in hand, by its number, is a certain one.
pub open spec fn in_hand(state: Designation, n: int, set: CodeSet) -> bool {
    &&& n == 0 ==> state.g0 == set
    &&& n == 1 ==> state.g1 == set
    &&& n == 2 ==> state.g2 == set
    &&& n == 3 ==> state.g3 == set
}

/// What calls up a set for the low bytes: LS0, LS1, LS2, LS3.
pub open spec fn call_low(n: int) -> Seq<u8> {
    if n == 0 {
        seq![0x0Fu8]
    } else if n == 1 {
        seq![0x0Eu8]
    } else if n == 2 {
        seq![0x1Bu8, 0x6E]
    } else {
        seq![0x1Bu8, 0x6F]
    }
}

/// What calls up a set for the high bytes: LS1R, LS2R, LS3R.
pub open spec fn call_high(n: int) -> Seq<u8> {
    if n == 1 {
        seq![0x1Bu8, 0x7E]
    } else if n == 2 {
        seq![0x1Bu8, 0x7D]
    } else {
        seq![0x1Bu8, 0x7C]
    }
}

/// What takes a set in hand under a number.
pub open spec fn take_in_hand(n: int, set: CodeSet) -> Seq<u8> {
    match set {
        CodeSet::Kanji => if n == 0 {
            seq![0x1Bu8, 0x24, 0x42]
        } else {
            seq![0x1Bu8, 0x24, (0x28 + n) as u8, 0x42]
        },
        CodeSet::Alphanumeric => seq![0x1Bu8, (0x28 + n) as u8, 0x42],
        CodeSet::Hiragana => seq![0x1Bu8, (0x28 + n) as u8, 0x30],
        CodeSet::Katakana => seq![0x1Bu8, (0x28 + n) as u8, 0x31],
    }
}

/// The character at a place of a set of single bytes.
pub open spec fn character_at(set: CodeSet, place: u8) -> Token {
    if set == CodeSet::Alphanumeric {
        Token::Plain(place as char)
    } else if place >= 0x77 {
        Token::Plain(seq!['ヷ', 'ヸ', 'ー', 'ヺ', '・', 'ヽ', '、', '・'][place - 0x77])
    } else if set == CodeSet::Hiragana {
        Token::Euc(0xA4, (place + 0x80) as u8)
    } else {
        Token::Euc(0xA5, (place + 0x80) as u8)
    }
}

pub open spec fn are_places(text: Seq<u8>) -> bool {
    forall|i: int| 0 <= i < text.len() ==> 0x21 <= #[trigger] text[i] <= 0x7E
}

/// The same places as high bytes.
pub open spec fn raised(text: Seq<u8>) -> Seq<u8> {
    text.map_values(|b: u8| (b + 0x80) as u8)
}

pub open spec fn characters_at(set: CodeSet, text: Seq<u8>) -> Seq<Token> {
    text.map_values(|b: u8| character_at(set, b))
}

proof fn lemma_low_text(state: Designation, n: int, set: CodeSet, text: Seq<u8>, at: int)
    requires
        0 <= n <= 3,
        state.low == n,
        in_hand(state, n, set),
        set != CodeSet::Kanji,
        are_places(text),
        0 <= at <= text.len(),
    ensures
        tokens_from(state, text, at) == characters_at(set, text.skip(at)),
    decreases text.len() - at,
{
    if at < text.len() {
        lemma_low_text(state, n, set, text, at + 1);
        assert(0x21 <= text[at] <= 0x7E);
        let step = code_step(state, text, at);
        assert(step.out =~= seq![character_at(set, text[at])]);
        assert(characters_at(set, text.skip(at)) =~= seq![character_at(set, text[at])]
            + characters_at(set, text.skip(at + 1)));
    } else {
        assert(characters_at(set, text.skip(at)) =~= Seq::empty());
    }
}

proof fn lemma_high_text(state: Designation, n: int, set: CodeSet, text: Seq<u8>, at: int)
    requires
        0 <= n <= 3,
        state.high == n,
        in_hand(state, n, set),
        set != CodeSet::Kanji,
        are_places(text),
        0 <= at <= text.len(),
    ensures
        tokens_from(state, raised(text), at) == characters_at(set, text.skip(at)),
    decreases text.len() - at,
{
    let data = raised(text);
    if at < text.len() {
        lemma_high_text(state, n, set, text, at + 1);
        assert(0x21 <= text[at] <= 0x7E);
        assert(data[at] == (text[at] + 0x80) as u8);
        assert(data[at] % 128 == text[at]);
        let step = code_step(state, data, at);
        assert(step.out =~= seq![character_at(set, text[at])]);
        assert(characters_at(set, text.skip(at)) =~= seq![character_at(set, text[at])]
            + characters_at(set, text.skip(at + 1)));
    } else {
        assert(characters_at(set, text.skip(at)) =~= Seq::empty());
    }
}

/// Each of LS0 to LS3 calls up the set of its own number for the low bytes, and each of
/// LS1R to LS3R for the high bytes, whatever was called up before; the other half and the
/// sets in hand stay as they are.
pub proof fn shifts_call_up_their_sets(state: Designation, n: int, rest: Seq<u8>)
    requires
        0 <= n <= 3,
    ensures
        tokens_from(state, call_low(n) + rest, 0) == tokens_from(
            Designation { low: n as u8, ..state },
            rest,
            0,
        ),
        n > 0 ==> tokens_from(state, call_high(n) + rest, 0) == tokens_from(
            Designation { high: n as u8, ..state },
            rest,
            0,
        ),
{
    let low = call_low(n) + rest;
    let step = code_step(state, low, 0);
    assert(step.state == Designation { low: n as u8, ..state });
    assert(step.next == call_low(n).len());
    reading_goes_by_what_is_left(step.state, call_low(n), rest, 0);
    assert(tokens_from(state, low, 0) =~= tokens_from(step.state, low, step.next));
    if n > 0 {
        let high = call_high(n) + rest;
        let step = code_step(state, high, 0);
        assert(step.state == Designation { high: n as u8, ..state });
        assert(step.next == 2);
        reading_goes_by_what_is_left(step.state, call_high(n), rest, 0);
        assert(tokens_from(state, high, 0) =~= tokens_from(step.state, high, step.next));
    }
}

/// After a set of single bytes has been called up for the low bytes, these are read in it;
/// after it has been called up for the high bytes, those are.
pub proof fn called_up_sets_are_read(state: Designation, n: int, set: CodeSet, text: Seq<u8>)
    requires
        0 <= n <= 3,
        in_hand(state, n, set),
        set != CodeSet::Kanji,
        are_places(text),
    ensures
        tokens_from(state, call_low(n) + text, 0) == characters_at(set, text),
        n > 0 ==> tokens_from(state, call_high(n) + raised(text), 0) == characters_at(set, text),
{
    shifts_call_up_their_sets(state, n, text);
    shifts_call_up_their_sets(state, n, raised(text));
    lemma_low_text(Designation { low: n as u8, ..state }, n, set, text, 0);
    lemma_high_text(Designation { high: n as u8, ..state }, n, set, text, 0);
    assert(text.skip(0) =~= text);
}

/// A pair of bytes.
pub open spec fn pair_bytes(pairs: Seq<(u8, u8)>) -> Seq<u8>
    decreases pairs.len(),
{
    if pairs.len() == 0 {
        Seq::empty()
    } else {
        seq![pairs[0].0, pairs[0].1] + pair_bytes(pairs.skip(1))
    }
}

/// Kanji by their rows and columns, without the rows from 85 on, which hold signs that
/// have no text.
pub open spec fn kanji_at(pairs: Seq<(u8, u8)>) -> Seq<Token>
    decreases pairs.len(),
{
    if pairs.len() == 0 {
        Seq::empty()
    } else if pairs[0].0 > 0x74 {
        kanji_at(pairs.skip(1))
    } else {
        seq![Token::Euc((pairs[0].0 + 0x80) as u8, (pairs[0].1 + 0x80) as u8)] + kanji_at(
            pairs.skip(1),
        )
    }
}

pub open spec fn are_pairs(pairs: Seq<(u8, u8)>) -> bool {
    forall|i: int|
        0 <= i < pairs.len() ==> 0x21 <= (#[trigger] pairs[i]).0 <= 0x7E && 0x21 <= pairs[i].1
            <= 0x7E
}

proof fn lemma_kanji(state: Designation, n: int, pairs: Seq<(u8, u8)>, high: bool)
    requires
        0 <= n <= 3,
        if high {
            state.high == n
        } else {
            state.low == n
        },
        in_hand(state, n, CodeSet::Kanji),
        are_pairs(pairs),
    ensures
        tokens_from(
            state,
            if high {
                raised(pair_bytes(pairs))
            } else {
                pair_bytes(pairs)
            },
            0,
        ) == kanji_at(pairs),
    decreases pairs.len(),
{
    let low = pair_bytes(pairs);
    if pairs.len() > 0 {
        let rest = pairs.skip(1);
        assert(forall|i: int| 0 <= i < rest.len() ==> #[trigger] rest[i] == pairs[i + 1]);
        lemma_kanji(state, n, rest, high);
        let (a, b) = pairs[0];
        assert(0x21 <= pairs[0].0 <= 0x7E && 0x21 <= pairs[0].1 <= 0x7E);
        let front = if high {
            seq![(a + 0x80) as u8, (b + 0x80) as u8]
        } else {
            seq![a, b]
        };
        let after = if high {
            raised(pair_bytes(rest))
        } else {
            pair_bytes(rest)
        };
        let data = if high {
            raised(low)
        } else {
            low
        };
        assert(data =~= front + after);
        assert(data[0] % 128 == a && data[1] % 128 == b);
        let step = code_step(state, data, 0);
        assert(step.next == 2 && step.state == state);
        reading_goes_by_what_is_left(state, front, after, 0);
        if a > 0x74 {
            assert(step.out =~= Seq::empty());
            assert(tokens_from(state, data, 0) =~= kanji_at(pairs));
        } else {
            assert(step.out =~= seq![Token::Euc((a + 0x80) as u8, (b + 0x80) as u8)]);
        }
    }
}

/// After the kanji have been called up, bytes are read in pairs, a row and a column each.
pub proof fn called_up_kanji_are_read(state: Designation, n: int, pairs: Seq<(u8, u8)>)
    requires
        0 <= n <= 3,
        in_hand(state, n, CodeSet::Kanji),
        are_pairs(pairs),
    ensures
        tokens_from(state, call_low(n) + pair_bytes(pairs), 0) == kanji_at(pairs),
        n > 0 ==> tokens_from(state, call_high(n) + raised(pair_bytes(pairs)), 0) == kanji_at(pairs),
{
    shifts_call_up_their_sets(state, n, pair_bytes(pairs));
    shifts_call_up_their_sets(state, n, raised(pair_bytes(pairs)));
    lemma_kanji(Designation { low: n as u8, ..state }, n, pairs, false);
    lemma_kanji(Designation { high: n as u8, ..state }, n, pairs, true);
}

/// Half a kanji leaves no trace, and what follows is read as if it were not there.
pub proof fn half_a_kanji_leaves_no_trace(state: Designation, n: int, b: u8, rest: Seq<u8>)
    requires
        0 <= n <= 3,
        in_hand(state, n, CodeSet::Kanji),
    ensures
        state.low == n && 0x21 <= b <= 0x7E && !(rest.len() > 0 && 0x21 <= rest[0] <= 0x7E)
            ==> tokens_from(state, seq![b] + rest, 0) == tokens_from(state, rest, 0),
        state.high == n && 0xA1 <= b <= 0xFE && !(rest.len() > 0 && 0xA1 <= rest[0] <= 0xFE)
            ==> tokens_from(state, seq![b] + rest, 0) == tokens_from(state, rest, 0),
{
    let data = seq![b] + rest;
    assert(data[0] == b);
    if rest.len() > 0 {
        assert(data[1] == rest[0]);
    }
    let step = code_step(state, data, 0);
    reading_goes_by_what_is_left(state, seq![b], rest, 0);
    if b != 0x1B && step.next == 1 && step.state == state {
        assert(tokens_from(state, data, 0) == step.out + tokens_from(state, data, 1));
        assert(Seq::<Token>::empty() + tokens_from(state, data, 1) =~= tokens_from(state, data, 1));
    }
}

/// An escape sequence takes the set that it names in hand under the number that it names,
/// and changes nothing else.
pub proof fn escapes_take_sets_in_hand(state: Designation, n: int, set: CodeSet, rest: Seq<u8>)
    requires
        0 <= n <= 3,
    ensures
        tokens_from(state, take_in_hand(n, set) + rest, 0) == tokens_from(
            Designation {
                g0: if n == 0 {
                    set
                } else {
                    state.g0
                },
                g1: if n == 1 {
                    set
                } else {
                    state.g1
                },
                g2: if n == 2 {
                    set
                } else {
                    state.g2
                },
                g3: if n == 3 {
                    set
                } else {
                    state.g3
                },
                ..state
            },
            rest,
            0,
        ),
{
    let front = take_in_hand(n, set);
    let data = front + rest;
    let step = code_step(state, data, 0);
    assert(data[0] == 0x1B && data[1] == front[1] && data[2] == front[2]);
    if front.len() == 4 {
        assert(data[3] == 0x42);
    }
    assert(step.next == front.len());
    reading_goes_by_what_is_left(step.state, front, rest, 0);
    assert(tokens_from(state, data, 0) =~= tokens_from(step.state, data, step.next));
}

/// Whatever the sets were, text is read in the set that is taken in hand and called up
/// before it.
pub proof fn text_is_read_in_the_set_named(state: Designation, n: int, set: CodeSet, text: Seq<u8>)
    requires
        0 <= n <= 3,
        set != CodeSet::Kanji,
        are_places(text),
    ensures
        tokens_from(state, take_in_hand(n, set) + (call_low(n) + text), 0) == characters_at(
            set,
            text,
        ),
        n > 0 ==> tokens_from(state, take_in_hand(n, set) + (call_high(n) + raised(text)), 0)
            == characters_at(set, text),
{
    let after = Designation {
        g0: if n == 0 {
            set
        } else {
            state.g0
        },
        g1: if n == 1 {
            set
        } else {
            state.g1
        },
        g2: if n == 2 {
            set
        } else {
            state.g2
        },
        g3: if n == 3 {
            set
        } else {
            state.g3
        },
        ..state
    };
    escapes_take_sets_in_hand(state, n, set, call_low(n) + text);
    escapes_take_sets_in_hand(state, n, set, call_high(n) + raised(text));
    called_up_sets_are_read(after, n, set, text);
}

/// A field starts with kanji for the low bytes and hiragana for the high bytes, and with
/// alphanumeric characters and katakana in hand under 1 and 3.
pub proof fn a_field_starts_with_these_sets(text: Seq<u8>, pairs: Seq<(u8, u8)>)
    requires
        are_places(text),
        are_pairs(pairs),
    ensures
        tokens_of(pair_bytes(pairs)) == kanji_at(pairs),
        tokens_of(raised(text)) == characters_at(CodeSet::Hiragana, text),
        tokens_of(seq![0x0Eu8] + text) == characters_at(CodeSet::Alphanumeric, text),
        tokens_of(seq![0x1Bu8, 0x6E] + text) == characters_at(CodeSet::Hiragana, text),
        tokens_of(seq![0x1Bu8, 0x6F] + text) == characters_at(CodeSet::Katakana, text),
        tokens_of(seq![0x1Bu8, 0x7E] + raised(text)) == characters_at(CodeSet::Alphanumeric, text),
        tokens_of(seq![0x1Bu8, 0x7C] + raised(text)) == characters_at(CodeSet::Katakana, text),
{
    let state = Designation::start();
    lemma_kanji(state, 0, pairs, false);
    lemma_high_text(state, 2, CodeSet::Hiragana, text, 0);
    assert(text.skip(0) =~= text);
    called_up_sets_are_read(state, 1, CodeSet::Alphanumeric, text);
    called_up_sets_are_read(state, 2, CodeSet::Hiragana, text);
    called_up_sets_are_read(state, 3, CodeSet::Katakana, text);
}

/// Ends of lines and spaces are read as such in any set; other control codes, and escape
/// sequences that name nothing known, leave no trace.
pub proof fn control_codes_are_read_in_any_set(state: Designation, b: u8, rest: Seq<u8>)
    ensures
        ({
            let after = tokens_from(state, rest, 0);
            &&& b == 0x0A || b == 0x0D ==> tokens_from(state, seq![b] + rest, 0) == seq![
                Token::Plain('\n'),
            ] + after
            &&& b == 0x20 ==> tokens_from(state, seq![b] + rest, 0) == seq![Token::Plain(' ')]
                + after
            &&& b < 0x0A || 0x0A < b < 0x0D || 0x10 <= b < 0x1B || 0x1B < b < 0x20 || 0x7F <= b
                <= 0xA0 || b == 0xFF ==> tokens_from(state, seq![b] + rest, 0) == after
            &&& b < 0x24 || 0x24 < b < 0x28 || 0x2B < b < 0x6E || 0x6F < b < 0x7C || b > 0x7E
                ==> tokens_from(state, seq![0x1Bu8, b] + rest, 0) == after
        }),
{
    let data = seq![b] + rest;
    assert(data[0] == b);
    let step = code_step(state, data, 0);
    reading_goes_by_what_is_left(state, seq![b], rest, 0);
    if b != 0x1B && step.next == 1 && step.state == state {
        assert(tokens_from(state, data, 0) == step.out + tokens_from(state, data, 1));
        assert(Seq::<Token>::empty() + tokens_from(state, data, 1) =~= tokens_from(state, data, 1));
    }
    let escape = seq![0x1Bu8, b] + rest;
    assert(escape[0] == 0x1B && escape[1] == b);
    let step = code_step(state, escape, 0);
    reading_goes_by_what_is_left(state, seq![0x1Bu8, b], rest, 0);
    if step.next == 2 && step.state == state {
        assert(tokens_from(state, escape, 0) =~= tokens_from(state, escape, 2));
    }
}

/// The text of a field is that of its characters, one after another, without white space
/// at its ends.
pub proof fn text_follows_the_characters(a: Seq<Token>, b: Seq<Token>, c: char, x: u8, y: u8)
    ensures
        tokens_text(a + b) == tokens_text(a) + tokens_text(b),
        tokens_text(seq![Token::Plain(c)]) == seq![c],
        tokens_text(seq![Token::Euc(x, y)]) == euc_jp_text(seq![x, y]),
    decreases b.len(),
{
    reveal_with_fuel(tokens_text, 2);
    assert(seq![Token::Plain(c)].drop_last() =~= Seq::empty());
    assert(seq![Token::Euc(x, y)].drop_last() =~= Seq::empty());
    assert(tokens_text(seq![Token::Plain(c)]) =~= seq![c]);
    assert(tokens_text(seq![Token::Euc(x, y)]) =~= euc_jp_text(seq![x, y]));
    if b.len() == 0 {
        assert(a + b =~= a);
        assert(tokens_text(a + b) =~= tokens_text(a) + tokens_text(b));
    } else {
        text_follows_the_characters(a, b.drop_last(), c, x, y);
        assert((a + b).drop_last() =~= a + b.drop_last());
        assert(tokens_text(a + b) =~= tokens_text(a) + tokens_text(b));
    }
}

/// The text of a field is that of its characters, without white space at its ends.
pub proof fn a_field_is_trimmed(data: Seq<u8>)
    ensures
        b24_text(data) == trim(tokens_text(tokens_of(data))),
        tokens_text(Seq::empty()) == Seq::<char>::empty(),
{
}

} // verus!
