use vstd::prelude::*;
use vstd::string::{StrSliceExecFns, StringExecFns};
use vstd::utf8::{encode_scalar, encode_utf8};

use crate::text::{char_from_u32, push_char};

verus! {

/// The class of a lexical token.
#[derive(Debug, PartialEq, Eq, Structural, Copy, Clone)]
pub enum JT {
    OpenObject,
    CloseObject,
    OpenArray,
    CloseArray,
    Colon,
    Comma,
    WhiteSpace,
    JString,
    JNumber,
}

/// Errors of the lexer. `NeedMoreData` is the normal signal that the current
/// buffer is exhausted; the others are fatal for the document.
#[derive(Debug, PartialEq, Eq, Structural, Copy, Clone)]
pub enum TokenizerErrors {
    EndOfData,
    NeedMoreData,
    WrongEscapeSequence(usize),
    WrongFormat(usize),
}

/// What the lexer remembers between two characters.
#[derive(Debug, PartialEq, Eq, Structural, Copy, Clone)]
pub enum TokenizerState {
    Base,
    ZeroCopyString,
    StartEscaping,
    CopyingString,
    /// Reading the hex digits of `\u`: the value so far, and how many digits remain.
    ReadingHex(u32, u8),
    /// After a high surrogate: waiting for the `\u` of its low half; the flag
    /// says whether the backslash has been read.
    AwaitLowSurrogate(u32, bool),
    /// Reading the hex digits of a low surrogate: the high half, the value
    /// so far, and how many digits remain.
    ReadingLowHex(u32, u32, u8),
    /// Inside a number literal, whose text so far is in the scratch buffer.
    Number,
}

pub open spec fn is_json_whitespace(c: char) -> bool {
    c == ' ' || c == '\t' || c == '\n' || c == '\r'
}

pub open spec fn structural_kind(c: char) -> Option<JT> {
    if c == '{' {
        Some(JT::OpenObject)
    } else if c == '}' {
        Some(JT::CloseObject)
    } else if c == '[' {
        Some(JT::OpenArray)
    } else if c == ']' {
        Some(JT::CloseArray)
    } else if c == ':' {
        Some(JT::Colon)
    } else if c == ',' {
        Some(JT::Comma)
    } else {
        None
    }
}

pub open spec fn is_number_start(c: char) -> bool {
    c == '-' || ('0' <= c && c <= '9')
}

pub open spec fn is_number_char(c: char) -> bool {
    is_number_start(c) || c == '+' || c == '.' || c == 'e' || c == 'E'
}

/// The character that a one-character escape `\c` stands for.
pub open spec fn escape_of(c: char) -> Option<char> {
    if c == '"' {
        Some('"')
    } else if c == '\\' {
        Some('\\')
    } else if c == '/' {
        Some('/')
    } else if c == 'b' {
        Some('\x08')
    } else if c == 'f' {
        Some('\x0c')
    } else if c == 'n' {
        Some('\n')
    } else if c == 'r' {
        Some('\r')
    } else if c == 't' {
        Some('\t')
    } else {
        None
    }
}

pub open spec fn hex_value(c: char) -> Option<u32> {
    if '0' <= c && c <= '9' {
        Some((c as u32 - '0' as u32) as u32)
    } else if 'a' <= c && c <= 'f' {
        Some((c as u32 - 'a' as u32 + 10) as u32)
    } else if 'A' <= c && c <= 'F' {
        Some((c as u32 - 'A' as u32 + 10) as u32)
    } else {
        None
    }
}

/// A code point that a `\uXXXX` escape may stand for on its own.
pub open spec fn is_scalar_value(v: u32) -> bool {
    v < 0xD800 || (0xE000 <= v && v <= 0x10FFFF)
}

pub open spec fn is_high_surrogate(v: u32) -> bool {
    0xD800 <= v && v <= 0xDBFF
}

pub open spec fn is_low_surrogate(v: u32) -> bool {
    0xDC00 <= v && v <= 0xDFFF
}

/// The code point that a surrogate pair stands for.
pub open spec fn pair_value(high: u32, low: u32) -> u32 {
    (0x10000 + (high - 0xD800) * 0x400 + (low - 0xDC00)) as u32
}

/// The value read so far from four hex digits, `rem` of them still to come.
pub open spec fn hex_wf(acc: u32, rem: u8) -> bool {
    (rem == 4 && acc == 0) || (rem == 3 && acc < 16) || (rem == 2 && acc < 256) || (rem == 1
        && acc < 4096)
}

/// The states that hold between calls satisfy their bounds.
pub open spec fn state_wf(st: TokenizerState) -> bool {
    match st {
        TokenizerState::ReadingHex(acc, rem) => hex_wf(acc, rem),
        TokenizerState::AwaitLowSurrogate(high, _) => is_high_surrogate(high),
        TokenizerState::ReadingLowHex(high, acc, rem) => is_high_surrogate(high) && hex_wf(acc, rem),
        _ => true,
    }
}

/// What one character does to the lexer.
pub enum Step {
    /// Go on in this state with this accumulated text.
    Next(TokenizerState, Seq<char>),
    /// A token ends. The first flag says whether the character belongs to
    /// it; the second whether its text was copied to the scratch buffer.
    Emit(JT, Seq<char>, bool, bool),
    /// The character is refused; `true` for a bad escape, `false` for a
    /// character that starts no token.
    Fail(bool),
}

/// The lexer as a machine over characters: the state, the text accumulated
/// for the current token, and the next character.
pub open spec fn step(st: TokenizerState, acc: Seq<char>, c: char) -> Step {
    match st {
        TokenizerState::Base => {
            if is_json_whitespace(c) {
                Step::Next(TokenizerState::Base, acc)
            } else if structural_kind(c) is Some {
                Step::Emit(structural_kind(c)->0, seq![c], true, false)
            } else if c == '"' {
                Step::Next(TokenizerState::ZeroCopyString, Seq::empty())
            } else if is_number_start(c) {
                Step::Next(TokenizerState::Number, seq![c])
            } else {
                Step::Fail(false)
            }
        },
        TokenizerState::ZeroCopyString => {
            if c == '"' {
                Step::Emit(JT::JString, acc, true, false)
            } else if c == '\\' {
                Step::Next(TokenizerState::StartEscaping, acc)
            } else {
                Step::Next(TokenizerState::ZeroCopyString, acc.push(c))
            }
        },
        TokenizerState::CopyingString => {
            if c == '"' {
                Step::Emit(JT::JString, acc, true, true)
            } else if c == '\\' {
                Step::Next(TokenizerState::StartEscaping, acc)
            } else {
                Step::Next(TokenizerState::CopyingString, acc.push(c))
            }
        },
        TokenizerState::StartEscaping => {
            if c == 'u' {
                Step::Next(TokenizerState::ReadingHex(0, 4), acc)
            } else if escape_of(c) is Some {
                Step::Next(TokenizerState::CopyingString, acc.push(escape_of(c)->0))
            } else {
                Step::Fail(true)
            }
        },
        TokenizerState::ReadingHex(v, rem) => {
            if hex_value(c) is Some {
                let nv = (v * 16 + hex_value(c)->0) as u32;
                if rem > 1 {
                    Step::Next(TokenizerState::ReadingHex(nv, (rem - 1) as u8), acc)
                } else if is_high_surrogate(nv) {
                    Step::Next(TokenizerState::AwaitLowSurrogate(nv, false), acc)
                } else if is_scalar_value(nv) {
                    Step::Next(TokenizerState::CopyingString, acc.push(nv as char))
                } else {
                    Step::Fail(true)
                }
            } else {
                Step::Fail(true)
            }
        },
        TokenizerState::AwaitLowSurrogate(high, backslash) => {
            if !backslash && c == '\\' {
                Step::Next(TokenizerState::AwaitLowSurrogate(high, true), acc)
            } else if backslash && c == 'u' {
                Step::Next(TokenizerState::ReadingLowHex(high, 0, 4), acc)
            } else {
                Step::Fail(true)
            }
        },
        TokenizerState::ReadingLowHex(high, v, rem) => {
            if hex_value(c) is Some {
                let nv = (v * 16 + hex_value(c)->0) as u32;
                if rem > 1 {
                    Step::Next(TokenizerState::ReadingLowHex(high, nv, (rem - 1) as u8), acc)
                } else if is_low_surrogate(nv) {
                    Step::Next(
                        TokenizerState::CopyingString,
                        acc.push(pair_value(high, nv) as char),
                    )
                } else {
                    Step::Fail(true)
                }
            } else {
                Step::Fail(true)
            }
        },
        TokenizerState::Number => {
            if is_number_char(c) {
                Step::Next(TokenizerState::Number, acc.push(c))
            } else {
                Step::Emit(JT::JNumber, acc, false, true)
            }
        },
    }
}

/// How a run of the machine over a buffer ends.
pub enum Outcome {
    /// The buffer ran out in this state, with this accumulated text.
    Pending(TokenizerState, Seq<char>),
    /// A token of this kind and text, ending before this position; the flag
    /// says whether its text was copied.
    Token(JT, Seq<char>, int, bool),
    /// A refused character (see `Step::Fail`) at this position, and the text
    /// accumulated before it.
    Failed(bool, int, Seq<char>),
}

/// The state kept when the buffer runs out: a string scanned in place goes
/// on as a copied one.
pub open spec fn resting(st: TokenizerState) -> TokenizerState {
    if st == TokenizerState::ZeroCopyString {
        TokenizerState::CopyingString
    } else {
        st
    }
}

/// Runs the machine over `s` from position `k`.
pub open spec fn run(st: TokenizerState, acc: Seq<char>, s: Seq<char>, k: int) -> Outcome
    decreases s.len() - k,
{
    if k < 0 || k >= s.len() {
        Outcome::Pending(resting(st), acc)
    } else {
        match step(st, acc, s[k]) {
            Step::Next(st2, acc2) => run(st2, acc2, s, k + 1),
            Step::Emit(jt, text, used, copied) => Outcome::Token(
                jt,
                text,
                if used { k + 1 } else { k },
                copied,
            ),
            Step::Fail(e) => Outcome::Failed(e, k, acc),
        }
    }
}

/// The outcome with the copy flag of a token left out.
pub open spec fn erase(o: Outcome) -> Outcome {
    match o {
        Outcome::Token(jt, text, end, _) => Outcome::Token(jt, text, end, false),
        _ => o,
    }
}

/// A string scanned in place and a string being copied read the same text.
pub proof fn lemma_in_place_reads_as_copied(acc: Seq<char>, s: Seq<char>, k: int)
    ensures
        erase(run(TokenizerState::ZeroCopyString, acc, s, k)) == erase(
            run(TokenizerState::CopyingString, acc, s, k),
        ),
    decreases s.len() - k,
{
    if 0 <= k < s.len() {
        let c = s[k];
        if c != '"' && c != '\\' {
            lemma_in_place_reads_as_copied(acc.push(c), s, k + 1);
        }
    }
}

/// A token ends at or after the position where the run began, and after it
/// unless a number was pending there.
pub proof fn lemma_token_progress(st: TokenizerState, acc: Seq<char>, s: Seq<char>, k: int)
    requires
        0 <= k,
        run(st, acc, s, k) is Token,
    ensures
        run(st, acc, s, k)->Token_2 >= k,
        run(st, acc, s, k)->Token_2 <= s.len(),
        st != TokenizerState::Number ==> run(st, acc, s, k)->Token_2 > k,
    decreases s.len() - k,
{
    if k < s.len() {
        match step(st, acc, s[k]) {
            Step::Next(st2, acc2) => {
                lemma_token_progress(st2, acc2, s, k + 1);
            },
            _ => {},
        }
    }
}

/// The outcome `o` of a run over a buffer, placed after `n` characters that
/// came before it.
pub open spec fn shifted(o: Outcome, n: int) -> Outcome {
    match o {
        Outcome::Pending(st, acc) => Outcome::Pending(st, acc),
        Outcome::Token(jt, text, end, copied) => Outcome::Token(jt, text, end + n, copied),
        Outcome::Failed(escape, at, acc) => Outcome::Failed(escape, at + n, acc),
    }
}

/// Splitting the input anywhere changes nothing: when a run over `a` from
/// position `i` stops at the end of `a`, running on over `b` from the state
/// and text it left gives what a run over `a + b` gives, positions aside.
/// Only whether a string's text had to be copied may differ.
pub proof fn lemma_resumption(st: TokenizerState, acc: Seq<char>, a: Seq<char>, b: Seq<char>, i: int)
    requires
        0 <= i <= a.len(),
        run(st, acc, a, i) is Pending,
    ensures
        erase(run(st, acc, a + b, i)) == erase(
            shifted(
                run(run(st, acc, a, i)->Pending_0, run(st, acc, a, i)->Pending_1, b, 0),
                a.len() as int,
            ),
        ),
    decreases a.len() - i,
{
    if i == a.len() {
        lemma_run_from_offset(resting(st), acc, a, b, 0);
        lemma_in_place_reads_as_copied(acc, a + b, i);
    } else {
        assert((a + b)[i] == a[i]);
        match step(st, acc, a[i]) {
            Step::Next(st2, acc2) => {
                lemma_resumption(st2, acc2, a, b, i + 1);
            },
            _ => {},
        }
    }
}

/// Runs the machine over the buffers of `chunks` in turn, each from its
/// start, going on from the state and text that the previous one left.
/// Positions count from the start of the first buffer.
pub open spec fn run_chunks(st: TokenizerState, acc: Seq<char>, chunks: Seq<Seq<char>>) -> Outcome
    decreases chunks.len(),
{
    if chunks.len() == 0 {
        Outcome::Pending(resting(st), acc)
    } else {
        match run(st, acc, chunks[0], 0) {
            Outcome::Pending(st2, acc2) => shifted(
                run_chunks(st2, acc2, chunks.drop_first()),
                chunks[0].len() as int,
            ),
            o => o,
        }
    }
}

/// However the input is cut into buffers, the lexer reads the same: the
/// same token with the same text, ending at the same place, or the same
/// error. Only whether a string's text had to be copied may differ.
pub proof fn lemma_resumption_chunks(st: TokenizerState, acc: Seq<char>, chunks: Seq<Seq<char>>)
    ensures
        erase(run_chunks(st, acc, chunks)) == erase(run(st, acc, chunks.flatten(), 0)),
    decreases chunks.len(),
{
    if chunks.len() > 0 {
        let c0 = chunks[0];
        let rest = chunks.drop_first().flatten();
        assert(chunks.flatten() == c0 + rest);
        match run(st, acc, c0, 0) {
            Outcome::Pending(st2, acc2) => {
                lemma_resumption(st, acc, c0, rest, 0);
                lemma_resumption_chunks(st2, acc2, chunks.drop_first());
                let x = run_chunks(st2, acc2, chunks.drop_first());
                let y = run(st2, acc2, rest, 0);
                assert(erase(shifted(x, c0.len() as int)) == erase(shifted(y, c0.len() as int)));
            },
            _ => {
                lemma_run_settled(st, acc, c0, rest, 0);
            },
        }
    }
}

/// A run that ends within `a` ends the same way with more input after `a`.
proof fn lemma_run_settled(st: TokenizerState, acc: Seq<char>, a: Seq<char>, b: Seq<char>, i: int)
    requires
        0 <= i,
        !(run(st, acc, a, i) is Pending),
    ensures
        run(st, acc, a + b, i) == run(st, acc, a, i),
    decreases a.len() - i,
{
    if i < a.len() {
        assert((a + b)[i] == a[i]);
        match step(st, acc, a[i]) {
            Step::Next(st2, acc2) => {
                lemma_run_settled(st2, acc2, a, b, i + 1);
            },
            _ => {},
        }
    }
}

/// A run over `b` from position `k` is a run over `a + b` from `k + a.len()`,
/// positions aside.
proof fn lemma_run_from_offset(st: TokenizerState, acc: Seq<char>, a: Seq<char>, b: Seq<char>, k: int)
    requires
        0 <= k <= b.len(),
    ensures
        run(st, acc, a + b, k + a.len()) == shifted(run(st, acc, b, k), a.len() as int),
    decreases b.len() - k,
{
    if k < b.len() {
        assert((a + b)[k + a.len()] == b[k]);
        match step(st, acc, b[k]) {
            Step::Next(st2, acc2) => {
                lemma_run_from_offset(st2, acc2, a, b, k + 1);
            },
            _ => {},
        }
    }
}

/// A string literal without escapes is read in place, as the characters
/// between its quotes, and the token ends after the closing quote.
pub proof fn lemma_plain_string(s: Seq<char>, open: int, close: int)
    requires
        0 <= open < close < s.len(),
        s[open] == '"',
        s[close] == '"',
        forall|j: int| open < j < close ==> s[j] != '"' && s[j] != '\\',
    ensures
        run(TokenizerState::Base, Seq::empty(), s, open) == Outcome::Token(
            JT::JString,
            s.subrange(open + 1, close),
            close + 1,
            false,
        ),
{
    lemma_plain_string_rest(s, open + 1, close);
    assert(s.subrange(open + 1, open + 1) =~= Seq::<char>::empty());
}

proof fn lemma_plain_string_rest(s: Seq<char>, k: int, close: int)
    requires
        0 < k <= close < s.len(),
        s[close] == '"',
        forall|j: int| k <= j < close ==> s[j] != '"' && s[j] != '\\',
    ensures
        forall|start: int|
            0 < start <= k ==> run(TokenizerState::ZeroCopyString, s.subrange(start, k), s, k)
                == Outcome::Token(JT::JString, s.subrange(start, close), close + 1, false),
    decreases close - k,
{
    if k < close {
        lemma_plain_string_rest(s, k + 1, close);
        assert forall|start: int| 0 < start <= k implies run(
            TokenizerState::ZeroCopyString,
            s.subrange(start, k),
            s,
            k,
        ) == Outcome::Token(JT::JString, s.subrange(start, close), close + 1, false) by {
            assert(s.subrange(start, k).push(s[k]) =~= s.subrange(start, k + 1));
        }
    }
}

/// The number of bytes that the first `k` characters of `s` take in UTF-8:
/// the byte offset of character position `k`.
pub open spec fn byte_offset(s: Seq<char>, k: int) -> int {
    encode_utf8(s.take(k)).len() as int
}

/// `b` is the byte offset of a character position of `s`.
pub open spec fn on_char(s: Seq<char>, b: int) -> bool {
    exists|k: int| 0 <= k <= s.len() && byte_offset(s, k) == b
}

/// The character position whose byte offset is `b`.
pub open spec fn char_index(s: Seq<char>, b: int) -> int {
    choose|k: int| 0 <= k <= s.len() && byte_offset(s, k) == b
}

proof fn lemma_encode_push(a: Seq<char>, x: char)
    ensures
        encode_utf8(a.push(x)) == encode_utf8(a) + encode_scalar(x as u32),
    decreases a.len(),
{
    if a.len() == 0 {
        reveal_with_fuel(encode_utf8, 2);
        assert(a.push(x).drop_first() =~= Seq::<char>::empty());
        assert(encode_utf8(a.push(x)) =~= encode_scalar(x as u32));
    } else {
        assert(a.push(x).drop_first() =~= a.drop_first().push(x));
        lemma_encode_push(a.drop_first(), x);
        assert(encode_utf8(a.push(x)) =~= encode_utf8(a) + encode_scalar(x as u32));
    }
}

proof fn lemma_offset_step(s: Seq<char>, k: int)
    requires
        0 <= k < s.len(),
    ensures
        byte_offset(s, k + 1) == byte_offset(s, k) + encode_scalar(s[k] as u32).len(),
        encode_scalar(s[k] as u32).len() >= 1,
{
    assert(s.take(k + 1) =~= s.take(k).push(s[k]));
    lemma_encode_push(s.take(k), s[k]);
}

proof fn lemma_offset_grows(s: Seq<char>, j: int, k: int)
    requires
        0 <= j <= k <= s.len(),
    ensures
        byte_offset(s, j) <= byte_offset(s, k),
        j < k ==> byte_offset(s, j) < byte_offset(s, k),
    decreases k - j,
{
    if j < k {
        lemma_offset_step(s, k - 1);
        lemma_offset_grows(s, j, k - 1);
    }
}

pub proof fn lemma_char_index(s: Seq<char>, k: int)
    requires
        0 <= k <= s.len(),
    ensures
        on_char(s, byte_offset(s, k)),
        char_index(s, byte_offset(s, k)) == k,
{
    let j = char_index(s, byte_offset(s, k));
    if j < k {
        lemma_offset_grows(s, j, k);
    } else if j > k {
        lemma_offset_grows(s, k, j);
    }
}

proof fn lemma_offset_end(s: Seq<char>)
    ensures
        byte_offset(s, s.len() as int) == encode_utf8(s).len(),
{
    assert(s.take(s.len() as int) =~= s);
}

/// What the cursor needs at character position `i`.
pub proof fn lemma_position(s: Seq<char>, i: int)
    requires
        0 <= i <= s.len(),
    ensures
        on_char(s, byte_offset(s, i)),
        char_index(s, byte_offset(s, i)) == i,
        byte_offset(s, i) <= encode_utf8(s).len(),
        i == s.len() ==> byte_offset(s, i) == encode_utf8(s).len(),
        i < s.len() ==> byte_offset(s, i + 1) == byte_offset(s, i) + encode_scalar(
            s[i] as u32,
        ).len(),
{
    lemma_char_index(s, i);
    lemma_offset_end(s);
    lemma_offset_grows(s, i, s.len() as int);
    if i < s.len() {
        lemma_offset_step(s, i);
    }
}

/// The states in which the token's text is being copied.
pub open spec fn copying(st: TokenizerState) -> bool {
    st == TokenizerState::CopyingString || st == TokenizerState::StartEscaping
        || st is ReadingHex || st is AwaitLowSurrogate || st is ReadingLowHex
        || st == TokenizerState::Number
}

/// While text is copied, what was copied before is kept: it begins the
/// token's text, the text held at an error, and the text held at the end of
/// the buffer.
pub proof fn lemma_copied_text_kept(st: TokenizerState, acc: Seq<char>, s: Seq<char>, k: int)
    requires
        copying(st),
    ensures
        match run(st, acc, s, k) {
            Outcome::Pending(st2, a) => copying(st2) && acc.is_prefix_of(a),
            Outcome::Token(_, text, _, copied) => copied && acc.is_prefix_of(text),
            Outcome::Failed(escape, _, a) => escape && acc.is_prefix_of(a),
        },
    decreases s.len() - k,
{
    if 0 <= k < s.len() {
        match step(st, acc, s[k]) {
            Step::Next(st2, acc2) => {
                lemma_copied_text_kept(st2, acc2, s, k + 1);
                assert(acc.is_prefix_of(acc2));
                match run(st2, acc2, s, k + 1) {
                    Outcome::Pending(_, a) => assert(acc.is_prefix_of(a)),
                    Outcome::Token(_, text, _, _) => assert(acc.is_prefix_of(text)),
                    Outcome::Failed(_, _, a) => assert(acc.is_prefix_of(a)),
                }
            },
            _ => {},
        }
    }
}

/// The error that reports a refused character at byte offset `at`.
pub open spec fn fault_at(escape: bool, at: int) -> TokenizerErrors {
    if escape {
        TokenizerErrors::WrongEscapeSequence(at as usize)
    } else {
        TokenizerErrors::WrongFormat(at as usize)
    }
}

/// A token: its class and its text. The text of a string literal without
/// escapes is a slice of the input buffer; otherwise it is the lexer's
/// scratch buffer.
#[derive(Debug, PartialEq, Eq)]
pub struct JValues<'s> {
    pub slice: &'s str,
    pub jt: JT,
}

/// The resumable lexer. `index` is the cursor, a byte offset into the
/// buffer of the current call.
pub struct Tokenizer {
    pub scratch: String,
    pub state: TokenizerState,
    pub index: usize,
}

impl Tokenizer {
    /// The text accumulated for the token in progress.
    pub open spec fn acc(&self) -> Seq<char> {
        match self.state {
            TokenizerState::Base | TokenizerState::ZeroCopyString => Seq::empty(),
            _ => self.scratch@,
        }
    }

    /// The lexer may be run on `data`: the cursor is on a character boundary
    /// and the buffer's length fits in `usize`.
    pub open spec fn ready(&self, data: Seq<char>) -> bool {
        &&& on_char(data, self.index as int)
        &&& encode_utf8(data).len() <= usize::MAX
        &&& state_wf(self.state)
    }

    /// How a call on `data` ends, by the machine of `step`, counted in
    /// characters.
    pub open spec fn outcome(&self, data: Seq<char>) -> Outcome {
        run(self.state, self.acc(), data, char_index(data, self.index as int))
    }
}

/// What a call of the lexer on `data` returns and leaves behind, given how
/// the machine runs from the state before the call. Positions are byte
/// offsets.
pub open spec fn tokenize_post(
    pre: Tokenizer,
    post: Tokenizer,
    data: Seq<char>,
    r: Result<JValues, TokenizerErrors>,
) -> bool {
    &&& state_wf(post.state)
    &&& on_char(data, post.index as int)
    &&& match pre.outcome(data) {
        Outcome::Pending(st, acc) => {
            &&& r == Err::<JValues, TokenizerErrors>(TokenizerErrors::NeedMoreData)
            &&& post.state == st
            &&& post.index == encode_utf8(data).len()
            &&& post.acc() == acc
            &&& st == TokenizerState::Base ==> post.scratch@ == pre.scratch@
        },
        Outcome::Token(jt, text, end, copied) => {
            &&& r is Ok
            &&& r->Ok_0.jt == jt
            &&& r->Ok_0.slice@ == text
            &&& post.state == TokenizerState::Base
            &&& post.index == byte_offset(data, end)
            &&& if copied {
                post.scratch@ == text
            } else {
                post.scratch@ == pre.scratch@
            }
        },
        Outcome::Failed(escape, at, acc) => {
            &&& r == Err::<JValues, TokenizerErrors>(fault_at(escape, byte_offset(data, at)))
            &&& if escape {
                post.scratch@ == acc
            } else {
                post.scratch@ == pre.scratch@
            }
        },
    }
}

fn structural(c: char) -> (r: Option<JT>)
    ensures
        r == structural_kind(c),
{
    match c {
        '{' => Some(JT::OpenObject),
        '}' => Some(JT::CloseObject),
        '[' => Some(JT::OpenArray),
        ']' => Some(JT::CloseArray),
        ':' => Some(JT::Colon),
        ',' => Some(JT::Comma),
        _ => None,
    }
}

fn unescape(c: char) -> (r: Option<char>)
    ensures
        r == escape_of(c),
{
    match c {
        '"' => Some('"'),
        '\\' => Some('\\'),
        '/' => Some('/'),
        'b' => Some('\x08'),
        'f' => Some('\x0c'),
        'n' => Some('\n'),
        'r' => Some('\r'),
        't' => Some('\t'),
        _ => None,
    }
}

fn hex_digit(c: char) -> (r: Option<u32>)
    ensures
        r == hex_value(c),
{
    if '0' <= c && c <= '9' {
        Some(c as u32 - '0' as u32)
    } else if 'a' <= c && c <= 'f' {
        Some(c as u32 - 'a' as u32 + 10)
    } else if 'A' <= c && c <= 'F' {
        Some(c as u32 - 'A' as u32 + 10)
    } else {
        None
    }
}

/// The number of bytes of `c` in UTF-8.
fn char_width(c: char) -> (w: usize)
    ensures
        w == encode_scalar(c as u32).len(),
{
    proof {
        vstd::utf8::char_is_scalar(c);
    }
    let v = c as u32;
    if v < 0x80 {
        1
    } else if v < 0x800 {
        2
    } else if v < 0x10000 {
        3
    } else {
        4
    }
}

/// The character position `k` of `data` at byte offset `index`, and the
/// number of characters of `data`.
fn char_position(data: &str, index: usize) -> (r: (usize, usize))
    requires
        on_char(data@, index as int),
    ensures
        r.0 == char_index(data@, index as int),
        r.0 <= r.1 == data@.len(),
        byte_offset(data@, r.0 as int) == index,
{
    let n = data.unicode_len();
    let ghost target = char_index(data@, index as int);
    proof {
        lemma_char_index(data@, target);
        assert(data@.take(0) =~= Seq::<char>::empty());
    }
    let mut k: usize = 0;
    let mut b: usize = 0;
    while b < index
        invariant
            0 <= k <= target <= n == data@.len(),
            b == byte_offset(data@, k as int),
            index == byte_offset(data@, target),
            target == char_index(data@, index as int),
        decreases target - k,
    {
        proof {
            if k == target {
                assert(false);
            }
            lemma_offset_step(data@, k as int);
            lemma_offset_grows(data@, k + 1, target);
        }
        b = b + char_width(data.get_char(k));
        k = k + 1;
    }
    proof {
        if k < target {
            lemma_offset_grows(data@, k as int, target);
        }
    }
    (k, n)
}

impl Tokenizer {
    /// A lexer at the start of a document.
    pub fn new() -> (t: Tokenizer)
        ensures
            t.state == TokenizerState::Base,
            t.index == 0,
            t.scratch@ == Seq::<char>::empty(),
    {
        Tokenizer { scratch: String::new(), state: TokenizerState::Base, index: 0 }
    }

    /// Moves the cursor to the start of the next buffer; the state and the
    /// text of the token in progress are kept.
    pub fn next_buffer(&mut self)
        ensures
            final(self).index == 0,
            final(self).state == old(self).state,
            final(self).scratch == old(self).scratch,
    {
        self.index = 0;
    }

    /// Reads the next token from `data`, resuming where the previous call
    /// stopped. `NeedMoreData` means that `data` is used up; the caller then
    /// calls again with the next buffer and the cursor set to its start.
    pub fn tokenize<'a>(&'a mut self, data: &'a str) -> (r: Result<JValues<'a>, TokenizerErrors>)
        requires
            old(self).ready(data@),
        ensures
            tokenize_post(*old(self), *final(self), data@, r),
    {
        match self.state {
            TokenizerState::Base => self.tokenize_base(data),
            TokenizerState::ZeroCopyString => self.tokenize_zero_copy_string(data),
            TokenizerState::StartEscaping => self.tokenize_start_escaping(data),
            TokenizerState::CopyingString => self.tokenize_copying_string(data),
            TokenizerState::ReadingHex(..) => self.tokenize_reading_hex(data),
            TokenizerState::AwaitLowSurrogate(..) | TokenizerState::ReadingLowHex(..) => {
                self.tokenize_low_surrogate(data)
            },
            TokenizerState::Number => self.tokenize_number(data),
        }
    }

    /// Skips whitespace and classifies the character that starts a token.
    pub fn tokenize_base<'a>(&'a mut self, data: &'a str) -> (r: Result<JValues<'a>, TokenizerErrors>)
        requires
            old(self).ready(data@),
            old(self).state == TokenizerState::Base,
        ensures
            tokenize_post(*old(self), *final(self), data@, r),
        decreases data@.len() - char_index(data@, old(self).index as int), 0int,
    {
        let (start, len) = char_position(data, self.index);
        let mut i = start;
        let mut b = self.index;
        while i < len
            invariant
                start <= i <= len == data@.len(),
                start == char_index(data@, old(self).index as int),
                b == byte_offset(data@, i as int),
                encode_utf8(data@).len() <= usize::MAX,
                old(self).ready(data@),
                self.index == old(self).index,
                self.state == TokenizerState::Base,
                self.scratch == old(self).scratch,
                old(self).outcome(data@) == run(TokenizerState::Base, Seq::empty(), data@, i as int),
            decreases len - i,
        {
            let c = data.get_char(i);
            proof {
                lemma_position(data@, i as int);
                lemma_position(data@, i + 1);
            }
            let w = char_width(c);
            if let Some(jt) = structural(c) {
                self.index = b + w;
                let slice = data.substring_char(i, i + 1);
                assert(slice@ =~= seq![c]);
                return Ok(JValues { slice, jt });
            } else if c == '"' {
                self.index = b + w;
                self.state = TokenizerState::ZeroCopyString;
                return self.tokenize_zero_copy_string(data);
            } else if '0' <= c && c <= '9' || c == '-' {
                self.scratch = String::new();
                push_char(&mut self.scratch, c);
                self.index = b + w;
                self.state = TokenizerState::Number;
                proof {
                    lemma_copied_text_kept(self.state, self.scratch@, data@, i + 1);
                }
                return self.tokenize_number(data);
            } else if c == ' ' || c == '\t' || c == '\n' || c == '\r' {
                i = i + 1;
                b = b + w;
            } else {
                return Err(TokenizerErrors::WrongFormat(b));
            }
        }
        proof {
            lemma_position(data@, i as int);
        }
        self.index = b;
        Err(TokenizerErrors::NeedMoreData)
    }

    /// Scans a string literal in place; the text is copied only when an
    /// escape or the end of the buffer comes before the closing quote.
    pub fn tokenize_zero_copy_string<'a>(&'a mut self, data: &'a str) -> (r: Result<JValues<'a>, TokenizerErrors>)
        requires
            old(self).ready(data@),
            old(self).state == TokenizerState::ZeroCopyString,
        ensures
            tokenize_post(*old(self), *final(self), data@, r),
        decreases data@.len() - char_index(data@, old(self).index as int), 1int,
    {
        let (begin, len) = char_position(data, self.index);
        let mut i = begin;
        let mut b = self.index;
        assert(data@.subrange(begin as int, begin as int) =~= Seq::<char>::empty());
        while i < len
            invariant
                begin <= i <= len == data@.len(),
                begin == char_index(data@, old(self).index as int),
                b == byte_offset(data@, i as int),
                encode_utf8(data@).len() <= usize::MAX,
                old(self).ready(data@),
                self.index == old(self).index,
                self.state == TokenizerState::ZeroCopyString,
                self.scratch == old(self).scratch,
                old(self).outcome(data@) == run(
                    TokenizerState::ZeroCopyString,
                    data@.subrange(begin as int, i as int),
                    data@,
                    i as int,
                ),
            decreases len - i,
        {
            let c = data.get_char(i);
            proof {
                lemma_position(data@, i as int);
                lemma_position(data@, i + 1);
            }
            let w = char_width(c);
            if c == '"' {
                self.index = b + w;
                self.state = TokenizerState::Base;
                return Ok(JValues { slice: data.substring_char(begin, i), jt: JT::JString });
            } else if c == '\\' {
                self.scratch = String::new();
                self.scratch.append(data.substring_char(begin, i));
                self.index = b + w;
                self.state = TokenizerState::StartEscaping;
                proof {
                    lemma_copied_text_kept(self.state, self.scratch@, data@, i + 1);
                }
                return self.tokenize_start_escaping(data);
            }
            assert(data@.subrange(begin as int, i as int).push(c) =~= data@.subrange(
                begin as int,
                i + 1,
            ));
            i = i + 1;
            b = b + w;
        }
        proof {
            lemma_position(data@, i as int);
        }
        self.scratch = String::new();
        self.scratch.append(data.substring_char(begin, len));
        self.state = TokenizerState::CopyingString;
        self.index = b;
        Err(TokenizerErrors::NeedMoreData)
    }

    /// Decodes the character after a backslash.
    pub fn tokenize_start_escaping<'a>(&'a mut self, data: &'a str) -> (r: Result<JValues<'a>, TokenizerErrors>)
        requires
            old(self).ready(data@),
            old(self).state == TokenizerState::StartEscaping,
        ensures
            tokenize_post(*old(self), *final(self), data@, r),
            old(self).scratch@.is_prefix_of(final(self).scratch@),
        decreases data@.len() - char_index(data@, old(self).index as int), 2int,
    {
        let (k, len) = char_position(data, self.index);
        proof {
            lemma_position(data@, k as int);
        }
        if k < len {
            let c = data.get_char(k);
            proof {
                lemma_position(data@, k + 1);
            }
            let w = char_width(c);
            if c == 'u' {
                self.index = self.index + w;
                self.state = TokenizerState::ReadingHex(0, 4);
                proof {
                    lemma_copied_text_kept(self.state, self.scratch@, data@, k + 1);
                }
                return self.tokenize_reading_hex(data);
            }
            match unescape(c) {
                Some(to_add) => {
                    push_char(&mut self.scratch, to_add);
                    self.index = self.index + w;
                    self.state = TokenizerState::CopyingString;
                    proof {
                        lemma_copied_text_kept(self.state, self.scratch@, data@, k + 1);
                    }
                    self.tokenize_copying_string(data)
                },
                None => Err(TokenizerErrors::WrongEscapeSequence(self.index)),
            }
        } else {
            Err(TokenizerErrors::NeedMoreData)
        }
    }

    /// Scans the rest of a string literal into the scratch buffer.
    pub fn tokenize_copying_string<'a>(&'a mut self, data: &'a str) -> (r: Result<JValues<'a>, TokenizerErrors>)
        requires
            old(self).ready(data@),
            old(self).state == TokenizerState::CopyingString,
        ensures
            tokenize_post(*old(self), *final(self), data@, r),
            old(self).scratch@.is_prefix_of(final(self).scratch@),
        decreases data@.len() - char_index(data@, old(self).index as int), 3int,
    {
        let (start, len) = char_position(data, self.index);
        proof {
            lemma_copied_text_kept(TokenizerState::CopyingString, self.scratch@, data@, start as int);
        }
        let mut i = start;
        let mut b = self.index;
        while i < len
            invariant
                start <= i <= len == data@.len(),
                start == char_index(data@, old(self).index as int),
                b == byte_offset(data@, i as int),
                encode_utf8(data@).len() <= usize::MAX,
                old(self).ready(data@),
                self.index == old(self).index,
                self.state == TokenizerState::CopyingString,
                old(self).scratch@.is_prefix_of(self.scratch@),
                old(self).outcome(data@) == run(
                    TokenizerState::CopyingString,
                    self.scratch@,
                    data@,
                    i as int,
                ),
            decreases len - i,
        {
            let c = data.get_char(i);
            proof {
                lemma_position(data@, i as int);
                lemma_position(data@, i + 1);
            }
            let w = char_width(c);
            if c == '"' {
                self.index = b + w;
                self.state = TokenizerState::Base;
                assert(old(self).outcome(data@) == Outcome::Token(
                    JT::JString,
                    self.scratch@,
                    i + 1,
                    true,
                ));
                return Ok(JValues { slice: self.scratch.as_str(), jt: JT::JString });
            } else if c == '\\' {
                self.index = b + w;
                self.state = TokenizerState::StartEscaping;
                proof {
                    lemma_copied_text_kept(self.state, self.scratch@, data@, i + 1);
                }
                return self.tokenize_start_escaping(data);
            }
            let ghost before = self.scratch@;
            push_char(&mut self.scratch, c);
            assert(old(self).scratch@.is_prefix_of(self.scratch@)) by {
                assert(self.scratch@.take(before.len() as int) =~= before);
            }
            i = i + 1;
            b = b + w;
        }
        proof {
            lemma_position(data@, i as int);
        }
        self.index = b;
        Err(TokenizerErrors::NeedMoreData)
    }

    /// Reads the hex digits of a `\u` escape and appends the character they
    /// name.
    pub fn tokenize_reading_hex<'a>(&'a mut self, data: &'a str) -> (r: Result<JValues<'a>, TokenizerErrors>)
        requires
            old(self).ready(data@),
            old(self).state is ReadingHex,
        ensures
            tokenize_post(*old(self), *final(self), data@, r),
            old(self).scratch@.is_prefix_of(final(self).scratch@),
        decreases data@.len() - char_index(data@, old(self).index as int), 4int,
    {
        let (start, len) = char_position(data, self.index);
        let (mut v, mut rem) = match self.state {
            TokenizerState::ReadingHex(v, rem) => (v, rem),
            _ => (0, 4),
        };
        let mut i = start;
        let mut b = self.index;
        while i < len
            invariant
                start <= i <= len == data@.len(),
                start == char_index(data@, old(self).index as int),
                b == byte_offset(data@, i as int),
                encode_utf8(data@).len() <= usize::MAX,
                old(self).ready(data@),
                self.index == old(self).index,
                self.state == old(self).state,
                self.scratch == old(self).scratch,
                state_wf(TokenizerState::ReadingHex(v, rem)),
                state_wf(old(self).state),
                old(self).outcome(data@) == run(
                    TokenizerState::ReadingHex(v, rem),
                    self.scratch@,
                    data@,
                    i as int,
                ),
            decreases len - i,
        {
            let c = data.get_char(i);
            proof {
                lemma_position(data@, i as int);
                lemma_position(data@, i + 1);
            }
            let w = char_width(c);
            match hex_digit(c) {
                None => {
                    return Err(TokenizerErrors::WrongEscapeSequence(b));
                },
                Some(d) => {
                    let nv = v * 16 + d;
                    if rem > 1 {
                        v = nv;
                        rem = rem - 1;
                        i = i + 1;
                        b = b + w;
                    } else if 0xD800 <= nv && nv <= 0xDBFF {
                        self.index = b + w;
                        self.state = TokenizerState::AwaitLowSurrogate(nv, false);
                        proof {
                            lemma_copied_text_kept(self.state, self.scratch@, data@, i + 1);
                        }
                        return self.tokenize_low_surrogate(data);
                    } else {
                        match char_from_u32(nv) {
                            None => {
                                return Err(TokenizerErrors::WrongEscapeSequence(b));
                            },
                            Some(decoded) => {
                                proof {
                                    vstd::utf8::char_u32_cast(decoded, nv);
                                }
                                push_char(&mut self.scratch, decoded);
                                self.index = b + w;
                                self.state = TokenizerState::CopyingString;
                                proof {
                                    lemma_copied_text_kept(self.state, self.scratch@, data@, i + 1);
                                }
                                return self.tokenize_copying_string(data);
                            },
                        }
                    }
                },
            }
        }
        proof {
            lemma_position(data@, i as int);
        }
        self.state = TokenizerState::ReadingHex(v, rem);
        self.index = b;
        Err(TokenizerErrors::NeedMoreData)
    }

    /// Reads the `\u` and the hex digits of the low half of a surrogate
    /// pair, and appends the character that the pair names.
    pub fn tokenize_low_surrogate<'a>(&'a mut self, data: &'a str) -> (r: Result<JValues<'a>, TokenizerErrors>)
        requires
            old(self).ready(data@),
            old(self).state is AwaitLowSurrogate || old(self).state is ReadingLowHex,
        ensures
            tokenize_post(*old(self), *final(self), data@, r),
            old(self).scratch@.is_prefix_of(final(self).scratch@),
        decreases data@.len() - char_index(data@, old(self).index as int), 5int,
    {
        let (start, len) = char_position(data, self.index);
        let mut st = self.state;
        let mut i = start;
        let mut b = self.index;
        while i < len
            invariant
                start <= i <= len == data@.len(),
                start == char_index(data@, old(self).index as int),
                b == byte_offset(data@, i as int),
                encode_utf8(data@).len() <= usize::MAX,
                old(self).ready(data@),
                self.index == old(self).index,
                self.state == old(self).state,
                self.scratch == old(self).scratch,
                st is AwaitLowSurrogate || st is ReadingLowHex,
                state_wf(st),
                old(self).outcome(data@) == run(st, self.scratch@, data@, i as int),
            decreases len - i,
        {
            let c = data.get_char(i);
            proof {
                lemma_position(data@, i as int);
                lemma_position(data@, i + 1);
            }
            let w = char_width(c);
            match st {
                TokenizerState::AwaitLowSurrogate(high, false) => {
                    if c != '\\' {
                        return Err(TokenizerErrors::WrongEscapeSequence(b));
                    }
                    st = TokenizerState::AwaitLowSurrogate(high, true);
                },
                TokenizerState::AwaitLowSurrogate(high, true) => {
                    if c != 'u' {
                        return Err(TokenizerErrors::WrongEscapeSequence(b));
                    }
                    st = TokenizerState::ReadingLowHex(high, 0, 4);
                },
                TokenizerState::ReadingLowHex(high, v, rem) => {
                    let d = match hex_digit(c) {
                        Some(d) => d,
                        None => {
                            return Err(TokenizerErrors::WrongEscapeSequence(b));
                        },
                    };
                    let nv = v * 16 + d;
                    if rem > 1 {
                        st = TokenizerState::ReadingLowHex(high, nv, rem - 1);
                    } else if 0xDC00 <= nv && nv <= 0xDFFF {
                        let code = 0x10000 + (high - 0xD800) * 0x400 + (nv - 0xDC00);
                        match char_from_u32(code) {
                            Some(decoded) => {
                                proof {
                                    vstd::utf8::char_u32_cast(decoded, code);
                                }
                                push_char(&mut self.scratch, decoded);
                                self.index = b + w;
                                self.state = TokenizerState::CopyingString;
                                proof {
                                    lemma_copied_text_kept(self.state, self.scratch@, data@, i + 1);
                                }
                                return self.tokenize_copying_string(data);
                            },
                            None => {
                                return Err(TokenizerErrors::WrongEscapeSequence(b));
                            },
                        }
                    } else {
                        return Err(TokenizerErrors::WrongEscapeSequence(b));
                    }
                },
                _ => {
                    return Err(TokenizerErrors::WrongEscapeSequence(b));
                },
            }
            i = i + 1;
            b = b + w;
        }
        proof {
            lemma_position(data@, i as int);
        }
        self.state = st;
        self.index = b;
        Err(TokenizerErrors::NeedMoreData)
    }

    /// Scans the rest of a number literal into the scratch buffer. The
    /// character that ends it is left for the next token.
    pub fn tokenize_number<'a>(&'a mut self, data: &'a str) -> (r: Result<JValues<'a>, TokenizerErrors>)
        requires
            old(self).ready(data@),
            old(self).state == TokenizerState::Number,
        ensures
            tokenize_post(*old(self), *final(self), data@, r),
            old(self).scratch@.is_prefix_of(final(self).scratch@),
    {
        let (start, len) = char_position(data, self.index);
        let mut i = start;
        let mut b = self.index;
        while i < len
            invariant
                start <= i <= len == data@.len(),
                start == char_index(data@, old(self).index as int),
                b == byte_offset(data@, i as int),
                encode_utf8(data@).len() <= usize::MAX,
                old(self).ready(data@),
                self.index == old(self).index,
                self.state == TokenizerState::Number,
                old(self).scratch@.is_prefix_of(self.scratch@),
                old(self).outcome(data@) == run(TokenizerState::Number, self.scratch@, data@, i as int),
            decreases len - i,
        {
            let c = data.get_char(i);
            proof {
                lemma_position(data@, i as int);
                lemma_position(data@, i + 1);
            }
            let w = char_width(c);
            if '0' <= c && c <= '9' || c == '-' || c == '+' || c == '.' || c == 'e' || c == 'E' {
                let ghost before = self.scratch@;
                push_char(&mut self.scratch, c);
                assert(old(self).scratch@.is_prefix_of(self.scratch@)) by {
                    assert(self.scratch@.take(before.len() as int) =~= before);
                }
                i = i + 1;
                b = b + w;
            } else {
                self.index = b;
                self.state = TokenizerState::Base;
                return Ok(JValues { slice: self.scratch.as_str(), jt: JT::JNumber });
            }
        }
        proof {
            lemma_position(data@, i as int);
        }
        self.index = b;
        Err(TokenizerErrors::NeedMoreData)
    }
}

} // verus!
