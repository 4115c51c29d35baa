//! The structural parser: nesting grammar, location tracking and events.
use vstd::prelude::*;

use crate::lexer::{
    byte_offset, char_index, fault_at, lemma_char_index, lemma_position, lemma_token_progress, run,
    Outcome,
    TokenizerState, JT, Tokenizer, TokenizerErrors,
};
use crate::text::push_char;
use vstd::string::StringExecFns;

verus! {

/// A nesting context on the parser's stack.
#[derive(Debug, PartialEq, Eq, Structural, Copy, Clone)]
pub enum F {
    /// In an object just opened, before a key or the closing brace.
    InObject,
    /// In an object after a comma, before a key.
    ExpectKey,
    /// In an object after a member, before a comma or the closing brace.
    AfterMember,
    /// After a key, before its colon.
    InObjectAfterKey,
    /// After a key and its colon, before the value.
    Key,
    /// In an array before an element: the index that it gets. At index 0 the
    /// array may close; after a comma it may not.
    InArray(usize),
    /// In an array after an element, before a comma or the closing bracket;
    /// the index that the next element gets.
    ArrayNext(usize),
}

/// A frame of an object, where a key or the end of a member is awaited.
pub open spec fn is_object_frame(f: F) -> bool {
    f == F::InObject || f == F::ExpectKey || f == F::AfterMember
}

/// Errors of the parser: those of the lexer, and the structural ones.
#[derive(Debug, PartialEq, Eq, Structural, Copy, Clone)]
pub enum PE {
    EndOfData,
    NeedMoreData,
    WrongEscapeSequence(usize),
    WrongFormat(usize),
    UnbalancedClose,
    UnexpectedToken,
    CapacityExceeded,
}

pub open spec fn pe_of(e: TokenizerErrors) -> PE {
    match e {
        TokenizerErrors::EndOfData => PE::EndOfData,
        TokenizerErrors::NeedMoreData => PE::NeedMoreData,
        TokenizerErrors::WrongEscapeSequence(u) => PE::WrongEscapeSequence(u),
        TokenizerErrors::WrongFormat(u) => PE::WrongFormat(u),
    }
}

impl From<TokenizerErrors> for PE {
    fn from(error: TokenizerErrors) -> (r: Self)
        ensures
            r == pe_of(error),
    {
        match error {
            TokenizerErrors::EndOfData => PE::EndOfData,
            TokenizerErrors::NeedMoreData => PE::NeedMoreData,
            TokenizerErrors::WrongEscapeSequence(u) => PE::WrongEscapeSequence(u),
            TokenizerErrors::WrongFormat(u) => PE::WrongFormat(u),
        }
    }
}

impl vstd::std_specs::convert::FromSpecImpl<TokenizerErrors> for PE {
    open spec fn obeys_from_spec() -> bool {
        true
    }

    open spec fn from_spec(error: TokenizerErrors) -> PE {
        pe_of(error)
    }
}

/// One step of a location: an object member or an array element.
pub enum Segment {
    Key(String),
    Index(usize),
}

pub enum PathSeg {
    Key(Seq<char>),
    Index(nat),
}

impl View for Segment {
    type V = PathSeg;

    open spec fn view(&self) -> PathSeg {
        match self {
            Segment::Key(k) => PathSeg::Key(k@),
            Segment::Index(i) => PathSeg::Index(*i as nat),
        }
    }
}

/// The decimal digits of `n`.
pub open spec fn decimal(n: nat) -> Seq<char>
    decreases n,
{
    if n < 10 {
        seq![digit(n)]
    } else {
        decimal(n / 10).push(digit(n % 10))
    }
}

pub open spec fn digit(d: nat) -> char {
    (d + '0' as nat) as char
}

pub open spec fn seg_text(p: PathSeg) -> Seq<char> {
    match p {
        PathSeg::Key(k) => seq!['.'] + k,
        PathSeg::Index(i) => seq!['['] + decimal(i) + seq![']'],
    }
}

/// The text of a location: `$`, then `.key` or `[index]` for each step.
pub open spec fn render(path: Seq<PathSeg>) -> Seq<char>
    decreases path.len(),
{
    if path.len() == 0 {
        seq!['$']
    } else {
        render(path.drop_last()) + seg_text(path.last())
    }
}

/// The kind of a parse event.
#[derive(Debug, PartialEq, Eq, Structural, Copy, Clone)]
pub enum EventKind {
    BeginObject,
    EndObject,
    BeginArray,
    EndArray,
    ObjectKey,
    StringValue,
    NumberValue,
}

/// A parse event: its kind, the text of the token, and where it stands.
#[derive(Debug)]
pub struct Event {
    pub kind: EventKind,
    pub text: String,
    pub path: String,
}

/// The parser's state as mathematics.
pub struct PState {
    pub stack: Seq<F>,
    pub path: Seq<PathSeg>,
    /// The outermost value has been read.
    pub done: bool,
}

/// What one token does to the parser.
pub enum Reaction {
    /// An event of this kind, at this location, and the next state.
    Emit(EventKind, Seq<PathSeg>, PState),
    /// No event (a colon or a comma); the next state.
    Skip(PState),
    Fail(PE),
}

/// A closing bracket with no open container, or one that closes an array
/// while an object is open, is refused as unbalanced.
pub proof fn lemma_unmatched_close(s: PState, cap: nat, text: Seq<char>)
    requires
        s.stack.len() == 0 || is_object_frame(s.stack.last()),
    ensures
        react(s, cap, JT::CloseArray, text) == Reaction::Fail(PE::UnbalancedClose),
        s.stack.len() == 0 ==> react(s, cap, JT::CloseObject, text) == Reaction::Fail(
            PE::UnbalancedClose,
        ),
{
}

/// Where a value may begin, a container that would nest deeper than the
/// capacity is refused.
pub proof fn lemma_capacity(s: PState, cap: nat, jt: JT, text: Seq<char>)
    requires
        s.stack.len() >= cap,
        jt == JT::OpenObject || jt == JT::OpenArray,
        s.stack.len() == 0 ==> !s.done,
        s.stack.len() > 0 ==> s.stack.last() == F::Key || s.stack.last() is InArray,
    ensures
        react(s, cap, jt, text) == Reaction::Fail(PE::CapacityExceeded),
{
}

/// Where the lexer stands: its state, the text of the token in progress,
/// and its character position in the buffer.
pub struct Lexed {
    pub state: TokenizerState,
    pub acc: Seq<char>,
    pub at: int,
}

/// The lexer `t` stands where `lx` says, in `data`.
pub open spec fn stands_at(t: Tokenizer, lx: Lexed, data: Seq<char>) -> bool {
    &&& t.state == lx.state
    &&& t.acc() == lx.acc
    &&& t.index == byte_offset(data, lx.at)
}

/// How a call of the parser ends.
pub enum Parsed {
    /// An event: its kind, the token's text, the text of its location, the
    /// parser's state after it, and where the lexer stands.
    Event(EventKind, Seq<char>, Seq<char>, PState, Lexed),
    /// An error, the parser's state left behind, and where the lexer stands
    /// (not said after a lexical error, which ends the document).
    Error(PE, PState, Option<Lexed>),
}

/// What the parser does with `data` when the lexer is in state `st` with
/// text `acc` at character position `k`, and the parser in state `s`: read
/// tokens by the machine of the lexer and give each to the grammar, until
/// one makes an event or something fails. At the end of the buffer the
/// document has ended once its outermost value has been read.
pub open spec fn parse_outcome(
    st: TokenizerState,
    acc: Seq<char>,
    k: int,
    s: PState,
    cap: nat,
    data: Seq<char>,
) -> Parsed
    decreases data.len() - k, (if st == TokenizerState::Number { 1int } else { 0int }),
    via parse_outcome_decreases
{
    match run(st, acc, data, k) {
        Outcome::Pending(st2, acc2) => {
            let lx = Lexed { state: st2, acc: acc2, at: data.len() as int };
            if s.stack.len() == 0 && s.done {
                Parsed::Error(PE::EndOfData, s, Some(lx))
            } else {
                Parsed::Error(PE::NeedMoreData, s, Some(lx))
            }
        },
        Outcome::Failed(escape, at, _) => Parsed::Error(
            pe_of(fault_at(escape, byte_offset(data, at))),
            s,
            None,
        ),
        Outcome::Token(jt, text, end, _) => {
            let lx = Lexed { state: TokenizerState::Base, acc: Seq::empty(), at: end };
            match react(s, cap, jt, text) {
                Reaction::Emit(kind, at, s2) => Parsed::Event(kind, text, render(at), s2, lx),
                Reaction::Skip(s2) => if 0 <= k {
                    parse_outcome(TokenizerState::Base, Seq::empty(), end, s2, cap, data)
                } else {
                    Parsed::Error(PE::NeedMoreData, s2, Some(lx))
                },
                Reaction::Fail(e) => Parsed::Error(e, s, Some(lx)),
            }
        },
    }
}

/// A `]` read where no container is open, or where an object is open, ends
/// the call with `UnbalancedClose`, the state left as it was.
pub proof fn lemma_parse_unmatched_close(
    st: TokenizerState,
    acc: Seq<char>,
    k: int,
    s: PState,
    cap: nat,
    data: Seq<char>,
)
    requires
        run(st, acc, data, k) is Token,
        run(st, acc, data, k)->Token_0 == JT::CloseArray,
        s.stack.len() == 0 || is_object_frame(s.stack.last()),
    ensures
        parse_outcome(st, acc, k, s, cap, data) is Error,
        parse_outcome(st, acc, k, s, cap, data)->Error_0 == PE::UnbalancedClose,
        parse_outcome(st, acc, k, s, cap, data)->Error_1 == s,
{
    lemma_unmatched_close(s, cap, run(st, acc, data, k)->Token_1);
}

/// A container read where a value may begin, when `cap` containers are
/// already open, ends the call with `CapacityExceeded`, the state left as
/// it was.
pub proof fn lemma_parse_capacity(
    st: TokenizerState,
    acc: Seq<char>,
    k: int,
    s: PState,
    cap: nat,
    data: Seq<char>,
)
    requires
        run(st, acc, data, k) is Token,
        run(st, acc, data, k)->Token_0 == JT::OpenObject || run(st, acc, data, k)->Token_0
            == JT::OpenArray,
        s.stack.len() >= cap,
        s.stack.len() == 0 ==> !s.done,
        s.stack.len() > 0 ==> s.stack.last() == F::Key || s.stack.last() is InArray,
    ensures
        parse_outcome(st, acc, k, s, cap, data) is Error,
        parse_outcome(st, acc, k, s, cap, data)->Error_0 == PE::CapacityExceeded,
        parse_outcome(st, acc, k, s, cap, data)->Error_1 == s,
{
    lemma_capacity(s, cap, run(st, acc, data, k)->Token_0, run(st, acc, data, k)->Token_1);
}

#[via_fn]
proof fn parse_outcome_decreases(
    st: TokenizerState,
    acc: Seq<char>,
    k: int,
    s: PState,
    cap: nat,
    data: Seq<char>,
) {
    if 0 <= k && run(st, acc, data, k) is Token {
        lemma_token_progress(st, acc, data, k);
    }
}

pub open spec fn with_top(stack: Seq<F>, f: F) -> Seq<F> {
    stack.drop_last().push(f)
}

/// The path without its last step, if it has one.
pub open spec fn shorter(path: Seq<PathSeg>) -> Seq<PathSeg> {
    if path.len() > 0 {
        path.drop_last()
    } else {
        path
    }
}

/// Enters a container at the location of `s`, within the stack's capacity.
pub open spec fn open_container(s: PState, cap: nat, f: F, kind: EventKind) -> Reaction {
    if s.stack.len() >= cap {
        Reaction::Fail(PE::CapacityExceeded)
    } else {
        Reaction::Emit(kind, s.path, PState { stack: s.stack.push(f), path: s.path, done: s.done })
    }
}

/// Leaves the innermost container; leaving the outermost ends the document.
pub open spec fn close_container(s: PState, kind: EventKind) -> Reaction {
    let rest = s.stack.drop_last();
    if rest.len() == 0 {
        Reaction::Emit(kind, s.path, PState { stack: rest, path: s.path, done: true })
    } else {
        Reaction::Emit(kind, s.path, PState { stack: rest, path: shorter(s.path), done: s.done })
    }
}

pub open spec fn scalar_kind(jt: JT) -> EventKind {
    if jt == JT::JString {
        EventKind::StringValue
    } else {
        EventKind::NumberValue
    }
}

/// The grammar: what a token of class `jt` and text `text` does in state `s`,
/// with at most `cap` nested containers.
pub open spec fn react(s: PState, cap: nat, jt: JT, text: Seq<char>) -> Reaction {
    if s.stack.len() == 0 {
        if jt == JT::CloseObject || jt == JT::CloseArray {
            Reaction::Fail(PE::UnbalancedClose)
        } else if s.done {
            Reaction::Fail(PE::UnexpectedToken)
        } else {
            match jt {
                JT::OpenObject => open_container(s, cap, F::InObject, EventKind::BeginObject),
                JT::OpenArray => open_container(s, cap, F::InArray(0), EventKind::BeginArray),
                JT::JString | JT::JNumber => Reaction::Emit(
                    scalar_kind(jt),
                    s.path,
                    PState { stack: s.stack, path: s.path, done: true },
                ),
                JT::CloseObject | JT::CloseArray => Reaction::Fail(PE::UnbalancedClose),
                _ => Reaction::Fail(PE::UnexpectedToken),
            }
        }
    } else {
        match s.stack.last() {
            F::InObject | F::ExpectKey => match jt {
                JT::JString => {
                    let p = s.path.push(PathSeg::Key(text));
                    Reaction::Emit(
                        EventKind::ObjectKey,
                        p,
                        PState { stack: with_top(s.stack, F::InObjectAfterKey), path: p, done: s.done },
                    )
                },
                JT::CloseObject => if s.stack.last() == F::InObject {
                    close_container(s, EventKind::EndObject)
                } else {
                    Reaction::Fail(PE::UnexpectedToken)
                },
                JT::CloseArray => Reaction::Fail(PE::UnbalancedClose),
                _ => Reaction::Fail(PE::UnexpectedToken),
            },
            F::AfterMember => match jt {
                JT::Comma => Reaction::Skip(
                    PState { stack: with_top(s.stack, F::ExpectKey), path: s.path, done: s.done },
                ),
                JT::CloseObject => close_container(s, EventKind::EndObject),
                JT::CloseArray => Reaction::Fail(PE::UnbalancedClose),
                _ => Reaction::Fail(PE::UnexpectedToken),
            },
            F::InObjectAfterKey => match jt {
                JT::Colon => Reaction::Skip(
                    PState { stack: with_top(s.stack, F::Key), path: s.path, done: s.done },
                ),
                _ => Reaction::Fail(PE::UnexpectedToken),
            },
            F::Key => {
                let s2 = PState { stack: with_top(s.stack, F::AfterMember), path: s.path, done: s.done };
                match jt {
                    JT::JString | JT::JNumber => Reaction::Emit(
                        scalar_kind(jt),
                        s.path,
                        PState { stack: s2.stack, path: shorter(s.path), done: s.done },
                    ),
                    JT::OpenObject => open_container(s2, cap, F::InObject, EventKind::BeginObject),
                    JT::OpenArray => open_container(s2, cap, F::InArray(0), EventKind::BeginArray),
                    _ => Reaction::Fail(PE::UnexpectedToken),
                }
            },
            F::ArrayNext(i) => match jt {
                JT::Comma => Reaction::Skip(
                    PState { stack: with_top(s.stack, F::InArray(i)), path: s.path, done: s.done },
                ),
                JT::CloseArray => close_container(s, EventKind::EndArray),
                JT::CloseObject => Reaction::Fail(PE::UnbalancedClose),
                _ => Reaction::Fail(PE::UnexpectedToken),
            },
            F::InArray(i) => match jt {
                JT::CloseArray => if i == 0 {
                    close_container(s, EventKind::EndArray)
                } else {
                    Reaction::Fail(PE::UnexpectedToken)
                },
                JT::CloseObject => Reaction::Fail(PE::UnbalancedClose),
                JT::JString | JT::JNumber | JT::OpenObject | JT::OpenArray => {
                    if i == usize::MAX {
                        Reaction::Fail(PE::CapacityExceeded)
                    } else {
                        let p = s.path.push(PathSeg::Index(i as nat));
                        let s2 = PState {
                            stack: with_top(s.stack, F::ArrayNext((i + 1) as usize)),
                            path: p,
                            done: s.done,
                        };
                        match jt {
                            JT::OpenObject => open_container(s2, cap, F::InObject, EventKind::BeginObject),
                            JT::OpenArray => open_container(s2, cap, F::InArray(0), EventKind::BeginArray),
                            _ => Reaction::Emit(
                                scalar_kind(jt),
                                p,
                                PState { stack: s2.stack, path: s.path, done: s.done },
                            ),
                        }
                    }
                },
                _ => Reaction::Fail(PE::UnexpectedToken),
            },
        }
    }
}

/// Appends the decimal digits of `n`.
fn push_decimal(s: &mut String, n: usize)
    ensures
        final(s)@ == old(s)@ + decimal(n as nat),
    decreases n,
{
    if n >= 10 {
        push_decimal(s, n / 10);
    }
    let d: u8 = (n % 10) as u8;
    let c = (48u8 + d) as char;
    assert(c == digit((n % 10) as nat));
    push_char(s, c);
    assert(final(s)@ =~= old(s)@ + decimal(n as nat));
}

/// The structural parser; it owns the lexer.
pub struct Parser {
    pub stack: Vec<F>,
    pub path: Vec<Segment>,
    pub tokenizer: Tokenizer,
    /// The most containers that may be open at once.
    pub capacity: usize,
    pub done: bool,
}

impl Parser {
    pub open spec fn model(&self) -> PState {
        PState { stack: self.stack@, path: self.path@.map_values(|g: Segment| g@), done: self.done }
    }

    /// A parser at the start of a document that allows `capacity` nested
    /// containers.
    pub fn new(capacity: usize) -> (p: Parser)
        ensures
            p.model().stack.len() == 0,
            p.model().path.len() == 0,
            !p.done,
            p.capacity == capacity,
            p.tokenizer.state == TokenizerState::Base,
            p.tokenizer.index == 0,
    {
        Parser { stack: Vec::new(), path: Vec::new(), tokenizer: Tokenizer::new(), capacity, done: false }
    }

    /// The text of the current location.
    pub fn path_text(&self) -> (r: String)
        ensures
            r@ == render(self.model().path),
    {
        let mut r = String::new();
        push_char(&mut r, '$');
        let mut k: usize = 0;
        proof {
            assert(self.model().path.take(0) =~= Seq::<PathSeg>::empty());
        }
        while k < self.path.len()
            invariant
                k <= self.path.len(),
                r@ == render(self.model().path.take(k as int)),
            decreases self.path.len() - k,
        {
            let ghost before = r@;
            match &self.path[k] {
                Segment::Key(key) => {
                    push_char(&mut r, '.');
                    r.append(key.as_str());
                },
                Segment::Index(i) => {
                    push_char(&mut r, '[');
                    push_decimal(&mut r, *i);
                    push_char(&mut r, ']');
                },
            }
            proof {
                let path = self.model().path;
                assert(path.take(k + 1).drop_last() =~= path.take(k as int));
                assert(r@ =~= before + seg_text(path[k as int]));
            }
            k = k + 1;
        }
        proof {
            assert(self.model().path.take(k as int) =~= self.model().path);
        }
        r
    }

    fn pop_segment(&mut self)
        ensures
            final(self).model().path == shorter(old(self).model().path),
            final(self).stack == old(self).stack,
            final(self).done == old(self).done,
            final(self).capacity == old(self).capacity,
            final(self).tokenizer == old(self).tokenizer,
    {
        let _ = self.path.pop();
        proof {
            assert(final(self).model().path =~= shorter(old(self).model().path));
        }
    }

    fn set_top(&mut self, f: F)
        requires
            old(self).stack.len() > 0,
        ensures
            final(self).stack@ == with_top(old(self).stack@, f),
            final(self).path == old(self).path,
            final(self).done == old(self).done,
            final(self).capacity == old(self).capacity,
            final(self).tokenizer == old(self).tokenizer,
    {
        let _ = self.stack.pop();
        self.stack.push(f);
    }
    fn event(&self, kind: EventKind, text: &str) -> (ev: Event)
        ensures
            ev.kind == kind,
            ev.text@ == text@,
            ev.path@ == render(self.model().path),
    {
        Event { kind, text: text.to_owned(), path: self.path_text() }
    }

    /// Opens a container: the caller has already set the location.
    fn open(&mut self, f: F, kind: EventKind, text: &str) -> (r: Result<Option<Event>, PE>)
        ensures
            final(self).capacity == old(self).capacity,
            final(self).tokenizer == old(self).tokenizer,
            match open_container(old(self).model(), old(self).capacity as nat, f, kind) {
                Reaction::Emit(k, at, s2) => r is Ok && r->Ok_0 is Some && r->Ok_0->0.kind == k
                    && r->Ok_0->0.text@ == text@ && r->Ok_0->0.path@ == render(at)
                    && final(self).model() == s2,
                Reaction::Skip(s2) => false,
                Reaction::Fail(e) => r == Err::<Option<Event>, PE>(e) && final(self).model()
                    == old(self).model(),
            },
    {
        if self.stack.len() >= self.capacity {
            return Err(PE::CapacityExceeded);
        }
        let ev = self.event(kind, text);
        self.stack.push(f);
        Ok(Some(ev))
    }

    /// Leaves the innermost container.
    fn close(&mut self, kind: EventKind, text: &str) -> (r: Result<Option<Event>, PE>)
        requires
            old(self).stack.len() > 0,
        ensures
            final(self).capacity == old(self).capacity,
            final(self).tokenizer == old(self).tokenizer,
            match close_container(old(self).model(), kind) {
                Reaction::Emit(k, at, s2) => r is Ok && r->Ok_0 is Some && r->Ok_0->0.kind == k
                    && r->Ok_0->0.text@ == text@ && r->Ok_0->0.path@ == render(at)
                    && final(self).model() == s2,
                _ => false,
            },
    {
        let ev = self.event(kind, text);
        let _ = self.stack.pop();
        if self.stack.len() == 0 {
            self.done = true;
        } else {
            self.pop_segment();
        }
        Ok(Some(ev))
    }

    /// Applies one token of class `jt` and text `text` to the grammar.
    pub fn apply(&mut self, jt: JT, text: &str) -> (r: Result<Option<Event>, PE>)
        ensures
            final(self).capacity == old(self).capacity,
            final(self).tokenizer == old(self).tokenizer,
            match react(old(self).model(), old(self).capacity as nat, jt, text@) {
                Reaction::Emit(kind, at, s2) => r is Ok && r->Ok_0 is Some && r->Ok_0->0.kind
                    == kind && r->Ok_0->0.text@ == text@ && r->Ok_0->0.path@ == render(at)
                    && final(self).model() == s2,
                Reaction::Skip(s2) => r is Ok && r->Ok_0 is None && final(self).model() == s2,
                Reaction::Fail(e) => r == Err::<Option<Event>, PE>(e) && final(self).model()
                    == old(self).model(),
            },
    {
        let n = self.stack.len();
        if n == 0 {
            if jt == JT::CloseObject || jt == JT::CloseArray {
                return Err(PE::UnbalancedClose);
            }
            if self.done {
                return Err(PE::UnexpectedToken);
            }
            return match jt {
                JT::OpenObject => self.open(F::InObject, EventKind::BeginObject, text),
                JT::OpenArray => self.open(F::InArray(0), EventKind::BeginArray, text),
                JT::JString | JT::JNumber => {
                    let kind = if jt == JT::JString {
                        EventKind::StringValue
                    } else {
                        EventKind::NumberValue
                    };
                    let ev = self.event(kind, text);
                    self.done = true;
                    Ok(Some(ev))
                },
                JT::CloseObject | JT::CloseArray => Err(PE::UnbalancedClose),
                _ => Err(PE::UnexpectedToken),
            };
        }
        let top = self.stack[n - 1];
        match top {
            F::InObject | F::ExpectKey => match jt {
                JT::JString => {
                    self.path.push(Segment::Key(text.to_owned()));
                    self.set_top(F::InObjectAfterKey);
                    proof {
                        assert(self.model().path =~= old(self).model().path.push(
                            PathSeg::Key(text@),
                        ));
                    }
                    Ok(Some(self.event(EventKind::ObjectKey, text)))
                },
                JT::CloseObject => if top == F::InObject {
                    self.close(EventKind::EndObject, text)
                } else {
                    Err(PE::UnexpectedToken)
                },
                JT::CloseArray => Err(PE::UnbalancedClose),
                _ => Err(PE::UnexpectedToken),
            },
            F::AfterMember => match jt {
                JT::Comma => {
                    self.set_top(F::ExpectKey);
                    Ok(None)
                },
                JT::CloseObject => self.close(EventKind::EndObject, text),
                JT::CloseArray => Err(PE::UnbalancedClose),
                _ => Err(PE::UnexpectedToken),
            },
            F::InObjectAfterKey => match jt {
                JT::Colon => {
                    self.set_top(F::Key);
                    Ok(None)
                },
                _ => Err(PE::UnexpectedToken),
            },
            F::Key => match jt {
                JT::JString | JT::JNumber => {
                    let kind = if jt == JT::JString {
                        EventKind::StringValue
                    } else {
                        EventKind::NumberValue
                    };
                    let ev = self.event(kind, text);
                    self.set_top(F::AfterMember);
                    self.pop_segment();
                    Ok(Some(ev))
                },
                JT::OpenObject | JT::OpenArray => {
                    if self.stack.len() >= self.capacity {
                        return Err(PE::CapacityExceeded);
                    }
                    self.set_top(F::AfterMember);
                    if jt == JT::OpenObject {
                        self.open(F::InObject, EventKind::BeginObject, text)
                    } else {
                        self.open(F::InArray(0), EventKind::BeginArray, text)
                    }
                },
                _ => Err(PE::UnexpectedToken),
            },
            F::ArrayNext(i) => match jt {
                JT::Comma => {
                    self.set_top(F::InArray(i));
                    Ok(None)
                },
                JT::CloseArray => self.close(EventKind::EndArray, text),
                JT::CloseObject => Err(PE::UnbalancedClose),
                _ => Err(PE::UnexpectedToken),
            },
            F::InArray(i) => match jt {
                JT::CloseArray => if i == 0 {
                    self.close(EventKind::EndArray, text)
                } else {
                    Err(PE::UnexpectedToken)
                },
                JT::CloseObject => Err(PE::UnbalancedClose),
                JT::JString | JT::JNumber | JT::OpenObject | JT::OpenArray => {
                    if i == usize::MAX {
                        return Err(PE::CapacityExceeded);
                    }
                    if (jt == JT::OpenObject || jt == JT::OpenArray) && self.stack.len()
                        >= self.capacity {
                        return Err(PE::CapacityExceeded);
                    }
                    self.path.push(Segment::Index(i));
                    self.set_top(F::ArrayNext(i + 1));
                    proof {
                        assert(self.model().path =~= old(self).model().path.push(
                            PathSeg::Index(i as nat),
                        ));
                    }
                    match jt {
                        JT::OpenObject => self.open(F::InObject, EventKind::BeginObject, text),
                        JT::OpenArray => self.open(F::InArray(0), EventKind::BeginArray, text),
                        _ => {
                            let kind = if jt == JT::JString {
                                EventKind::StringValue
                            } else {
                                EventKind::NumberValue
                            };
                            let ev = self.event(kind, text);
                            self.pop_segment();
                            assert(self.model().path =~= old(self).model().path);
                            Ok(Some(ev))
                        },
                    }
                },
                _ => Err(PE::UnexpectedToken),
            },
        }
    }
    /// Reads tokens from `data` until one makes an event. At the end of the
    /// buffer it returns `NeedMoreData`, or `EndOfData` once the outermost
    /// value has been read.
    pub fn parse(&mut self, data: &str) -> (r: Result<Event, PE>)
        requires
            old(self).tokenizer.ready(data@),
        ensures
            final(self).tokenizer.ready(data@),
            final(self).capacity == old(self).capacity,
            match parse_outcome(
                old(self).tokenizer.state,
                old(self).tokenizer.acc(),
                char_index(data@, old(self).tokenizer.index as int),
                old(self).model(),
                old(self).capacity as nat,
                data@,
            ) {
                Parsed::Event(kind, text, path, s2, lx) => r is Ok && r->Ok_0.kind == kind
                    && r->Ok_0.text@ == text && r->Ok_0.path@ == path && final(self).model() == s2
                    && stands_at(final(self).tokenizer, lx, data@),
                Parsed::Error(e, s2, lx) => r == Err::<Event, PE>(e) && final(self).model() == s2
                    && (lx is Some ==> stands_at(final(self).tokenizer, lx->0, data@)),
            },
    {
        loop
            invariant
                self.tokenizer.ready(data@),
                self.capacity == old(self).capacity,
                parse_outcome(
                    old(self).tokenizer.state,
                    old(self).tokenizer.acc(),
                    char_index(data@, old(self).tokenizer.index as int),
                    old(self).model(),
                    old(self).capacity as nat,
                    data@,
                ) == parse_outcome(
                    self.tokenizer.state,
                    self.tokenizer.acc(),
                    char_index(data@, self.tokenizer.index as int),
                    self.model(),
                    self.capacity as nat,
                    data@,
                ),
            decreases data@.len() - char_index(data@, self.tokenizer.index as int),
                if self.tokenizer.state is Number { 1int } else { 0int },
        {
            let ghost pre = self.tokenizer;
            let ghost k = char_index(data@, pre.index as int);
            proof {
                assert(0 <= k);
                lemma_position(data@, data@.len() as int);
            }
            let (jt, text) = match self.tokenizer.tokenize(data) {
                Ok(token) => (token.jt, token.slice.to_owned()),
                Err(TokenizerErrors::NeedMoreData) => {
                    if self.stack.len() == 0 && self.done {
                        return Err(PE::EndOfData);
                    }
                    return Err(PE::NeedMoreData);
                },
                Err(e) => {
                    return Err(PE::from(e));
                },
            };
            proof {
                lemma_token_progress(pre.state, pre.acc(), data@, k);
                lemma_char_index(data@, pre.outcome(data@)->Token_2);
            }
            match self.apply(jt, text.as_str()) {
                Ok(Some(ev)) => {
                    return Ok(ev);
                },
                Ok(None) => {},
                Err(e) => {
                    return Err(e);
                },
            }
        }
    }
}

} // verus!
