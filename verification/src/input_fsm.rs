//! The incremental command-input state machine: one keystroke at a time, a
//! grammar over two command forms (`add <name> <goals> <assists>` and
//! `del <name>`), backspace rollback through a history stack, and a second
//! tokenizing pass over the completed line.

use vstd::prelude::*;

use crate::parse::{
    all_digits, digit, digits_val, is_digit, is_letter, is_lower, join_sp, join_words,
    lemma_split_join, lemma_split_space, lemma_split_word, letter, lower, parse_u32, split_tokens,
    split_ws, toks_view, word_ok,
};
use crate::LINE_CAPACITY;

verus! {

/// The raw code a terminal sends for backspace.
pub const BACKSPACE: char = '\u{8}';

/// A fully parsed user instruction, ready to apply to the ledger.
#[derive(Debug, PartialEq, Eq)]
pub enum Command {
    Add(String, u32, u32),
    Delete(String),
}

/// What a `Command` says, over character sequences.
#[verifier::ext_equal]
pub enum CommandModel {
    Add(Seq<char>, u32, u32),
    Delete(Seq<char>),
}

impl View for Command {
    type V = CommandModel;

    open spec fn view(&self) -> CommandModel {
        match self {
            Command::Add(name, goals, assists) => CommandModel::Add(name@, *goals, *assists),
            Command::Delete(name) => CommandModel::Delete(name@),
        }
    }
}

pub open spec fn opt_cmd_view(r: Option<Command>) -> Option<CommandModel> {
    match r {
        Some(c) => Some(c@),
        None => None,
    }
}

/// The grammar positions. `Q0` is the initial state; `S0`, `S1` and `S2` are
/// the boundaries after a name word, after the goals, and after a delete-name
/// word. `Assists` and `ValidName` are the terminal states.
#[derive(Clone, Copy, Debug, PartialEq, Eq, Structural)]
pub enum State {
    Q0,
    AddCommand,
    Name,
    S0,
    Goals,
    S1,
    Assists,
    DeleteCommand,
    ValidName,
    S2,
}

pub open spec fn add_kw() -> Seq<char> {
    seq!['a', 'd', 'd']
}

pub open spec fn del_kw() -> Seq<char> {
    seq!['d', 'e', 'l']
}

/// Which characters the current state accepts into the buffer.
pub open spec fn spec_accepts(s: State, c: char) -> bool {
    match s {
        State::Q0 => is_lower(c) || c == ' ',
        State::AddCommand => is_letter(c),
        State::Name => is_letter(c) || c == ' ',
        State::S0 => is_letter(c) || is_digit(c),
        State::Goals => is_digit(c) || c == ' ',
        State::S1 => is_digit(c),
        State::Assists => is_digit(c),
        State::DeleteCommand => is_letter(c),
        State::ValidName => is_letter(c) || c == ' ',
        State::S2 => is_letter(c),
    }
}

/// Where an accepted character moves the machine. The one transition that
/// reads the buffer is the keyword check on a space in `Q0`.
pub open spec fn spec_step(s: State, c: char, buf: Seq<char>) -> State {
    if !spec_accepts(s, c) {
        s
    } else {
        match s {
            State::Q0 => if c == ' ' {
                if buf == add_kw() {
                    State::AddCommand
                } else if buf == del_kw() {
                    State::DeleteCommand
                } else {
                    State::Q0
                }
            } else {
                State::Q0
            },
            State::AddCommand => State::Name,
            State::Name => if c == ' ' {
                State::S0
            } else {
                State::Name
            },
            State::S0 => if is_digit(c) {
                State::Goals
            } else {
                State::Name
            },
            State::Goals => if c == ' ' {
                State::S1
            } else {
                State::Goals
            },
            State::S1 => State::Assists,
            State::Assists => State::Assists,
            State::DeleteCommand => State::ValidName,
            State::ValidName => if c == ' ' {
                State::S2
            } else {
                State::ValidName
            },
            State::S2 => State::ValidName,
        }
    }
}

/// The state reached by accepting every character of `buf` in order,
/// starting from `Q0`.
pub open spec fn run_state(buf: Seq<char>) -> State
    decreases buf.len(),
{
    if buf.len() == 0 {
        State::Q0
    } else {
        spec_step(run_state(buf.drop_last()), buf.last(), buf.drop_last())
    }
}

/// The session as the contracts see it: grammar position, line buffer, and
/// the stack of prior positions, one per accepted character.
#[verifier::ext_equal]
pub struct SessionModel {
    pub state: State,
    pub buffer: Seq<char>,
    pub stack: Seq<State>,
}

pub open spec fn init_model() -> SessionModel {
    SessionModel { state: State::Q0, buffer: Seq::empty(), stack: Seq::empty() }
}

/// A session is well formed when the stack mirrors the buffer: entry `i`
/// is the state the machine was in before accepting character `i`.
pub open spec fn session_wf(s: SessionModel) -> bool {
    &&& s.stack.len() == s.buffer.len()
    &&& s.state == run_state(s.buffer)
    &&& forall|i: int| 0 <= i < s.buffer.len() ==> s.stack[i] == run_state(s.buffer.take(i))
}

/// What one keystroke does to the session: backspace rolls back one accepted
/// character; over the capacity, everything but Enter is dropped; Enter in a
/// terminal state resets the session; an accepted character is appended and
/// the prior state pushed; everything else is silently ignored.
pub open spec fn feed_model(s: SessionModel, c: char) -> SessionModel {
    if c == BACKSPACE {
        SessionModel {
            state: if s.stack.len() == 0 {
                State::Q0
            } else {
                s.stack.last()
            },
            buffer: if s.buffer.len() == 0 {
                s.buffer
            } else {
                s.buffer.drop_last()
            },
            stack: if s.stack.len() == 0 {
                s.stack
            } else {
                s.stack.drop_last()
            },
        }
    } else if s.buffer.len() > LINE_CAPACITY && c != '\r' {
        s
    } else if c == '\r' {
        if s.state == State::Assists || s.state == State::ValidName {
            init_model()
        } else {
            s
        }
    } else if spec_accepts(s.state, c) {
        SessionModel {
            state: spec_step(s.state, c, s.buffer),
            buffer: s.buffer.push(c),
            stack: s.stack.push(s.state),
        }
    } else {
        s
    }
}

/// The command a keystroke completes, if any: only Enter in a terminal
/// state yields one, and only when the line re-parses.
pub open spec fn feed_out(s: SessionModel, c: char) -> Option<CommandModel> {
    if c == BACKSPACE {
        None
    } else if s.buffer.len() > LINE_CAPACITY && c != '\r' {
        None
    } else if c == '\r' && s.state == State::Assists {
        spec_add_command(s.buffer)
    } else if c == '\r' && s.state == State::ValidName {
        spec_del_command(s.buffer)
    } else {
        None
    }
}

/// The tokenizing re-parse of a completed add line: first token `add`, last
/// two tokens in-range numbers, everything between joined as the name.
pub open spec fn spec_add_command(line: Seq<char>) -> Option<CommandModel> {
    let toks = split_ws(line);
    let n = toks.len() as int;
    if n >= 3 && toks[0] == add_kw() && toks[n - 2].len() >= 1 && all_digits(toks[n - 2])
        && digits_val(toks[n - 2]) <= u32::MAX && toks[n - 1].len() >= 1 && all_digits(
        toks[n - 1],
    ) && digits_val(toks[n - 1]) <= u32::MAX {
        Some(
            CommandModel::Add(
                join_sp(toks.subrange(1, n - 2)),
                digits_val(toks[n - 2]) as u32,
                digits_val(toks[n - 1]) as u32,
            ),
        )
    } else {
        None
    }
}

/// The tokenizing re-parse of a completed delete line: first token `del`,
/// the rest joined as the name.
pub open spec fn spec_del_command(line: Seq<char>) -> Option<CommandModel> {
    let toks = split_ws(line);
    let n = toks.len() as int;
    if n >= 1 && toks[0] == del_kw() {
        Some(CommandModel::Delete(join_sp(toks.subrange(1, n))))
    } else {
        None
    }
}

/// The input state machine: current grammar position, the visible line
/// buffer, and the rollback stack of prior positions.
pub struct InputFSM {
    pub state: State,
    pub buffer: Vec<char>,
    pub state_stack: Vec<State>,
}

impl View for InputFSM {
    type V = SessionModel;

    open spec fn view(&self) -> SessionModel {
        SessionModel { state: self.state, buffer: self.buffer@, stack: self.state_stack@ }
    }
}

impl InputFSM {
    pub open spec fn wf(&self) -> bool {
        session_wf(self@)
    }

    pub fn new() -> (fsm: InputFSM)
        ensures
            fsm@ == init_model(),
            fsm.wf(),
    {
        let fsm = InputFSM { buffer: Vec::new(), state_stack: Vec::new(), state: State::Q0 };
        proof {
            assert(fsm@ =~= init_model());
        }
        fsm
    }

    /// Appends an accepted character and remembers the state it was
    /// accepted in, so that backspace can roll it back.
    fn accept(&mut self, c: char)
        ensures
            final(self).buffer@ == old(self).buffer@.push(c),
            final(self).state_stack@ == old(self).state_stack@.push(old(self).state),
            final(self).state == old(self).state,
    {
        self.state_stack.push(self.state);
        self.buffer.push(c);
    }

    fn transition(&mut self, next: State)
        ensures
            final(self).state == next,
            final(self).buffer@ == old(self).buffer@,
            final(self).state_stack@ == old(self).state_stack@,
    {
        self.state = next;
    }

    /// Clears the session back to its initial state.
    fn restart(&mut self)
        ensures
            final(self)@ == init_model(),
    {
        self.buffer = Vec::new();
        self.state_stack = Vec::new();
        self.state = State::Q0;
        proof {
            assert(self@ =~= init_model());
        }
    }

    /// Re-parses a completed line as an `add` command.
    pub fn add_command(line: &Vec<char>) -> (r: Option<Command>)
        ensures
            opt_cmd_view(r) == spec_add_command(line@),
    {
        let toks = split_tokens(line);
        let n = toks.len();
        if n < 3 {
            return None;
        }
        let kw = &toks[0];
        if !(kw.len() == 3 && kw[0] == 'a' && kw[1] == 'd' && kw[2] == 'd') {
            proof {
                assert(toks_view(toks@)[0] == kw@);
                assert(kw@ != add_kw());
            }
            return None;
        }
        proof {
            assert(kw@ =~= add_kw());
        }
        let goals = parse_u32(&toks[n - 2]);
        let assists = parse_u32(&toks[n - 1]);
        match (goals, assists) {
            (Some(g), Some(a)) => {
                let name = join_words(&toks, 1, n - 2);
                Some(Command::Add(name, g, a))
            },
            _ => None,
        }
    }

    /// Re-parses a completed line as a `del` command.
    pub fn del_command(line: &Vec<char>) -> (r: Option<Command>)
        ensures
            opt_cmd_view(r) == spec_del_command(line@),
    {
        let toks = split_tokens(line);
        let n = toks.len();
        if n < 1 {
            return None;
        }
        let kw = &toks[0];
        if !(kw.len() == 3 && kw[0] == 'd' && kw[1] == 'e' && kw[2] == 'l') {
            proof {
                assert(toks_view(toks@)[0] == kw@);
                assert(kw@ != del_kw());
            }
            return None;
        }
        proof {
            assert(kw@ =~= del_kw());
        }
        let name = join_words(&toks, 1, n);
        Some(Command::Delete(name))
    }

    /// Feeds one raw keystroke to the machine. Returns a command exactly
    /// when the keystroke is Enter in a terminal state and the completed
    /// line re-parses; the session then starts over.
    pub fn feed_char(&mut self, c: char) -> (r: Option<Command>)
        ensures
            final(self)@ == feed_model(old(self)@, c),
            opt_cmd_view(r) == feed_out(old(self)@, c),
            old(self).wf() ==> final(self).wf(),
    {
        proof {
            if old(self).wf() {
                lemma_feed_model_wf(old(self)@, c);
            }
        }
        if c == BACKSPACE {
            let _ = self.buffer.pop();
            match self.state_stack.pop() {
                Some(prior) => self.state = prior,
                None => self.state = State::Q0,
            }
            return None;
        }
        if self.buffer.len() > LINE_CAPACITY && c != '\r' {
            return None;
        }
        match self.state {
            State::Q0 => {
                if lower(c) {
                    self.accept(c);
                    self.transition(State::Q0);
                } else if c == ' ' {
                    let next: State = if self.buffer.len() == 3 && self.buffer[0] == 'a'
                        && self.buffer[1] == 'd' && self.buffer[2] == 'd' {
                        proof {
                            assert(self.buffer@ =~= add_kw());
                        }
                        State::AddCommand
                    } else if self.buffer.len() == 3 && self.buffer[0] == 'd' && self.buffer[1]
                        == 'e' && self.buffer[2] == 'l' {
                        proof {
                            assert(self.buffer@ =~= del_kw());
                            assert(self.buffer@ != add_kw());
                        }
                        State::DeleteCommand
                    } else {
                        proof {
                            assert(self.buffer@ != add_kw());
                            assert(self.buffer@ != del_kw());
                        }
                        State::Q0
                    };
                    self.accept(c);
                    self.transition(next);
                }
                None
            },
            State::AddCommand => {
                if letter(c) {
                    self.accept(c);
                    self.transition(State::Name);
                }
                None
            },
            State::Name => {
                if letter(c) {
                    self.accept(c);
                    self.transition(State::Name);
                } else if c == ' ' {
                    self.accept(c);
                    self.transition(State::S0);
                }
                None
            },
            State::S0 => {
                if letter(c) {
                    self.accept(c);
                    self.transition(State::Name);
                } else if digit(c) {
                    self.accept(c);
                    self.transition(State::Goals);
                }
                None
            },
            State::Goals => {
                if digit(c) {
                    self.accept(c);
                    self.transition(State::Goals);
                } else if c == ' ' {
                    self.accept(c);
                    self.transition(State::S1);
                }
                None
            },
            State::S1 => {
                if digit(c) {
                    self.accept(c);
                    self.transition(State::Assists);
                }
                None
            },
            State::Assists => {
                if digit(c) {
                    self.accept(c);
                    self.transition(State::Assists);
                    None
                } else if c == '\r' {
                    let r = Self::add_command(&self.buffer);
                    self.restart();
                    r
                } else {
                    None
                }
            },
            State::DeleteCommand => {
                if letter(c) {
                    self.accept(c);
                    self.transition(State::ValidName);
                }
                None
            },
            State::ValidName => {
                if letter(c) {
                    self.accept(c);
                    self.transition(State::ValidName);
                    None
                } else if c == ' ' {
                    self.accept(c);
                    self.transition(State::S2);
                    None
                } else if c == '\r' {
                    let r = Self::del_command(&self.buffer);
                    self.restart();
                    r
                } else {
                    None
                }
            },
            State::S2 => {
                if letter(c) {
                    self.accept(c);
                    self.transition(State::ValidName);
                }
                None
            },
        }
    }

    /// The advisory trailing text showing which tokens are still expected
    /// in the current state.
    pub fn hint(&self) -> (r: &'static str)
        ensures
            r@ == spec_hint(self.state),
    {
        match self.state {
            State::AddCommand => "name goals assists",
            State::Name => " goals assists",
            State::S0 => "goals assists",
            State::Goals => " assists",
            State::S1 => "assists",
            State::DeleteCommand => "name",
            _ => "",
        }
    }
}

/// The hint text each state shows after the typed line.
pub open spec fn spec_hint(s: State) -> Seq<char> {
    match s {
        State::AddCommand => "name goals assists"@,
        State::Name => " goals assists"@,
        State::S0 => "goals assists"@,
        State::Goals => " assists"@,
        State::S1 => "assists"@,
        State::DeleteCommand => "name"@,
        _ => ""@,
    }
}

/// The session after a whole sequence of keystrokes.
pub open spec fn feeds(s: SessionModel, cs: Seq<char>) -> SessionModel
    decreases cs.len(),
{
    if cs.len() == 0 {
        s
    } else {
        feeds(feed_model(s, cs[0]), cs.drop_first())
    }
}

pub proof fn lemma_feeds_append(s: SessionModel, cs: Seq<char>, ds: Seq<char>)
    ensures
        feeds(s, cs + ds) == feeds(feeds(s, cs), ds),
    decreases cs.len(),
{
    if cs.len() == 0 {
        assert(cs + ds =~= ds);
    } else {
        assert((cs + ds)[0] == cs[0]);
        assert((cs + ds).drop_first() =~= cs.drop_first() + ds);
        lemma_feeds_append(feed_model(s, cs[0]), cs.drop_first(), ds);
    }
}

pub proof fn lemma_feed_one(s: SessionModel, c: char)
    ensures
        feeds(s, seq![c]) == feed_model(s, c),
{
    assert(seq![c][0] == c);
    assert(seq![c].drop_first() =~= Seq::<char>::empty());
    assert(feeds(s, seq![c]) == feeds(feed_model(s, c), seq![c].drop_first()));
    assert(feeds(feed_model(s, c), seq![c].drop_first()) == feed_model(s, c));
}

/// Every keystroke keeps a session well formed.
pub proof fn lemma_feed_model_wf(s: SessionModel, c: char)
    requires
        session_wf(s),
    ensures
        session_wf(feed_model(s, c)),
{
    let t = feed_model(s, c);
    if c == BACKSPACE {
        if s.buffer.len() == 0 {
        } else {
            let m = s.buffer.len() - 1;
            assert(s.buffer.drop_last() =~= s.buffer.take(m));
            assert(t.state == run_state(t.buffer));
            assert forall|i: int| 0 <= i < t.buffer.len() implies t.stack[i] == run_state(
                t.buffer.take(i),
            ) by {
                assert(t.stack[i] == s.stack[i]);
                assert(t.buffer.take(i) =~= s.buffer.take(i));
            }
        }
    } else if s.buffer.len() > LINE_CAPACITY && c != '\r' {
    } else if c == '\r' {
    } else if spec_accepts(s.state, c) {
        assert(t.buffer.drop_last() =~= s.buffer);
        assert(t.buffer.last() == c);
        assert(t.state == run_state(t.buffer));
        assert forall|i: int| 0 <= i < t.buffer.len() implies t.stack[i] == run_state(
            t.buffer.take(i),
        ) by {
            if i < s.buffer.len() {
                assert(t.stack[i] == s.stack[i]);
                assert(t.buffer.take(i) =~= s.buffer.take(i));
            } else {
                assert(t.stack[i] == s.state);
                assert(t.buffer.take(i) =~= s.buffer);
            }
        }
    } else {
    }
}

pub proof fn lemma_init_wf()
    ensures
        session_wf(init_model()),
{
}

/// Law: a keystroke outside the grammar of the current state leaves buffer,
/// state and history stack unchanged, and yields no command.
pub proof fn lemma_reject_is_noop(s: SessionModel, c: char)
    requires
        c != BACKSPACE,
        c != '\r',
        !spec_accepts(s.state, c),
    ensures
        feed_model(s, c) == s,
        feed_out(s, c) is None,
{
}

/// Law: past the line capacity the machine drops every printable
/// character without any effect...
pub proof fn lemma_cap_blocks(s: SessionModel, c: char)
    requires
        s.buffer.len() > LINE_CAPACITY,
        c != BACKSPACE,
        c != '\r',
    ensures
        feed_model(s, c) == s,
        feed_out(s, c) is None,
{
}

/// ...but backspace still shortens an over-long line.
pub proof fn lemma_cap_allows_backspace(s: SessionModel)
    requires
        s.buffer.len() > LINE_CAPACITY,
    ensures
        feed_model(s, BACKSPACE).buffer == s.buffer.drop_last(),
{
}

/// Keystrokes keep a session well formed and grow the buffer by at most
/// one character each.
pub proof fn lemma_feeds_wf(s: SessionModel, cs: Seq<char>)
    requires
        session_wf(s),
    ensures
        session_wf(feeds(s, cs)),
        feeds(s, cs).buffer.len() <= s.buffer.len() + cs.len(),
    decreases cs.len(),
{
    if cs.len() > 0 {
        lemma_feed_model_wf(s, cs[0]);
        lemma_feeds_wf(feed_model(s, cs[0]), cs.drop_first());
    }
}

/// Backspacing at least as often as the buffer is long leaves a well-formed
/// session in its initial state.
pub proof fn lemma_backspaces_reset(s: SessionModel, k: nat)
    requires
        session_wf(s),
        s.buffer.len() <= k,
    ensures
        feeds(s, Seq::new(k, |i: int| BACKSPACE)) == init_model(),
    decreases k,
{
    let bs = Seq::new(k, |i: int| BACKSPACE);
    if k == 0 {
        assert(bs =~= Seq::<char>::empty());
        assert(s.buffer =~= Seq::<char>::empty());
        assert(s.stack =~= Seq::<State>::empty());
        assert(s =~= init_model());
    } else {
        let s2 = feed_model(s, BACKSPACE);
        lemma_feed_model_wf(s, BACKSPACE);
        assert(bs[0] == BACKSPACE);
        assert(bs.drop_first() =~= Seq::new((k - 1) as nat, |i: int| BACKSPACE));
        lemma_backspaces_reset(s2, (k - 1) as nat);
    }
}

/// Law: typing any characters and then backspacing as many times returns a
/// fresh session to its exact initial state: empty buffer, initial grammar
/// position, empty history stack.
pub proof fn lemma_type_then_backspace(cs: Seq<char>)
    ensures
        feeds(init_model(), cs + Seq::new(cs.len(), |i: int| BACKSPACE)) == init_model(),
{
    lemma_init_wf();
    lemma_feeds_wf(init_model(), cs);
    lemma_feeds_append(init_model(), cs, Seq::new(cs.len(), |i: int| BACKSPACE));
    lemma_backspaces_reset(feeds(init_model(), cs), cs.len());
}

/// A name word: one or more letters.
pub open spec fn letters_word(w: Seq<char>) -> bool {
    w.len() >= 1 && forall|k: int| 0 <= k < w.len() ==> is_letter(#[trigger] w[k])
}

/// A number token: one or more decimal digits.
pub open spec fn digits_word(w: Seq<char>) -> bool {
    w.len() >= 1 && all_digits(w)
}

/// Feeding a word of letters from any name position lands in `Name` with
/// the word appended to the buffer.
pub proof fn lemma_feed_word(s: SessionModel, w: Seq<char>)
    requires
        s.state == State::AddCommand || s.state == State::S0 || s.state == State::Name,
        letters_word(w),
        s.buffer.len() + w.len() <= LINE_CAPACITY + 1,
    ensures
        feeds(s, w).state == State::Name,
        feeds(s, w).buffer == s.buffer + w,
    decreases w.len(),
{
    let c = w[0];
    assert(is_letter(c));
    assert(c != BACKSPACE && c != '\r' && c != ' ');
    let s2 = feed_model(s, c);
    assert(s2.state == State::Name);
    assert(s2.buffer == s.buffer.push(c));
    assert(feeds(s, w) == feeds(s2, w.drop_first()));
    if w.len() == 1 {
        assert(w.drop_first() =~= Seq::<char>::empty());
        assert(feeds(s2, w.drop_first()) == s2);
        assert(s.buffer + w =~= s.buffer.push(c));
    } else {
        assert(letters_word(w.drop_first())) by {
            assert forall|k: int| 0 <= k < w.drop_first().len() implies is_letter(
                #[trigger] w.drop_first()[k],
            ) by {
                assert(w.drop_first()[k] == w[k + 1]);
            }
        }
        lemma_feed_word(s2, w.drop_first());
        assert(s.buffer.push(c) + w.drop_first() =~= s.buffer + w);
    }
}

/// Feeding a word of letters from any delete-name position lands in
/// `ValidName` with the word appended to the buffer.
pub proof fn lemma_feed_del_word(s: SessionModel, w: Seq<char>)
    requires
        s.state == State::DeleteCommand || s.state == State::S2 || s.state == State::ValidName,
        letters_word(w),
        s.buffer.len() + w.len() <= LINE_CAPACITY + 1,
    ensures
        feeds(s, w).state == State::ValidName,
        feeds(s, w).buffer == s.buffer + w,
    decreases w.len(),
{
    let c = w[0];
    assert(is_letter(c));
    assert(c != BACKSPACE && c != '\r' && c != ' ');
    let s2 = feed_model(s, c);
    assert(s2.state == State::ValidName);
    assert(s2.buffer == s.buffer.push(c));
    assert(feeds(s, w) == feeds(s2, w.drop_first()));
    if w.len() == 1 {
        assert(w.drop_first() =~= Seq::<char>::empty());
        assert(feeds(s2, w.drop_first()) == s2);
        assert(s.buffer + w =~= s.buffer.push(c));
    } else {
        assert(letters_word(w.drop_first())) by {
            assert forall|k: int| 0 <= k < w.drop_first().len() implies is_letter(
                #[trigger] w.drop_first()[k],
            ) by {
                assert(w.drop_first()[k] == w[k + 1]);
            }
        }
        lemma_feed_del_word(s2, w.drop_first());
        assert(s.buffer.push(c) + w.drop_first() =~= s.buffer + w);
    }
}

/// Feeding digits from the goals boundary lands in `Goals`.
pub proof fn lemma_feed_goals(s: SessionModel, w: Seq<char>)
    requires
        s.state == State::S0 || s.state == State::Goals,
        digits_word(w),
        s.buffer.len() + w.len() <= LINE_CAPACITY + 1,
    ensures
        feeds(s, w).state == State::Goals,
        feeds(s, w).buffer == s.buffer + w,
    decreases w.len(),
{
    let c = w[0];
    assert(is_digit(c));
    assert(c != BACKSPACE && c != '\r' && c != ' ');
    let s2 = feed_model(s, c);
    assert(s2.state == State::Goals);
    assert(s2.buffer == s.buffer.push(c));
    assert(feeds(s, w) == feeds(s2, w.drop_first()));
    if w.len() == 1 {
        assert(w.drop_first() =~= Seq::<char>::empty());
        assert(feeds(s2, w.drop_first()) == s2);
        assert(s.buffer + w =~= s.buffer.push(c));
    } else {
        assert(digits_word(w.drop_first())) by {
            assert forall|k: int| 0 <= k < w.drop_first().len() implies is_digit(
                #[trigger] w.drop_first()[k],
            ) by {
                assert(w.drop_first()[k] == w[k + 1]);
            }
        }
        lemma_feed_goals(s2, w.drop_first());
        assert(s.buffer.push(c) + w.drop_first() =~= s.buffer + w);
    }
}

/// Feeding digits from the assists boundary lands in `Assists`.
pub proof fn lemma_feed_assists(s: SessionModel, w: Seq<char>)
    requires
        s.state == State::S1 || s.state == State::Assists,
        digits_word(w),
        s.buffer.len() + w.len() <= LINE_CAPACITY + 1,
    ensures
        feeds(s, w).state == State::Assists,
        feeds(s, w).buffer == s.buffer + w,
    decreases w.len(),
{
    let c = w[0];
    assert(is_digit(c));
    assert(c != BACKSPACE && c != '\r' && c != ' ');
    let s2 = feed_model(s, c);
    assert(s2.state == State::Assists);
    assert(s2.buffer == s.buffer.push(c));
    assert(feeds(s, w) == feeds(s2, w.drop_first()));
    if w.len() == 1 {
        assert(w.drop_first() =~= Seq::<char>::empty());
        assert(feeds(s2, w.drop_first()) == s2);
        assert(s.buffer + w =~= s.buffer.push(c));
    } else {
        assert(digits_word(w.drop_first())) by {
            assert forall|k: int| 0 <= k < w.drop_first().len() implies is_digit(
                #[trigger] w.drop_first()[k],
            ) by {
                assert(w.drop_first()[k] == w[k + 1]);
            }
        }
        lemma_feed_assists(s2, w.drop_first());
        assert(s.buffer.push(c) + w.drop_first() =~= s.buffer + w);
    }
}

/// Typing `add ` on a fresh session enters the add path.
pub proof fn lemma_feed_add_keyword()
    ensures
        feeds(init_model(), add_kw() + seq![' ']).state == State::AddCommand,
        feeds(init_model(), add_kw() + seq![' ']).buffer == add_kw() + seq![' '],
{
    let s0 = init_model();
    let cs = add_kw() + seq![' '];
    let s1 = feed_model(s0, 'a');
    let s2 = feed_model(s1, 'd');
    let s3 = feed_model(s2, 'd');
    assert(s3.buffer =~= add_kw());
    let s4 = feed_model(s3, ' ');
    assert(s4.state == State::AddCommand);
    lemma_feed_one(s0, 'a');
    lemma_feeds_append(s0, seq!['a'], seq!['d', 'd', ' ']);
    assert(cs =~= seq!['a'] + seq!['d', 'd', ' ']);
    lemma_feed_one(s1, 'd');
    lemma_feeds_append(s1, seq!['d'], seq!['d', ' ']);
    assert(seq!['d', 'd', ' '] =~= seq!['d'] + seq!['d', ' ']);
    lemma_feed_one(s2, 'd');
    lemma_feeds_append(s2, seq!['d'], seq![' ']);
    assert(seq!['d', ' '] =~= seq!['d'] + seq![' ']);
    lemma_feed_one(s3, ' ');
    assert(feeds(s0, cs) == s4);
    assert(s4.buffer =~= add_kw() + seq![' ']);
}

/// Typing `del ` on a fresh session enters the delete path.
pub proof fn lemma_feed_del_keyword()
    ensures
        feeds(init_model(), del_kw() + seq![' ']).state == State::DeleteCommand,
        feeds(init_model(), del_kw() + seq![' ']).buffer == del_kw() + seq![' '],
{
    let s0 = init_model();
    let cs = del_kw() + seq![' '];
    let s1 = feed_model(s0, 'd');
    let s2 = feed_model(s1, 'e');
    let s3 = feed_model(s2, 'l');
    assert(s3.buffer =~= del_kw());
    assert(s3.buffer != add_kw()) by {
        assert(s3.buffer[0] == 'd' && add_kw()[0] == 'a');
    }
    let s4 = feed_model(s3, ' ');
    assert(s4.state == State::DeleteCommand);
    lemma_feed_one(s0, 'd');
    lemma_feeds_append(s0, seq!['d'], seq!['e', 'l', ' ']);
    assert(cs =~= seq!['d'] + seq!['e', 'l', ' ']);
    lemma_feed_one(s1, 'e');
    lemma_feeds_append(s1, seq!['e'], seq!['l', ' ']);
    assert(seq!['e', 'l', ' '] =~= seq!['e'] + seq!['l', ' ']);
    lemma_feed_one(s2, 'l');
    lemma_feeds_append(s2, seq!['l'], seq![' ']);
    assert(seq!['l', ' '] =~= seq!['l'] + seq![' ']);
    lemma_feed_one(s3, ' ');
    assert(feeds(s0, cs) == s4);
    assert(s4.buffer =~= del_kw() + seq![' ']);
}

/// Feeding space-joined name words and one more space from a name boundary
/// lands on the goals boundary with everything appended.
pub proof fn lemma_feed_name_words(s: SessionModel, ws: Seq<Seq<char>>)
    requires
        s.state == State::AddCommand || s.state == State::S0,
        ws.len() >= 1,
        forall|i: int| 0 <= i < ws.len() ==> letters_word(#[trigger] ws[i]),
        s.buffer.len() + join_sp(ws).len() + 1 <= LINE_CAPACITY + 1,
    ensures
        feeds(s, join_sp(ws) + seq![' ']).state == State::S0,
        feeds(s, join_sp(ws) + seq![' ']).buffer == s.buffer + join_sp(ws) + seq![' '],
    decreases ws.len(),
{
    let w = ws[0];
    assert(letters_word(w));
    if ws.len() == 1 {
        assert(join_sp(ws) == w);
        lemma_feed_word(s, w);
        let s2 = feeds(s, w);
        lemma_feeds_append(s, w, seq![' ']);
        lemma_feed_one(s2, ' ');
        let s3 = feed_model(s2, ' ');
        assert(s3.state == State::S0);
        assert(s3.buffer == s2.buffer.push(' '));
        assert(s2.buffer.push(' ') =~= s.buffer + join_sp(ws) + seq![' ']);
    } else {
        let rest = ws.drop_first();
        assert(join_sp(ws) == w + seq![' '] + join_sp(rest));
        assert(letters_word(rest[0])) by {
            assert(rest[0] == ws[1]);
        }
        assert(join_sp(rest).len() >= 1) by {
            if rest.len() >= 2 {
                assert(join_sp(rest) == rest[0] + seq![' '] + join_sp(rest.drop_first()));
            }
        }
        lemma_feed_word(s, w);
        let s2 = feeds(s, w);
        lemma_feed_one(s2, ' ');
        let s3 = feed_model(s2, ' ');
        assert(s3.state == State::S0);
        assert(s3.buffer == s2.buffer.push(' '));
        assert(forall|i: int| 0 <= i < rest.len() ==> letters_word(#[trigger] rest[i])) by {
            assert forall|i: int| 0 <= i < rest.len() implies letters_word(
                #[trigger] rest[i],
            ) by {
                assert(rest[i] == ws[i + 1]);
            }
        }
        lemma_feed_name_words(s3, rest);
        lemma_feeds_append(s, w, seq![' ']);
        assert(feeds(s, w + seq![' ']) == s3);
        lemma_feeds_append(s, w + seq![' '], join_sp(rest) + seq![' ']);
        assert((w + seq![' ']) + (join_sp(rest) + seq![' ']) =~= join_sp(ws) + seq![' ']);
        assert(s3.buffer + join_sp(rest) + seq![' '] =~= s.buffer + join_sp(ws) + seq![' ']);
    }
}

/// Feeding space-joined name words from a delete-name boundary lands in the
/// terminal `ValidName` state with everything appended.
pub proof fn lemma_feed_del_words(s: SessionModel, ws: Seq<Seq<char>>)
    requires
        s.state == State::DeleteCommand || s.state == State::S2,
        ws.len() >= 1,
        forall|i: int| 0 <= i < ws.len() ==> letters_word(#[trigger] ws[i]),
        s.buffer.len() + join_sp(ws).len() <= LINE_CAPACITY + 1,
    ensures
        feeds(s, join_sp(ws)).state == State::ValidName,
        feeds(s, join_sp(ws)).buffer == s.buffer + join_sp(ws),
    decreases ws.len(),
{
    let w = ws[0];
    assert(letters_word(w));
    if ws.len() == 1 {
        assert(join_sp(ws) == w);
        lemma_feed_del_word(s, w);
    } else {
        let rest = ws.drop_first();
        assert(join_sp(ws) == w + seq![' '] + join_sp(rest));
        assert(letters_word(rest[0])) by {
            assert(rest[0] == ws[1]);
        }
        assert(join_sp(rest).len() >= 1) by {
            if rest.len() >= 2 {
                assert(join_sp(rest) == rest[0] + seq![' '] + join_sp(rest.drop_first()));
            }
        }
        lemma_feed_del_word(s, w);
        let s2 = feeds(s, w);
        lemma_feed_one(s2, ' ');
        let s3 = feed_model(s2, ' ');
        assert(s3.state == State::S2);
        assert(s3.buffer == s2.buffer.push(' '));
        assert(forall|i: int| 0 <= i < rest.len() ==> letters_word(#[trigger] rest[i])) by {
            assert forall|i: int| 0 <= i < rest.len() implies letters_word(
                #[trigger] rest[i],
            ) by {
                assert(rest[i] == ws[i + 1]);
            }
        }
        lemma_feed_del_words(s3, rest);
        lemma_feeds_append(s, w, seq![' ']);
        assert(feeds(s, w + seq![' ']) == s3);
        lemma_feeds_append(s, w + seq![' '], join_sp(rest));
        assert((w + seq![' ']) + join_sp(rest) =~= join_sp(ws));
        assert(s3.buffer + join_sp(rest) =~= s.buffer + join_sp(ws));
    }
}

/// Letter words carry no spaces, so they stand as single tokens.
pub proof fn lemma_letters_are_words(ws: Seq<Seq<char>>)
    requires
        forall|i: int| 0 <= i < ws.len() ==> letters_word(#[trigger] ws[i]),
    ensures
        forall|i: int| 0 <= i < ws.len() ==> word_ok(#[trigger] ws[i]),
{
    assert forall|i: int| 0 <= i < ws.len() implies word_ok(#[trigger] ws[i]) by {
        assert forall|k: int| 0 <= k < ws[i].len() implies ws[i][k] != ' ' by {
            assert(is_letter(ws[i][k]));
        }
    }
}

/// Law: on a fresh session, typing `add`, a name of space-separated letter
/// words, goals digits and assists digits, then Enter, accepts every
/// keystroke and yields exactly the Add command whose name is the words
/// joined by single spaces; the session then starts over. Lines over the
/// capacity cannot be completed, so the line is bounded.
pub proof fn lemma_add_line_yields_add(ws: Seq<Seq<char>>, g: Seq<char>, a: Seq<char>)
    requires
        ws.len() >= 1,
        forall|i: int| 0 <= i < ws.len() ==> letters_word(#[trigger] ws[i]),
        digits_word(g),
        digits_val(g) <= u32::MAX,
        digits_word(a),
        digits_val(a) <= u32::MAX,
        6 + join_sp(ws).len() + g.len() + a.len() <= LINE_CAPACITY + 1,
    ensures
        ({
            let line = add_kw() + seq![' '] + join_sp(ws) + seq![' '] + g + seq![' '] + a;
            let done = feeds(init_model(), line);
            &&& done.state == State::Assists
            &&& done.buffer == line
            &&& feed_out(done, '\r') == Some(
                CommandModel::Add(join_sp(ws), digits_val(g) as u32, digits_val(a) as u32),
            )
            &&& feed_model(done, '\r') == init_model()
        }),
{
    let line = add_kw() + seq![' '] + join_sp(ws) + seq![' '] + g + seq![' '] + a;
    let seg1 = add_kw() + seq![' '];
    let seg2 = join_sp(ws) + seq![' '];
    let seg4 = seq![' '];
    lemma_feed_add_keyword();
    let s1 = feeds(init_model(), seg1);
    lemma_feed_name_words(s1, ws);
    let s2 = feeds(s1, seg2);
    lemma_feed_goals(s2, g);
    let s3 = feeds(s2, g);
    lemma_feed_one(s3, ' ');
    let s4 = feed_model(s3, ' ');
    assert(s4.state == State::S1);
    assert(s4.buffer == s3.buffer.push(' '));
    lemma_feed_assists(s4, a);
    let s5 = feeds(s4, a);
    assert(s5.state == State::Assists);
    lemma_feeds_append(init_model(), seg1, seg2 + (g + (seg4 + a)));
    lemma_feeds_append(s1, seg2, g + (seg4 + a));
    lemma_feeds_append(s2, g, seg4 + a);
    lemma_feeds_append(s3, seg4, a);
    assert(feeds(s3, seg4) == s4);
    assert(line =~= seg1 + (seg2 + (g + (seg4 + a))));
    assert(feeds(init_model(), line) == s5);
    assert(s5.buffer =~= line);
    // the completed line splits back into its tokens
    assert(word_ok(add_kw())) by {
        assert(add_kw()[0] == 'a' && add_kw()[1] == 'd' && add_kw()[2] == 'd');
    }
    lemma_letters_are_words(ws);
    assert(word_ok(g)) by {
        assert forall|k: int| 0 <= k < g.len() implies g[k] != ' ' by {
            assert(is_digit(g[k]));
        }
    }
    assert(word_ok(a)) by {
        assert forall|k: int| 0 <= k < a.len() implies a[k] != ' ' by {
            assert(is_digit(a[k]));
        }
    }
    let x1 = seq![' '] + (join_sp(ws) + (seq![' '] + (g + (seq![' '] + a))));
    assert(line =~= add_kw() + x1);
    lemma_split_word(add_kw(), x1);
    let x2 = join_sp(ws) + (seq![' '] + (g + (seq![' '] + a)));
    lemma_split_space(x2);
    let t1 = seq![' '] + (g + (seq![' '] + a));
    lemma_split_join(ws, t1);
    let t2 = g + (seq![' '] + a);
    lemma_split_space(t2);
    lemma_split_word(g, seq![' '] + a);
    lemma_split_space(a);
    lemma_split_word(a, Seq::<char>::empty());
    assert(a + Seq::<char>::empty() =~= a);
    assert(split_ws(Seq::<char>::empty()) =~= Seq::<Seq<char>>::empty());
    let toks = split_ws(line);
    assert(toks =~= seq![add_kw()] + (ws + (seq![g] + (seq![a]))));
    let n = toks.len() as int;
    assert(n == 3 + ws.len());
    assert(toks[0] == add_kw());
    assert(toks[n - 2] == g);
    assert(toks[n - 1] == a);
    assert(toks.subrange(1, n - 2) =~= ws);
    assert(spec_add_command(line) == Some(
        CommandModel::Add(join_sp(ws), digits_val(g) as u32, digits_val(a) as u32),
    ));
}

/// Law: on a fresh session, typing `del` and a name of space-separated
/// letter words, then Enter, accepts every keystroke and yields exactly the
/// Delete command whose name is the words joined by single spaces; the
/// session then starts over.
pub proof fn lemma_del_line_yields_delete(ws: Seq<Seq<char>>)
    requires
        ws.len() >= 1,
        forall|i: int| 0 <= i < ws.len() ==> letters_word(#[trigger] ws[i]),
        4 + join_sp(ws).len() <= LINE_CAPACITY + 1,
    ensures
        ({
            let line = del_kw() + seq![' '] + join_sp(ws);
            let done = feeds(init_model(), line);
            &&& done.state == State::ValidName
            &&& done.buffer == line
            &&& feed_out(done, '\r') == Some(CommandModel::Delete(join_sp(ws)))
            &&& feed_model(done, '\r') == init_model()
        }),
{
    let line = del_kw() + seq![' '] + join_sp(ws);
    let seg1 = del_kw() + seq![' '];
    lemma_feed_del_keyword();
    let s1 = feeds(init_model(), seg1);
    lemma_feed_del_words(s1, ws);
    let s2 = feeds(s1, join_sp(ws));
    assert(s2.state == State::ValidName);
    lemma_feeds_append(init_model(), seg1, join_sp(ws));
    assert(line =~= seg1 + join_sp(ws));
    assert(feeds(init_model(), line) == s2);
    assert(s2.buffer =~= line);
    // the completed line splits back into its tokens
    assert(word_ok(del_kw())) by {
        assert(del_kw()[0] == 'd' && del_kw()[1] == 'e' && del_kw()[2] == 'l');
    }
    lemma_letters_are_words(ws);
    let x1 = seq![' '] + join_sp(ws);
    assert(line =~= del_kw() + x1);
    lemma_split_word(del_kw(), x1);
    lemma_split_space(join_sp(ws));
    lemma_split_join(ws, Seq::<char>::empty());
    assert(join_sp(ws) + Seq::<char>::empty() =~= join_sp(ws));
    assert(split_ws(Seq::<char>::empty()) =~= Seq::<Seq<char>>::empty());
    let toks = split_ws(line);
    assert(toks =~= seq![del_kw()] + ws);
    let n = toks.len() as int;
    assert(toks[0] == del_kw());
    assert(toks.subrange(1, n) =~= ws);
    assert(spec_del_command(line) == Some(CommandModel::Delete(join_sp(ws))));
}

} // verus!
