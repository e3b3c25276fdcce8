//! The control-protocol front end: what each command asks of the engine, and
//! the lines to send back. Reading and writing the lines is the caller's part:
//! responses collect in an outbox.
use vstd::prelude::*;
use vstd::string::{StringExecFns, StringSliceAdditionalSpecFns};
use vstd::utf8::encode_utf8;
use crate::chess::Color;
use crate::search::SearchLimits;

verus! {

/// The parameters of a `go` command.
pub struct UciGoParams {
    pub wtime: Option<u64>,
    pub btime: Option<u64>,
    pub winc: Option<u64>,
    pub binc: Option<u64>,
    pub movestogo: Option<u64>,
    pub depth: Option<u64>,
    pub nodes: Option<u64>,
    pub movetime: Option<u64>,
    pub infinite: bool,
    pub searchmoves: Vec<String>,
    pub ponder: bool,
}

/// How many moves a clock is assumed to last when `movestogo` is not given.
pub const DEFAULT_MOVES_TO_GO: u64 = 20;

/// A count as a `usize`, capped at `usize::MAX`.
pub open spec fn capped(n: u64) -> usize {
    if n <= usize::MAX {
        n as usize
    } else {
        usize::MAX
    }
}

/// The time budget from a clock: an equal share over the moves to go, plus the increment.
pub open spec fn clock_budget(time: u64, inc: u64, movestogo: Option<u64>) -> int {
    let mtg = match movestogo {
        Some(m) => if m == 0 {
            1
        } else {
            m as int
        },
        None => DEFAULT_MOVES_TO_GO as int,
    };
    let budget = time as int / mtg + inc as int;
    if budget > u64::MAX {
        u64::MAX as int
    } else {
        budget
    }
}

impl UciGoParams {
    /// No parameter given.
    pub fn new() -> (r: UciGoParams)
        ensures
            r.wtime is None && r.btime is None && r.winc is None && r.binc is None,
            r.movestogo is None && r.depth is None && r.nodes is None && r.movetime is None,
            !r.infinite && !r.ponder && r.searchmoves.len() == 0,
    {
        UciGoParams {
            wtime: None,
            btime: None,
            winc: None,
            binc: None,
            movestogo: None,
            depth: None,
            nodes: None,
            movetime: None,
            infinite: false,
            searchmoves: Vec::new(),
            ponder: false,
        }
    }

    /// The limits that the parameters set for a search where `to_move` plays:
    /// `infinite`, else a fixed move time, else a node count, else a depth, else
    /// a share of the side's clock, else no limit.
    pub open spec fn spec_limits(&self, to_move: Color) -> SearchLimits {
        if self.infinite {
            SearchLimits::Infinite
        } else if self.movetime is Some {
            SearchLimits::Time(self.movetime->0)
        } else if self.nodes is Some {
            SearchLimits::Nodes(capped(self.nodes->0))
        } else if self.depth is Some {
            SearchLimits::Depth(capped(self.depth->0))
        } else {
            let (time, inc) = match to_move {
                Color::White => (self.wtime, self.winc),
                Color::Black => (self.btime, self.binc),
            };
            match time {
                Some(t) => SearchLimits::Time(
                    clock_budget(
                        t,
                        match inc {
                            Some(i) => i,
                            None => 0,
                        },
                        self.movestogo,
                    ) as u64,
                ),
                None => SearchLimits::Infinite,
            }
        }
    }

    /// The limits that the parameters set, computed.
    pub fn limits(&self, to_move: Color) -> (r: SearchLimits)
        ensures
            r == self.spec_limits(to_move),
    {
        if self.infinite {
            return SearchLimits::Infinite;
        }
        if let Some(t) = self.movetime {
            return SearchLimits::Time(t);
        }
        if let Some(n) = self.nodes {
            return SearchLimits::Nodes(cap_count(n));
        }
        if let Some(d) = self.depth {
            return SearchLimits::Depth(cap_count(d));
        }
        let (time, inc) = match to_move {
            Color::White => (self.wtime, self.winc),
            Color::Black => (self.btime, self.binc),
        };
        match time {
            Some(t) => {
                let i = match inc {
                    Some(i) => i,
                    None => 0,
                };
                let mtg = match self.movestogo {
                    Some(m) => if m == 0 {
                        1
                    } else {
                        m
                    },
                    None => DEFAULT_MOVES_TO_GO,
                };
                let share = t / mtg;
                let budget = if share > u64::MAX - i {
                    u64::MAX
                } else {
                    share + i
                };
                SearchLimits::Time(budget)
            },
            None => SearchLimits::Infinite,
        }
    }
}

fn cap_count(n: u64) -> (r: usize)
    ensures
        r == capped(n),
{
    if n as u128 <= usize::MAX as u128 {
        n as usize
    } else {
        usize::MAX
    }
}

/// What a command asks of the engine.
pub enum UciEvent {
    /// Nothing beyond the responses sent.
    Nothing,
    /// Forget the previous game.
    NewGame,
    /// Set the position: a FEN (or the starting position), then moves in UCI notation.
    Position { fen: Option<String>, moves: Vec<String> },
    /// Start a search.
    Search { limits: SearchLimits, ponder: bool },
    /// Stop the search.
    Stop,
    /// The pondered move was played.
    PonderHit,
    /// Start playing.
    Start,
    /// Leave the loop.
    Quit,
}

/// Why a command was refused.
#[derive(Debug, PartialEq, Eq)]
pub enum UciError {
    UnknownCommand,
    UnknownOption,
    MissingValue,
    BadNumber,
}

/// The value of a string of ASCII digits.
pub open spec fn digits_value(b: Seq<u8>) -> int
    decreases b.len(),
{
    if b.len() == 0 {
        0
    } else {
        digits_value(b.drop_last()) * 10 + (b.last() - 48)
    }
}

/// Every byte is an ASCII digit.
pub open spec fn all_digits(b: Seq<u8>) -> bool {
    forall|i: int| 0 <= i < b.len() ==> 48 <= #[trigger] b[i] <= 57
}

/// Parses a decimal number of at most `u64::MAX`.
pub fn parse_u64(s: &str) -> (r: Option<u64>)
    ensures
        r matches Some(v) ==> s.spec_bytes().len() > 0 && all_digits(s.spec_bytes()) && v == digits_value(
            s.spec_bytes(),
        ),
        (s.spec_bytes().len() > 0 && all_digits(s.spec_bytes()) && digits_value(s.spec_bytes())
            <= u64::MAX) ==> r is Some,
{
    let b = s.as_bytes();
    let n = b.len();
    if n == 0 {
        return None;
    }
    let mut v: u64 = 0;
    let mut i: usize = 0;
    while i < n
        invariant
            b@ == s.spec_bytes(),
            n == b.len(),
            i <= n,
            all_digits(b@.take(i as int)),
            v == digits_value(b@.take(i as int)),
        decreases n - i,
    {
        let c = b[i];
        assert(b@.take(i + 1).drop_last() =~= b@.take(i as int));
        if c < 48 || c > 57 {
            assert(!all_digits(b@)) by {
                assert(b@[i as int] == c);
            }
            return None;
        }
        let d = (c - 48) as u64;
        if v > (u64::MAX - d) / 10 {
            proof {
                lemma_digits_grow(b@, i as int + 1);
            }
            return None;
        }
        v = v * 10 + d;
        i = i + 1;
    }
    assert(b@.take(n as int) =~= b@);
    Some(v)
}

/// The value of a prefix of digits bounds the value of the whole from below.
proof fn lemma_digits_grow(b: Seq<u8>, k: int)
    requires
        0 <= k <= b.len(),
        all_digits(b.take(k)),
    ensures
        all_digits(b) ==> digits_value(b) >= digits_value(b.take(k)),
    decreases b.len() - k,
{
    if k < b.len() && all_digits(b) {
        assert(b.take(k + 1).drop_last() =~= b.take(k));
        assert(all_digits(b.take(k + 1)));
        lemma_digits_nonneg(b.take(k));
        lemma_digits_grow(b, k + 1);
    } else if k == b.len() {
        assert(b.take(k) =~= b);
    }
}

proof fn lemma_digits_nonneg(b: Seq<u8>)
    requires
        all_digits(b),
    ensures
        digits_value(b) >= 0,
    decreases b.len(),
{
    if b.len() > 0 {
        lemma_digits_nonneg(b.drop_last());
    }
}

/// Whether the token is the word `w`.
fn is_word(tok: &String, w: &str) -> (r: bool)
    ensures
        r == (tok@ == w@),
{
    let word = <String as StringExecFns>::from_str(w);
    *tok == word
}

/// Sent during and after a tournament.
pub struct TournamentInfo {
    pub finished: bool,
    /// Wins, draws and losses, each for both colors.
    pub results: [[u32; 2]; 3],
    pub move_count: usize,
    pub nodes_total: usize,
}

/// The protocol loop's state: the responses not yet sent.
pub struct UciLoop {
    pub outbox: Vec<String>,
}

/// The engine's name line.
pub open spec fn id_name() -> Seq<char> {
    "id name FatDuck"@
}

/// The engine's author line.
pub open spec fn id_author() -> Seq<char> {
    "id author The FatDuck developers"@
}

impl UciLoop {
    pub open spec fn sent(&self) -> Seq<Seq<char>> {
        self.outbox@.map_values(|s: String| s@)
    }

    /// A loop with nothing to send.
    pub fn new() -> (r: UciLoop)
        ensures
            r.outbox.len() == 0,
    {
        UciLoop { outbox: Vec::new() }
    }

    /// Queues one response.
    pub fn send_response(&mut self, response: String)
        ensures
            final(self).outbox@ == old(self).outbox@.push(response),
    {
        self.outbox.push(response);
    }

    /// Queues responses, in order.
    pub fn send_responses(&mut self, responses: Vec<String>)
        ensures
            final(self).outbox@ == old(self).outbox@ + responses@,
    {
        let mut responses = responses;
        self.outbox.append(&mut responses);
    }

    /// Queues the engine's identification.
    pub fn send_id(&mut self)
        ensures
            final(self).sent() == old(self).sent().push(id_name()).push(id_author()),
    {
        let name = <String as StringExecFns>::from_str("id name FatDuck");
        let author = <String as StringExecFns>::from_str("id author The FatDuck developers");
        self.outbox.push(name);
        self.outbox.push(author);
        assert(self.sent() =~= old(self).sent().push(id_name()).push(id_author()));
    }

    /// `uci`: identification, then `uciok`.
    pub fn cmd_uci(&mut self) -> (r: Result<UciEvent, UciError>)
        ensures
            final(self).sent() == old(self).sent().push(id_name()).push(id_author()).push("uciok"@),
            r matches Ok(UciEvent::Nothing),
    {
        self.send_id();
        let ok = <String as StringExecFns>::from_str("uciok");
        self.outbox.push(ok);
        assert(self.sent() =~= old(self).sent().push(id_name()).push(id_author()).push("uciok"@));
        Ok(UciEvent::Nothing)
    }

    /// `isready`: `readyok`.
    pub fn cmd_isready(&mut self) -> (r: Result<UciEvent, UciError>)
        ensures
            final(self).sent() == old(self).sent().push("readyok"@),
            r matches Ok(UciEvent::Nothing),
    {
        let ok = <String as StringExecFns>::from_str("readyok");
        self.outbox.push(ok);
        assert(self.sent() =~= old(self).sent().push("readyok"@));
        Ok(UciEvent::Nothing)
    }

    /// `setoption`: the engine has no options, so every name is refused.
    pub fn cmd_setoption(&mut self, name: &str, value: &str) -> (r: Result<UciEvent, UciError>)
        ensures
            final(self).outbox@ == old(self).outbox@,
            r matches Err(UciError::UnknownOption),
    {
        Err(UciError::UnknownOption)
    }

    /// `ucinewgame`: forget the game.
    pub fn cmd_ucinewgame(&mut self) -> (r: Result<UciEvent, UciError>)
        ensures
            final(self).outbox@ == old(self).outbox@,
            r matches Ok(UciEvent::NewGame),
    {
        Ok(UciEvent::NewGame)
    }

    /// `position startpos [moves ...]`.
    pub fn cmd_position(&mut self, moves: Vec<String>) -> (r: Result<UciEvent, UciError>)
        ensures
            final(self).outbox@ == old(self).outbox@,
            r matches Ok(UciEvent::Position { fen, moves: ms }) && fen is None && ms@ == moves@,
    {
        Ok(UciEvent::Position { fen: None, moves })
    }

    /// `position fen <fen> [moves ...]`.
    pub fn cmd_fen(&mut self, fen: String, moves: Vec<String>) -> (r: Result<UciEvent, UciError>)
        ensures
            final(self).outbox@ == old(self).outbox@,
            r matches Ok(UciEvent::Position { fen: f, moves: ms }) && f == Some(fen) && ms@ == moves@,
    {
        Ok(UciEvent::Position { fen: Some(fen), moves })
    }

    /// `go`: a search with the limits that `params` set for `to_move`.
    pub fn cmd_go(&mut self, params: &UciGoParams, to_move: Color) -> (r: Result<UciEvent, UciError>)
        ensures
            final(self).outbox@ == old(self).outbox@,
            r matches Ok(UciEvent::Search { limits, ponder }) && limits == params.spec_limits(to_move)
                && ponder == params.ponder,
    {
        Ok(UciEvent::Search { limits: params.limits(to_move), ponder: params.ponder })
    }

    /// `stop`.
    pub fn cmd_stop(&mut self) -> (r: Result<UciEvent, UciError>)
        ensures
            final(self).outbox@ == old(self).outbox@,
            r matches Ok(UciEvent::Stop),
    {
        Ok(UciEvent::Stop)
    }

    /// `ponderhit`.
    pub fn cmd_ponderhit(&mut self) -> (r: Result<UciEvent, UciError>)
        ensures
            final(self).outbox@ == old(self).outbox@,
            r matches Ok(UciEvent::PonderHit),
    {
        Ok(UciEvent::PonderHit)
    }

    /// `start`.
    pub fn cmd_start(&mut self) -> (r: Result<UciEvent, UciError>)
        ensures
            final(self).outbox@ == old(self).outbox@,
            r matches Ok(UciEvent::Start),
    {
        Ok(UciEvent::Start)
    }
}

/// The first token of a command line, if any.
pub open spec fn head(tokens: Seq<String>) -> Seq<char> {
    if tokens.len() > 0 {
        tokens[0]@
    } else {
        Seq::empty()
    }
}

/// Copies of the tokens from `from` on.
fn tail_from(tokens: &Vec<String>, from: usize) -> (r: Vec<String>)
    ensures
        from <= tokens.len() ==> r.len() == tokens.len() - from,
        forall|k: int| 0 <= k < r.len() ==> #[trigger] r[k]@ == tokens[from + k]@,
{
    let mut r: Vec<String> = Vec::new();
    let mut i: usize = from;
    while i < tokens.len()
        invariant
            from <= i,
            i < tokens.len() ==> r.len() == i - from,
            from <= tokens.len() ==> i <= tokens.len() && r.len() == i - from,
            forall|k: int| 0 <= k < r.len() ==> #[trigger] r[k]@ == tokens[from + k]@,
        decreases tokens.len() - i,
    {
        r.push(tokens[i].clone());
        i = i + 1;
    }
    r
}

/// The token `t` is a decimal number with value `v`.
pub open spec fn number_token(t: Seq<char>, v: u64) -> bool {
    let b = encode_utf8(t);
    b.len() > 0 && all_digits(b) && v == digits_value(b)
}

/// The keyword `key` stands after the word `go` and is followed by the number `v`.
pub open spec fn go_field(tokens: Seq<String>, key: Seq<char>, v: u64) -> bool {
    exists|i: int| 1 <= i && i + 1 < tokens.len() && tokens[i]@ == key && number_token(#[trigger] tokens[i + 1]@, v)
}

/// What `go` parameters `p` take from the tokens: a flag only where its word
/// stands, a number only where its keyword stands before that number.
pub open spec fn go_parsed(tokens: Seq<String>, p: UciGoParams) -> bool {
    &&& p.infinite ==> exists|i: int| 1 <= i < tokens.len() && tokens[i]@ == "infinite"@
    &&& p.ponder ==> exists|i: int| 1 <= i < tokens.len() && tokens[i]@ == "ponder"@
    &&& p.wtime matches Some(v) ==> go_field(tokens, "wtime"@, v)
    &&& p.btime matches Some(v) ==> go_field(tokens, "btime"@, v)
    &&& p.winc matches Some(v) ==> go_field(tokens, "winc"@, v)
    &&& p.binc matches Some(v) ==> go_field(tokens, "binc"@, v)
    &&& p.movestogo matches Some(v) ==> go_field(tokens, "movestogo"@, v)
    &&& p.depth matches Some(v) ==> go_field(tokens, "depth"@, v)
    &&& p.nodes matches Some(v) ==> go_field(tokens, "nodes"@, v)
    &&& p.movetime matches Some(v) ==> go_field(tokens, "movetime"@, v)
}

/// A keyword of `go` that takes a number.
pub open spec fn is_number_key(t: Seq<char>) -> bool {
    t == "wtime"@
        || t == "btime"@
        || t == "winc"@
        || t == "binc"@
        || t == "movestogo"@
        || t == "depth"@
        || t == "nodes"@
        || t == "movetime"@
}

/// The number that follows a keyword at `i`.
fn value_after(tokens: &Vec<String>, i: usize) -> (r: Result<u64, UciError>)
    ensures
        i + 1 >= tokens.len() ==> r matches Err(UciError::MissingValue),
        r matches Ok(v) ==> i + 1 < tokens.len() && number_token(tokens[i + 1]@, v),
{
    if i >= tokens.len() || tokens.len() - i < 2 {
        return Err(UciError::MissingValue);
    }
    match parse_u64(tokens[i + 1].as_str()) {
        Some(v) => Ok(v),
        None => Err(UciError::BadNumber),
    }
}

/// Parses the parameters of `go` from the tokens after the word `go`.
pub fn parse_go(tokens: &Vec<String>) -> (r: Result<UciGoParams, UciError>)
    ensures
        r matches Ok(p) ==> go_parsed(tokens@, p),
        (forall|i: int| 1 <= i < tokens.len() ==> !is_number_key(#[trigger] tokens[i]@)) ==> r is Ok,
{
    proof {
        reveal_strlit("infinite");
        reveal_strlit("ponder");
    }
    let mut p = UciGoParams::new();
    let mut i: usize = 1;
    while i < tokens.len()
        invariant
            1 <= i,
            p.infinite ==> exists|k: int| 1 <= k < tokens.len() && tokens[k]@ == "infinite"@,
            p.ponder ==> exists|k: int| 1 <= k < tokens.len() && tokens[k]@ == "ponder"@,
            p.wtime matches Some(v) ==> go_field(tokens@, "wtime"@, v),
            p.btime matches Some(v) ==> go_field(tokens@, "btime"@, v),
            p.winc matches Some(v) ==> go_field(tokens@, "winc"@, v),
            p.binc matches Some(v) ==> go_field(tokens@, "binc"@, v),
            p.movestogo matches Some(v) ==> go_field(tokens@, "movestogo"@, v),
            p.depth matches Some(v) ==> go_field(tokens@, "depth"@, v),
            p.nodes matches Some(v) ==> go_field(tokens@, "nodes"@, v),
            p.movetime matches Some(v) ==> go_field(tokens@, "movetime"@, v),
        decreases tokens.len() - i,
    {
        let t = &tokens[i];
        if is_word(t, "infinite") {
            p.infinite = true;
            i = i + 1;
        } else if is_word(t, "ponder") {
            p.ponder = true;
            i = i + 1;
        } else if is_word(t, "searchmoves") {
            p.searchmoves = tail_from(tokens, i + 1);
            i = tokens.len();
        } else if is_word(t, "wtime") || is_word(t, "btime") || is_word(t, "winc") || is_word(t, "binc")
            || is_word(t, "movestogo") || is_word(t, "depth") || is_word(t, "nodes") || is_word(
            t,
            "movetime",
        ) {
            let v = match value_after(tokens, i) {
                Ok(v) => v,
                Err(e) => {
                    assert(is_number_key(tokens[i as int]@));
                    return Err(e);
                },
            };
            if is_word(t, "wtime") {
                p.wtime = Some(v);
            } else if is_word(t, "btime") {
                p.btime = Some(v);
            } else if is_word(t, "winc") {
                p.winc = Some(v);
            } else if is_word(t, "binc") {
                p.binc = Some(v);
            } else if is_word(t, "movestogo") {
                p.movestogo = Some(v);
            } else if is_word(t, "depth") {
                p.depth = Some(v);
            } else if is_word(t, "nodes") {
                p.nodes = Some(v);
            } else {
                p.movetime = Some(v);
            }
            i = i + 2;
        } else {
            i = i + 1;
        }
    }
    Ok(p)
}

impl UciLoop {
    /// Carries out one command line, split into tokens, for a position where
    /// `to_move` plays.
    pub fn dispatch_cmd(&mut self, tokens: &Vec<String>, to_move: Color) -> (r: Result<UciEvent, UciError>)
        ensures
            tokens.len() == 0 ==> r matches Err(UciError::UnknownCommand),
            head(tokens@) == "isready"@ ==> (r matches Ok(UciEvent::Nothing) && final(self).sent()
                == old(self).sent().push("readyok"@)),
            head(tokens@) == "uci"@ ==> (r matches Ok(UciEvent::Nothing) && final(self).sent()
                == old(self).sent().push(id_name()).push(id_author()).push("uciok"@)),
            head(tokens@) == "ucinewgame"@ ==> r matches Ok(UciEvent::NewGame),
            head(tokens@) == "stop"@ ==> r matches Ok(UciEvent::Stop),
            head(tokens@) == "ponderhit"@ ==> r matches Ok(UciEvent::PonderHit),
            head(tokens@) == "start"@ ==> r matches Ok(UciEvent::Start),
            head(tokens@) == "quit"@ ==> r matches Ok(UciEvent::Quit),
            head(tokens@) == "go"@ ==> (r matches Ok(UciEvent::Search { .. }) || r is Err),
            head(tokens@) == "go"@ ==> (r matches Ok(UciEvent::Search { limits, ponder }) ==> exists|p: UciGoParams|
                go_parsed(tokens@, p) && limits == p.spec_limits(to_move) && ponder == p.ponder),
            head(tokens@) == "go"@ && (forall|i: int| 1 <= i < tokens.len() ==> !is_number_key(#[trigger] tokens[i]@))
                ==> r matches Ok(UciEvent::Search { .. }),
            head(tokens@) == "position"@ && tokens.len() < 2 ==> r matches Err(UciError::MissingValue),
            head(tokens@) == "position"@ && tokens.len() >= 2 && tokens[1]@ == "startpos"@ ==> (r matches Ok(
                UciEvent::Position { fen, .. },
            ) && fen is None),
            head(tokens@) == "position"@ && tokens.len() >= 2 && tokens[1]@ == "fen"@ ==> (r matches Ok(
                UciEvent::Position { fen, .. },
            ) && fen is Some),
            head(tokens@) == "setoption"@ ==> r matches Err(UciError::UnknownOption),
    {
        proof {
            reveal_strlit("isready");
            reveal_strlit("uci");
            reveal_strlit("ucinewgame");
            reveal_strlit("stop");
            reveal_strlit("ponderhit");
            reveal_strlit("start");
            reveal_strlit("quit");
            reveal_strlit("go");
            reveal_strlit("setoption");
            reveal_strlit("position");
            reveal_strlit("startpos");
            reveal_strlit("fen");
            assert("isready"@.len() == 7);
            assert("ucinewgame"@.len() == 10);
            assert("uci"@.len() == 3);
            assert("stop"@.len() == 4);
            assert("ponderhit"@.len() == 9);
            assert("start"@.len() == 5);
            assert("quit"@.len() == 4);
            assert("go"@.len() == 2);
            assert("setoption"@.len() == 9);
            assert("position"@.len() == 8);
            assert("stop"@[0] == 's' && "quit"@[0] == 'q');
            assert("ponderhit"@[0] == 'p' && "setoption"@[0] == 's');
        }
        if tokens.len() == 0 {
            return Err(UciError::UnknownCommand);
        }
        let cmd = &tokens[0];
        if is_word(cmd, "uci") {
            self.cmd_uci()
        } else if is_word(cmd, "isready") {
            self.cmd_isready()
        } else if is_word(cmd, "ucinewgame") {
            self.cmd_ucinewgame()
        } else if is_word(cmd, "stop") {
            self.cmd_stop()
        } else if is_word(cmd, "ponderhit") {
            self.cmd_ponderhit()
        } else if is_word(cmd, "start") {
            self.cmd_start()
        } else if is_word(cmd, "quit") {
            Ok(UciEvent::Quit)
        } else if is_word(cmd, "setoption") {
            self.cmd_setoption("", "")
        } else if is_word(cmd, "go") {
            match parse_go(tokens) {
                Ok(p) => self.cmd_go(&p, to_move),
                Err(e) => Err(e),
            }
        } else if is_word(cmd, "position") {
            self.parse_position(tokens)
        } else {
            Err(UciError::UnknownCommand)
        }
    }

    /// `position startpos [moves ...]` or `position fen <fields> [moves ...]`.
    fn parse_position(&mut self, tokens: &Vec<String>) -> (r: Result<UciEvent, UciError>)
        ensures
            final(self).outbox@ == old(self).outbox@,
            tokens.len() < 2 ==> r matches Err(UciError::MissingValue),
            tokens.len() >= 2 && tokens[1]@ == "startpos"@ ==> (r matches Ok(UciEvent::Position { fen, .. })
                && fen is None),
            tokens.len() >= 2 && tokens[1]@ == "fen"@ ==> (r matches Ok(UciEvent::Position { fen, .. })
                && fen is Some),
    {
        proof {
            reveal_strlit("startpos");
            reveal_strlit("fen");
            assert("startpos"@.len() == 8 && "fen"@.len() == 3);
        }
        if tokens.len() < 2 {
            return Err(UciError::MissingValue);
        }
        let mut i: usize = 2;
        let mut fen: Option<String> = None;
        if is_word(&tokens[1], "fen") {
            let mut f = String::new();
            while i < tokens.len() && !is_word(&tokens[i], "moves")
                invariant
                    2 <= i,
                decreases tokens.len() - i,
            {
                if i > 2 {
                    f.append(" ");
                }
                f.append(tokens[i].as_str());
                i = i + 1;
            }
            fen = Some(f);
        } else if !is_word(&tokens[1], "startpos") {
            return Err(UciError::UnknownCommand);
        }
        let moves = if i < tokens.len() && is_word(&tokens[i], "moves") {
            tail_from(tokens, i + 1)
        } else {
            Vec::new()
        };
        match fen {
            Some(f) => self.cmd_fen(f, moves),
            None => self.cmd_position(moves),
        }
    }
}

} // verus!
