use vstd::prelude::*;
use crate::board::{Board, Color, Position, make_position, kind_of, capture_flag, opt_weight, captured_piece_of, promotion_weight};
use crate::fen::{Outcome, words, texts_view, chars_of, split_words, fen_outcome, fen_text_would_panic, starting_position, lemma_starting_fen};
use crate::notation::move_of_text;
use crate::mv::Move;
use crate::search::{Search, SearchLimits, RootReport};
use crate::tables::Tables;

verus! {

// ---------------------------------------------------------------------------
// Reading numbers.
// ---------------------------------------------------------------------------

pub open spec fn is_digit(c: char) -> bool {
    0x30 <= (c as u32) <= 0x39
}

/// Value of a string of decimal digits.
pub open spec fn digits_value(s: Seq<char>) -> nat
    decreases s.len(),
{
    if s.len() == 0 {
        0
    } else {
        digits_value(s.drop_last()) * 10 + ((s.last() as u32) - 0x30) as nat
    }
}

/// An unsigned number as `str::parse` reads it: an optional `+`, then one or
/// more decimal digits, no more than `max`.
pub open spec fn parse_uint(s: Seq<char>, max: nat) -> Option<nat> {
    let d = unsigned_digits(s);
    if d.len() > 0 && (forall|i: int| 0 <= i < d.len() ==> is_digit(#[trigger] d[i])) && digits_value(d) <= max {
        Some(digits_value(d))
    } else {
        None
    }
}

/// The digits that `parse_uint` reads: the text without a leading `+`.
pub open spec fn unsigned_digits(s: Seq<char>) -> Seq<char> {
    if s.len() > 0 && s[0] == '+' { s.drop_first() } else { s }
}

proof fn lemma_parse_uint_none(s: Seq<char>, max: nat, k: int)
    requires
        ({
            let d = unsigned_digits(s);
            ||| d.len() == 0
            ||| (0 <= k < d.len() && !is_digit(d[k]))
            ||| ((forall|i: int| 0 <= i < d.len() ==> is_digit(#[trigger] d[i])) && digits_value(d) > max)
        }),
    ensures
        parse_uint(s, max) is None,
{
    let d = unsigned_digits(s);
    if 0 <= k < d.len() && !is_digit(d[k]) {
        assert(!(forall|i: int| 0 <= i < d.len() ==> is_digit(#[trigger] d[i])));
    }
}

proof fn lemma_digits_grow(d: Seq<char>, i: int, j: int)
    requires
        0 <= i <= j <= d.len(),
        forall|k: int| 0 <= k < d.len() ==> is_digit(#[trigger] d[k]),
    ensures
        digits_value(d.take(i)) <= digits_value(d.take(j)),
    decreases j - i,
{
    if i < j {
        assert(d.take(j).drop_last() =~= d.take(j - 1));
        lemma_digits_grow(d, i, j - 1);
    }
}

/// Reads an unsigned number no greater than `max` (see `parse_uint`).
pub fn parse_number(s: &Vec<char>, max: u64) -> (r: Option<u64>)
    ensures
        match parse_uint(s@, max as nat) {
            Some(v) => r == Some(v as u64),
            None => r is None,
        },
{
    let start: usize = if s.len() > 0 && s[0] == '+' { 1 } else { 0 };
    let ghost d = unsigned_digits(s@);
    if start >= s.len() {
        proof {
            lemma_parse_uint_none(s@, max as nat, 0);
        }
        return None;
    }
    let mut value: u64 = 0;
    let mut i: usize = start;
    while i < s.len()
        invariant
            start <= i <= s.len(),
            start == s@.len() - d.len(),
            d == unsigned_digits(s@),
            d == s@.subrange(start as int, s@.len() as int),
            forall|k: int| 0 <= k < i - start ==> is_digit(#[trigger] d[k]),
            value == digits_value(d.take(i - start)),
            value <= max,
        decreases s.len() - i,
    {
        let c = s[i];
        let u = c as u32;
        proof {
            assert(d.take(i - start + 1).drop_last() =~= d.take(i - start));
            assert(d[i - start] == c);
        }
        if !(0x30 <= u && u <= 0x39) {
            proof {
                lemma_parse_uint_none(s@, max as nat, i - start);
            }
            return None;
        }
        let digit = (u - 0x30) as u64;
        let next = match value.checked_mul(10) {
            Some(v10) => v10.checked_add(digit),
            None => None,
        };
        let fits = match next {
            Some(v) => v <= max,
            None => false,
        };
        if !fits {
            proof {
                assert(digits_value(d.take(i - start + 1)) == value * 10 + digit);
                assert(value * 10 + digit > max);
                if forall|k: int| 0 <= k < d.len() ==> is_digit(#[trigger] d[k]) {
                    lemma_digits_grow(d, i - start + 1, d.len() as int);
                    assert(d.take(d.len() as int) =~= d);
                    assert(digits_value(d) > max);
                    lemma_parse_uint_none(s@, max as nat, 0);
                } else {
                    let k = choose|k: int| 0 <= k < d.len() && !is_digit(#[trigger] d[k]);
                    lemma_parse_uint_none(s@, max as nat, k);
                }
            }
            return None;
        }
        value = value * 10 + digit;
        i += 1;
    }
    assert(d.take(d.len() as int) =~= d);
    Some(value)
}

/// Whether a text is the characters of `lit`.
fn text_is(w: &Vec<char>, lit: &str) -> (r: bool)
    ensures
        r == (w@ == lit@),
{
    let l = chars_of(lit);
    if w.len() != l.len() {
        return false;
    }
    let mut i: usize = 0;
    while i < w.len()
        invariant
            w@.len() == l@.len(),
            l@ == lit@,
            i <= w.len(),
            forall|k: int| 0 <= k < i ==> w@[k] == l@[k],
        decreases w.len() - i,
    {
        if w[i] != l[i] {
            return false;
        }
        i += 1;
    }
    assert(w@ =~= l@);
    true
}

// ---------------------------------------------------------------------------
// The `go` command.
// ---------------------------------------------------------------------------

/// What a `go` command asks for.
pub struct SearchParams {
    pub wtime: Option<u64>,
    pub btime: Option<u64>,
    pub winc: Option<u64>,
    pub binc: Option<u64>,
    pub depth: Option<u8>,
    pub infinite: bool,
}

impl SearchParams {
    /// Nothing asked for.
    pub fn new() -> (p: SearchParams)
        ensures
            p == no_params(),
    {
        SearchParams { wtime: None, btime: None, winc: None, binc: None, depth: None, infinite: false }
    }
}

pub open spec fn no_params() -> SearchParams {
    SearchParams { wtime: None, btime: None, winc: None, binc: None, depth: None, infinite: false }
}

/// Reads the arguments of a `go` command: `wtime`, `btime`, `winc`, `binc`
/// and `depth` take the next word as a number, `infinite` stands alone,
/// other words are skipped. A keyword with no word after it makes the
/// reader panic.
pub open spec fn go_run(sp: SearchParams, args: Seq<Seq<char>>) -> Outcome<SearchParams>
    decreases args.len(),
{
    if args.len() == 0 {
        Outcome::Value(sp)
    } else {
        let a = args[0];
        if a == "wtime"@ {
            if args.len() < 2 { Outcome::Panic } else {
                match parse_uint(args[1], u64::MAX as nat) {
                    None => Outcome::Error("invalid wtime"),
                    Some(v) => go_run(SearchParams { wtime: Some(v as u64), ..sp }, args.subrange(2, args.len() as int)),
                }
            }
        } else if a == "btime"@ {
            if args.len() < 2 { Outcome::Panic } else {
                match parse_uint(args[1], u64::MAX as nat) {
                    None => Outcome::Error("invalid btime"),
                    Some(v) => go_run(SearchParams { btime: Some(v as u64), ..sp }, args.subrange(2, args.len() as int)),
                }
            }
        } else if a == "winc"@ {
            if args.len() < 2 { Outcome::Panic } else {
                match parse_uint(args[1], u64::MAX as nat) {
                    None => Outcome::Error("invalid winc"),
                    Some(v) => go_run(SearchParams { winc: Some(v as u64), ..sp }, args.subrange(2, args.len() as int)),
                }
            }
        } else if a == "binc"@ {
            if args.len() < 2 { Outcome::Panic } else {
                match parse_uint(args[1], u64::MAX as nat) {
                    None => Outcome::Error("invalid binc"),
                    Some(v) => go_run(SearchParams { binc: Some(v as u64), ..sp }, args.subrange(2, args.len() as int)),
                }
            }
        } else if a == "depth"@ {
            if args.len() < 2 { Outcome::Panic } else {
                match parse_uint(args[1], 255) {
                    None => Outcome::Error("invalid depth"),
                    Some(v) => go_run(SearchParams { depth: Some(v as u8), ..sp }, args.subrange(2, args.len() as int)),
                }
            }
        } else if a == "infinite"@ {
            go_run(SearchParams { infinite: true, ..sp }, args.drop_first())
        } else {
            go_run(sp, args.drop_first())
        }
    }
}

/// Time for one move in milliseconds: a twentieth of the side to move's
/// time plus half its increment, when either is given; no limit
/// (`u64::MAX`) for `infinite`.
pub open spec fn move_time_of(sp: SearchParams, c: Color) -> Option<u64> {
    let w = if c == Color::White && (sp.wtime is Some || sp.winc is Some) {
        Some((sp.wtime.unwrap_or(0) / 20 + sp.winc.unwrap_or(0) / 2) as u64)
    } else {
        None
    };
    let b = if c == Color::Black && (sp.btime is Some || sp.binc is Some) {
        Some((sp.btime.unwrap_or(0) / 20 + sp.binc.unwrap_or(0) / 2) as u64)
    } else {
        w
    };
    if sp.infinite {
        Some(u64::MAX)
    } else {
        b
    }
}

/// The time a side gets depends only on its own clock and increment:
/// without `infinite`, white's time does not change with black's clock or
/// increment (nor with the depth), and black's not with white's; more time
/// on the clock or a larger increment never gives less; a side with
/// neither gets no limit, and `infinite` gives the longest time.
pub proof fn lemma_move_time_own_clock(sp: SearchParams, other: SearchParams)
    ensures
        !sp.infinite && !other.infinite && sp.wtime == other.wtime && sp.winc == other.winc
            ==> move_time_of(sp, Color::White) == move_time_of(other, Color::White),
        !sp.infinite && !other.infinite && sp.btime == other.btime && sp.binc == other.binc
            ==> move_time_of(sp, Color::Black) == move_time_of(other, Color::Black),
        !sp.infinite && !other.infinite && sp.wtime.unwrap_or(0) <= other.wtime.unwrap_or(0) && sp.winc.unwrap_or(0)
            <= other.winc.unwrap_or(0) && move_time_of(sp, Color::White) is Some && move_time_of(other, Color::White) is Some
            ==> move_time_of(sp, Color::White)->0 <= move_time_of(other, Color::White)->0,
        !sp.infinite && !other.infinite && sp.btime.unwrap_or(0) <= other.btime.unwrap_or(0) && sp.binc.unwrap_or(0)
            <= other.binc.unwrap_or(0) && move_time_of(sp, Color::Black) is Some && move_time_of(other, Color::Black) is Some
            ==> move_time_of(sp, Color::Black)->0 <= move_time_of(other, Color::Black)->0,
        !sp.infinite && sp.wtime is None && sp.winc is None ==> move_time_of(sp, Color::White) is None,
        !sp.infinite && sp.btime is None && sp.binc is None ==> move_time_of(sp, Color::Black) is None,
        !sp.infinite && sp.wtime == Some(20000u64) && sp.winc is None ==> move_time_of(sp, Color::White) == Some(1000u64),
        sp.infinite ==> move_time_of(sp, Color::White) == Some(u64::MAX) && move_time_of(sp, Color::Black) == Some(u64::MAX),
{
    let a = sp.wtime.unwrap_or(0);
    let b = other.wtime.unwrap_or(0);
    let x = sp.winc.unwrap_or(0);
    let y = other.winc.unwrap_or(0);
    assert(a <= b ==> a / 20 <= b / 20) by (nonlinear_arith);
    assert(x <= y ==> x / 2 <= y / 2) by (nonlinear_arith);
    let a2 = sp.btime.unwrap_or(0);
    let b2 = other.btime.unwrap_or(0);
    let x2 = sp.binc.unwrap_or(0);
    let y2 = other.binc.unwrap_or(0);
    assert(a2 <= b2 ==> a2 / 20 <= b2 / 20) by (nonlinear_arith);
    assert(x2 <= y2 ==> x2 / 2 <= y2 / 2) by (nonlinear_arith);
}

/// The reading of a number argument, or why it failed.
enum Arg<T> {
    Value(T),
    Error(&'static str),
    Missing,
}

fn number_arg(args: &Vec<Vec<char>>, i: usize, max: u64, message: &'static str) -> (r: Arg<u64>)
    requires
        i < args@.len(),
    ensures
        i + 1 >= args@.len() ==> r is Missing,
        i + 1 < args@.len() ==> match parse_uint(args@[i + 1]@, max as nat) {
            Some(v) => r == Arg::Value(v as u64),
            None => r == Arg::<u64>::Error(message),
        },
{
    if i >= args.len() - 1 {
        return Arg::Missing;
    }
    match parse_number(&args[i + 1], max) {
        Some(v) => Arg::Value(v),
        None => Arg::Error(message),
    }
}

/// Reads the arguments of a `go` command from word `start` on (see
/// `go_run`).
fn read_go(args: &Vec<Vec<char>>, start: usize) -> (r: Arg<SearchParams>)
    requires
        start <= args@.len(),
    ensures
        match go_run(no_params(), texts_view(args@).subrange(start as int, args@.len() as int)) {
            Outcome::Value(sp) => r == Arg::Value(sp),
            Outcome::Error(m) => r == Arg::<SearchParams>::Error(m),
            Outcome::Panic => r is Missing,
        },
{
    let ghost all = texts_view(args@);
    let mut sp = SearchParams::new();
    let mut i = start;
    while i < args.len()
        invariant
            start <= i <= args@.len(),
            all == texts_view(args@),
            go_run(no_params(), all.subrange(start as int, args@.len() as int)) == go_run(sp, all.subrange(i as int, args@.len() as int)),
        decreases args.len() - i,
    {
        let ghost rest = all.subrange(i as int, args@.len() as int);
        proof {
            assert(rest[0] == args@[i as int]@);
            assert(rest.drop_first() =~= all.subrange(i + 1, args@.len() as int));
            if i + 1 < args@.len() {
                assert(rest[1] == args@[i + 1]@);
                assert(rest.subrange(2, rest.len() as int) =~= all.subrange(i + 2, args@.len() as int));
            }
        }
        let a = &args[i];
        if text_is(a, "wtime") {
            match number_arg(args, i, u64::MAX, "invalid wtime") {
                Arg::Value(v) => {
                    sp.wtime = Some(v);
                    i += 2;
                },
                Arg::Error(m) => return Arg::Error(m),
                Arg::Missing => return Arg::Missing,
            }
        } else if text_is(a, "btime") {
            match number_arg(args, i, u64::MAX, "invalid btime") {
                Arg::Value(v) => {
                    sp.btime = Some(v);
                    i += 2;
                },
                Arg::Error(m) => return Arg::Error(m),
                Arg::Missing => return Arg::Missing,
            }
        } else if text_is(a, "winc") {
            match number_arg(args, i, u64::MAX, "invalid winc") {
                Arg::Value(v) => {
                    sp.winc = Some(v);
                    i += 2;
                },
                Arg::Error(m) => return Arg::Error(m),
                Arg::Missing => return Arg::Missing,
            }
        } else if text_is(a, "binc") {
            match number_arg(args, i, u64::MAX, "invalid binc") {
                Arg::Value(v) => {
                    sp.binc = Some(v);
                    i += 2;
                },
                Arg::Error(m) => return Arg::Error(m),
                Arg::Missing => return Arg::Missing,
            }
        } else if text_is(a, "depth") {
            match number_arg(args, i, 255, "invalid depth") {
                Arg::Value(v) => {
                    sp.depth = Some(v as u8);
                    i += 2;
                },
                Arg::Error(m) => return Arg::Error(m),
                Arg::Missing => return Arg::Missing,
            }
        } else if text_is(a, "infinite") {
            sp.infinite = true;
            i += 1;
        } else {
            i += 1;
        }
    }
    proof {
        assert(all.subrange(i as int, args@.len() as int).len() == 0);
    }
    Arg::Value(sp)
}

/// The move time of a `go` command (see `move_time_of`).
fn move_time(sp: &SearchParams, c: Color) -> (r: Option<u64>)
    ensures
        r == move_time_of(*sp, c),
{
    let mut move_time: Option<u64> = None;
    if c == Color::White && (sp.wtime.is_some() || sp.winc.is_some()) {
        let time = match sp.wtime { Some(t) => t, None => 0 };
        let inc = match sp.winc { Some(t) => t, None => 0 };
        move_time = Some(time / 20 + inc / 2);
    }
    if c == Color::Black && (sp.btime.is_some() || sp.binc.is_some()) {
        let time = match sp.btime { Some(t) => t, None => 0 };
        let inc = match sp.binc { Some(t) => t, None => 0 };
        move_time = Some(time / 20 + inc / 2);
    }
    if sp.infinite {
        move_time = Some(u64::MAX);
    }
    move_time
}

// ---------------------------------------------------------------------------
// The `position` command.
// ---------------------------------------------------------------------------

/// Words joined by single spaces.
pub open spec fn join_words(ws: Seq<Seq<char>>) -> Seq<char>
    decreases ws.len(),
{
    if ws.len() == 0 {
        seq![]
    } else if ws.len() == 1 {
        ws[0]
    } else {
        join_words(ws.drop_last()) + seq![' '] + ws.last()
    }
}

/// What a `position` command leads to.
pub enum PositionReply {
    /// The position set, with the number of moves made since the last one
    /// read from a FEN text.
    Placed(Position, nat),
    FenError(&'static str),
    IncompleteFen,
    InvalidMove(Seq<char>),
    /// The engine would panic.
    Abort,
}

/// A move can be made on the position without a counter overflowing: the
/// move count, the half move clock and the game phase.
pub open spec fn make_ok(p: Position, ply: nat, mv: crate::mv::Move) -> bool {
    &&& ply < usize::MAX
    &&& !(kind_of(p.mailbox[mv.from_sq() as int]->0) == 0 || capture_flag(mv.flag_bits())) ==> p.half_move_clock < 255
    &&& crate::board::mailbox_phase(p.mailbox) - opt_weight(captured_piece_of(p, mv)) + promotion_weight(mv, p.active_color) <= 255
}

/// Plays moves given in coordinate notation, stopping at the first one that
/// does not name a move of its position.
pub open spec fn moves_run(p: Position, ply: nat, texts: Seq<Seq<char>>) -> PositionReply
    decreases texts.len(),
{
    if texts.len() == 0 {
        PositionReply::Placed(p, ply)
    } else {
        match move_of_text(p, texts[0]) {
            None => PositionReply::InvalidMove(texts[0]),
            Some(mv) => if make_ok(p, ply, mv) {
                moves_run(make_position(p, mv), ply + 1, texts.drop_first())
            } else {
                PositionReply::Abort
            },
        }
    }
}

/// Whether the arguments of a `position` command set a position, with
/// `startpos` or `fen`, before any `moves`.
pub open spec fn position_sets_board(args: Seq<Seq<char>>) -> bool
    decreases args.len(),
{
    if args.len() == 0 {
        false
    } else if args[0] == "startpos"@ || args[0] == "fen"@ {
        true
    } else if args[0] == "moves"@ {
        false
    } else {
        position_sets_board(args.drop_first())
    }
}

/// Reads the arguments of a `position` command: `startpos` sets the starting
/// position, `fen` the position of the six words after it, `moves` plays
/// the remaining words; other words are skipped.
pub open spec fn position_run(p: Position, ply: nat, args: Seq<Seq<char>>) -> PositionReply
    decreases args.len(),
{
    if args.len() == 0 {
        PositionReply::Placed(p, ply)
    } else if args[0] == "startpos"@ {
        position_run(starting_position(), 0, args.drop_first())
    } else if args[0] == "fen"@ {
        if args.len() < 7 {
            PositionReply::IncompleteFen
        } else {
            match fen_outcome(join_words(args.subrange(1, 7))) {
                Outcome::Value(q) => position_run(q, 0, args.subrange(7, args.len() as int)),
                Outcome::Error(m) => PositionReply::FenError(m),
                Outcome::Panic => PositionReply::Abort,
            }
        }
    } else if args[0] == "moves"@ {
        moves_run(p, ply, args.drop_first())
    } else {
        position_run(p, ply, args.drop_first())
    }
}

/// The six words after word `i`, joined by spaces.
fn join_fen(args: &Vec<Vec<char>>, i: usize) -> (r: Vec<char>)
    requires
        i + 7 <= args@.len(),
    ensures
        r@ == join_words(texts_view(args@).subrange(i + 1, i + 7)),
{
    let ghost all = texts_view(args@);
    let mut r: Vec<char> = Vec::new();
    let mut k: usize = 1;
    let n = args.len();
    while k <= 6
        invariant
            1 <= k <= 7,
            n == args@.len(),
            i + 7 <= n,
            all == texts_view(args@),
            r@ == join_words(all.subrange(i + 1, i + k)),
        decreases 7 - k,
    {
        let ghost r0 = r@;
        if k > 1 {
            r.push(' ');
        }
        let w = &args[i + k];
        let mut j: usize = 0;
        let ghost r1 = r@;
        while j < w.len()
            invariant
                j <= w@.len(),
                r@ == r1 + w@.take(j as int),
            decreases w.len() - j,
        {
            r.push(w[j]);
            j += 1;
            assert(r@ =~= r1 + w@.take(j as int));
        }
        proof {
            assert(w@.take(w@.len() as int) =~= w@);
            let ws = all.subrange(i + 1, i + k + 1);
            assert(ws.drop_last() =~= all.subrange(i + 1, i + k));
            assert(ws.last() == w@);
            if k == 1 {
                assert(r@ =~= ws[0]);
            } else {
                assert(r@ =~= join_words(ws.drop_last()) + seq![' '] + ws.last());
            }
        }
        k += 1;
    }
    r
}

/// A copy of a text.
fn copy_text(w: &Vec<char>) -> (r: Vec<char>)
    ensures
        r@ == w@,
{
    let mut r: Vec<char> = Vec::new();
    let mut i: usize = 0;
    while i < w.len()
        invariant
            i <= w@.len(),
            r@ == w@.take(i as int),
        decreases w.len() - i,
    {
        r.push(w[i]);
        i += 1;
        assert(r@ =~= w@.take(i as int));
    }
    assert(w@.take(w@.len() as int) =~= w@);
    r
}

/// The words of a text.
fn command_words(command: &str) -> (r: Vec<Vec<char>>)
    ensures
        texts_view(r@) == words(command@),
{
    let text = chars_of(command);
    split_words(&text)
}

// ---------------------------------------------------------------------------
// The engine's command loop.
// ---------------------------------------------------------------------------

/// What the engine does after a command: which lines to print, whether to
/// search or to stop.
pub enum UciReply {
    /// Print the engine's name and author, then `uciok`.
    Identify,
    /// Print `readyok`.
    Ready,
    /// Nothing to print.
    Done,
    /// Print the board.
    PrintBoard,
    /// Leave the program.
    Quit,
    /// Search the board within these limits.
    Go(SearchLimits),
    /// Print that the FEN text was refused, with the message.
    FenError(&'static str),
    /// Print that the FEN text has fewer than six words.
    IncompleteFen,
    /// Print that this move text names no move.
    InvalidMove(Vec<char>),
    /// Print this message about a number argument.
    InvalidValue(&'static str),
    /// The engine would panic on this command.
    Abort,
}

/// A UCI engine: a board and a search.
pub struct Uci {
    board: Board,
    search: Search,
}

impl Uci {
    pub closed spec fn board(&self) -> Board {
        self.board
    }

    pub closed spec fn search(&self) -> Search {
        self.search
    }

    pub open spec fn wf(&self) -> bool {
        self.board().wf()
    }

    /// An engine with an empty board and a fresh search.
    pub fn new() -> (u: Uci)
        ensures
            u.wf(),
            u.board().is_empty_board(),
            u.search().is_fresh(),
    {
        Uci { board: Board::new(), search: Search::new() }
    }

    /// The engine's board.
    pub fn current_board(&self) -> (b: &Board)
        ensures
            *b == self.board(),
    {
        &self.board
    }

    /// Handles a `position` command whose arguments start at word `start`
    /// (see `position_run`); after a refused FEN text the board is empty.
    fn handle_position(&mut self, tables: &Tables, args: &Vec<Vec<char>>, start: usize) -> (r: UciReply)
        requires
            tables.wf(),
            old(self).wf(),
            start <= args@.len(),
        ensures
            final(self).wf(),
            final(self).search() == old(self).search(),
            match position_run(old(self).board()@, old(self).board().history_ply as nat, texts_view(args@).subrange(start as int, args@.len() as int)) {
                PositionReply::Placed(p, ply) => r is Done && final(self).board()@ == p && final(self).board().history_ply == ply
                    && (old(self).board().hash_ok(tables.zobrist) || position_sets_board(texts_view(args@).subrange(start as int, args@.len() as int))
                        ==> final(self).board().hash_ok(tables.zobrist)),
                PositionReply::FenError(m) => r == UciReply::FenError(m) && final(self).board().is_empty_board(),
                PositionReply::IncompleteFen => r is IncompleteFen,
                PositionReply::InvalidMove(t) => r matches UciReply::InvalidMove(v) && v@ == t,
                PositionReply::Abort => r is Abort,
            },
    {
        let ghost all = texts_view(args@);
        let ghost n = args@.len() as int;
        let ghost goal = position_run(self.board@, self.board.history_ply as nat, all.subrange(start as int, n));
        let mut i = start;
        while i < args.len()
            invariant
                tables.wf(),
                self.wf(),
                self.search == old(self).search,
                start <= i <= n,
                n == args@.len(),
                all == texts_view(args@),
                goal == position_run(old(self).board@, old(self).board.history_ply as nat, all.subrange(start as int, n)),
                goal == position_run(self.board@, self.board.history_ply as nat, all.subrange(i as int, n)),
                old(self).board().hash_ok(tables.zobrist) || position_sets_board(all.subrange(start as int, n))
                    ==> self.board.hash_ok(tables.zobrist) || position_sets_board(all.subrange(i as int, n)),
            decreases args.len() - i,
        {
            let ghost rest = all.subrange(i as int, n);
            proof {
                assert(rest[0] == args@[i as int]@);
                assert(rest.drop_first() =~= all.subrange(i + 1, n));
            }
            let a = &args[i];
            if text_is(a, "startpos") {
                let fen = "rnbqkbnr/pppppppp/8/8/8/8/PPPPPPPP/RNBQKBNR w KQkq - 0 1";
                proof {
                    lemma_starting_fen();
                }
                if let Err(e) = self.board.parse_fen(tables, fen) {
                    return UciReply::FenError(e);
                }
                i += 1;
            } else if text_is(a, "fen") {
                if args.len() - i - 1 < 6 {
                    return UciReply::IncompleteFen;
                }
                let text = join_fen(args, i);
                proof {
                    assert(rest.subrange(1, 7) =~= all.subrange(i + 1, i + 7));
                    assert(rest.subrange(7, rest.len() as int) =~= all.subrange(i + 7, n));
                }
                if fen_text_would_panic(&text) {
                    return UciReply::Abort;
                }
                if let Err(e) = self.board.parse_fen_text(tables, &text) {
                    self.board.reset();
                    return UciReply::FenError(e);
                }
                i += 7;
            } else if text_is(a, "moves") {
                let mut j = i + 1;
                while j < args.len()
                    invariant
                        tables.wf(),
                        self.wf(),
                        self.search == old(self).search,
                        i < j <= n,
                        n == args@.len(),
                        all == texts_view(args@),
                        goal == moves_run(self.board@, self.board.history_ply as nat, all.subrange(j as int, n)),
                        goal == position_run(old(self).board@, old(self).board.history_ply as nat, all.subrange(start as int, n)),
                        old(self).board().hash_ok(tables.zobrist) || position_sets_board(all.subrange(start as int, n))
                            ==> self.board.hash_ok(tables.zobrist),
                    decreases args.len() - j,
                {
                    let ghost texts = all.subrange(j as int, n);
                    proof {
                        assert(texts[0] == args@[j as int]@);
                        assert(texts.drop_first() =~= all.subrange(j + 1, n));
                    }
                    let mv = match self.board.str_to_move(&args[j]) {
                        Some(mv) => mv,
                        None => {
                            return UciReply::InvalidMove(copy_text(&args[j]));
                        },
                    };
                    if self.board.make_would_overflow(mv) {
                        return UciReply::Abort;
                    }
                    proof {
                        crate::board::lemma_phase_matches(self.board.pieces, self.board.mailbox@);
                    }
                    let _ = self.board.make_move(tables, mv, false);
                    j += 1;
                }
                proof {
                    assert(all.subrange(j as int, n).len() == 0);
                }
                return UciReply::Done;
            } else {
                i += 1;
            }
        }
        proof {
            assert(all.subrange(i as int, n).len() == 0);
        }
        UciReply::Done
    }

    /// Runs the search that a `go` command asked for on the engine's board
    /// (see `Search::root_search`); the board comes back as it was.
    pub fn go(&mut self, tables: &Tables, limits: SearchLimits) -> (r: RootReport)
        requires
            tables.wf(),
            old(self).wf(),
        ensures
            final(self).wf(),
            final(self).board()@ == old(self).board()@,
            final(self).board().history_ply == old(self).board().history_ply,
            r.lines@.len() <= match limits.max_depth { Some(d) => d as int, None => 20 },
            forall|k: int| #![trigger r.lines@[k]] 0 <= k < r.lines@.len() ==> {
                &&& r.lines@[k].depth == k + 1
                &&& r.lines@[k].pv@.len() > 0
            },
            r.best_move matches Some(m) ==> !final(self).search().fault && if r.lines@.len() == 0 {
                m.bits() == 0
            } else {
                m == r.lines@.last().pv@[0]
            },
            r.best_move is Some && !final(self).search().is_aborted ==> r.lines@.len() == match limits.max_depth { Some(d) => d as int, None => 20 },
            r.lines@.len() > 0 ==> (r.best_move matches Some(m) ==> crate::search::legal_on(&old(self).board(), m)),
            !old(self).search().is_aborted && crate::search::depth_limit(limits) <= 1 ==> !final(self).search().is_aborted,
            (forall|d: nat| 1 <= d <= crate::search::depth_limit(limits)
                ==> #[trigger] crate::search::search_safe(old(self).board()@, old(self).board().history_ply as nat, d))
                ==> !final(self).search().fault,
            !final(self).search().fault && !final(self).search().is_aborted && crate::search::legal_moves(&old(self).board()).len() > 0
                && (forall|d: nat| 1 <= d <= crate::search::depth_limit(limits) ==> #[trigger] crate::search::in_range(old(self).board()@, d))
                ==> r.best_move is Some && r.lines@.len() == crate::search::depth_limit(limits),
    {
        self.search.root_search(tables, &mut self.board, limits)
    }

    /// Handles one command line (see the reply of each command).
    pub fn handle_command(&mut self, tables: &Tables, command: &str) -> (r: UciReply)
        requires
            tables.wf(),
            old(self).wf(),
        ensures
            final(self).wf(),
            ({
                let w = words(command@);
                if w.len() == 1 && w[0] == "uci"@ {
                    r is Identify && *final(self) == *old(self)
                } else if w.len() == 1 && w[0] == "isready"@ {
                    r is Ready && *final(self) == *old(self)
                } else if w.len() >= 1 && w[0] == "position"@ {
                    final(self).search() == old(self).search() &&
                    match position_run(old(self).board()@, old(self).board().history_ply as nat, w.drop_first()) {
                        PositionReply::Placed(p, ply) => r is Done && final(self).board()@ == p && final(self).board().history_ply == ply
                            && (old(self).board().hash_ok(tables.zobrist) || position_sets_board(w.drop_first())
                                ==> final(self).board().hash_ok(tables.zobrist)),
                        PositionReply::FenError(m) => r == UciReply::FenError(m) && final(self).board().is_empty_board(),
                        PositionReply::IncompleteFen => r is IncompleteFen,
                        PositionReply::InvalidMove(t) => r matches UciReply::InvalidMove(v) && v@ == t,
                        PositionReply::Abort => r is Abort,
                    }
                } else if w.len() >= 1 && w[0] == "go"@ {
                    final(self).board() == old(self).board() &&
                    match go_run(no_params(), w.drop_first()) {
                        Outcome::Value(sp) => r == UciReply::Go(SearchLimits {
                            max_depth: sp.depth,
                            max_move_time: move_time_of(sp, old(self).board().active_color),
                        }) && final(self).search().is_fresh(),
                        Outcome::Error(m) => r == UciReply::InvalidValue(m) && *final(self) == *old(self),
                        Outcome::Panic => r is Abort && *final(self) == *old(self),
                    }
                } else if w.len() == 1 && w[0] == "print"@ {
                    r is PrintBoard && *final(self) == *old(self)
                } else if w.len() == 1 && w[0] == "quit"@ {
                    r is Quit && *final(self) == *old(self)
                } else {
                    r is Done && *final(self) == *old(self)
                }
            }),
    {
        let args = command_words(command);
        proof {
            let w = words(command@);
            assert(w.len() == args@.len());
            if args@.len() >= 1 {
                assert(w[0] == args@[0]@);
                assert(w.drop_first() =~= texts_view(args@).subrange(1, args@.len() as int));
            }
        }
        if args.len() == 1 && text_is(&args[0], "uci") {
            return UciReply::Identify;
        }
        if args.len() == 1 && text_is(&args[0], "isready") {
            return UciReply::Ready;
        }
        if args.len() >= 1 && text_is(&args[0], "position") {
            return self.handle_position(tables, &args, 1);
        }
        if args.len() >= 1 && text_is(&args[0], "go") {
            return match read_go(&args, 1) {
                Arg::Value(sp) => {
                    let limits = SearchLimits { max_depth: sp.depth, max_move_time: move_time(&sp, self.board.active_color) };
                    self.search.clear();
                    UciReply::Go(limits)
                },
                Arg::Error(m) => UciReply::InvalidValue(m),
                Arg::Missing => UciReply::Abort,
            };
        }
        if args.len() == 1 && text_is(&args[0], "print") {
            return UciReply::PrintBoard;
        }
        if args.len() == 1 && text_is(&args[0], "quit") {
            return UciReply::Quit;
        }
        UciReply::Done
    }
}


impl Default for SearchParams {
    /// Nothing asked for.
    fn default() -> (p: SearchParams)
        ensures
            p == no_params(),
    {
        SearchParams::new()
    }
}

impl Default for Uci {
    /// An engine with an empty board and a fresh search.
    fn default() -> (u: Uci)
        ensures
            u.wf(),
            u.board().is_empty_board(),
            u.search().is_fresh(),
    {
        Uci::new()
    }
}

} // verus!
