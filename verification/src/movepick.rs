use vstd::prelude::*;
use crate::board::{Board, Piece, piece_value, capture_flag};
use crate::movegen::{MoveGenerator, MoveList, MAX_MOVES, pseudo_legal_moves, has_king};
use crate::mv::Move;
use crate::search::Search;
use crate::tables::Tables;

verus! {

/// A move with its ordering score.
#[derive(Debug, Clone, Copy)]
pub struct MoveEntry {
    pub mv: Move,
    pub score: i32,
}

/// A fixed-capacity list of scored moves.
struct EntryList {
    entries: [MoveEntry; MAX_MOVES],
    count: usize,
}

impl View for EntryList {
    type V = Seq<MoveEntry>;

    closed spec fn view(&self) -> Seq<MoveEntry> {
        self.entries@.take(self.count as int)
    }
}

/// The list without entry `i`, whose place the last entry takes.
pub open spec fn swap_removed(es: Seq<MoveEntry>, i: int) -> Seq<MoveEntry> {
    es.update(i, es.last()).drop_last()
}

impl EntryList {
    closed spec fn wf(&self) -> bool {
        self.count <= MAX_MOVES
    }

    fn new() -> (l: EntryList)
        ensures
            l.wf(),
            l@ == Seq::<MoveEntry>::empty(),
    {
        let null = MoveEntry { mv: Move::null(), score: 0 };
        let l = EntryList { entries: [null; 256], count: 0 };
        assert(l@ =~= Seq::<MoveEntry>::empty());
        l
    }

    fn push(&mut self, entry: MoveEntry)
        requires
            old(self).wf(),
            old(self)@.len() < MAX_MOVES,
        ensures
            final(self).wf(),
            final(self)@ == old(self)@.push(entry),
    {
        let ghost before = self@;
        self.entries[self.count] = entry;
        self.count += 1;
        assert(self@ =~= before.push(entry));
    }

    /// Takes out entry `index`, putting the last entry in its place; `None`
    /// past the end.
    fn swap_remove(&mut self, index: usize) -> (r: Option<MoveEntry>)
        requires
            old(self).wf(),
        ensures
            final(self).wf(),
            index < old(self)@.len() ==> r == Some(old(self)@[index as int]) && final(self)@ == swap_removed(old(self)@, index as int),
            index >= old(self)@.len() ==> r is None && final(self)@ == old(self)@,
    {
        if index >= self.count {
            return None;
        }
        let ghost before = self@;
        let removed_entry = self.entries[index];
        self.entries[index] = self.entries[self.count - 1];
        self.count -= 1;
        assert(self@ =~= swap_removed(before, index as int));
        Some(removed_entry)
    }
}

/// Where a move picker stands: it first yields the hash move, then
/// generates and scores all moves, then yields them best first.
#[derive(Debug, PartialEq, Eq, Structural)]
pub enum ScoreStage {
    HashMove,
    GenerateAll,
    Yielding,
    Done,
}

/// Yields the moves of a position in search order.
pub struct MovePicker {
    entry_list: EntryList,
    tt_move: Move,
    stage: ScoreStage,
    overflowed: bool,
}

/// Ordering score of a capture: the victim's value times ten less the
/// attacker's value, above every quiet move.
pub open spec fn capture_score(b: Board, mv: Move) -> int {
    let victim = if mv.flag_bits() == 5 {
        100
    } else {
        match b.mailbox@[mv.to_sq() as int] {
            Some(p) => piece_value(p) as int,
            None => 0,
        }
    };
    let aggressor = match b.mailbox@[mv.from_sq() as int] {
        Some(p) => piece_value(p) as int,
        None => 0,
    };
    1000000 + victim * 10 - aggressor
}

/// Ordering score of a move: captures by `capture_score`, quiet moves 0.
pub open spec fn move_score(b: Board, mv: Move) -> int {
    if mv.bits() & 0x4000 != 0 {
        capture_score(b, mv)
    } else {
        0
    }
}

/// The scored moves of a list, in its order, without the hash move.
pub open spec fn scored(b: Board, tt: Move, moves: Seq<Move>) -> Seq<MoveEntry>
    decreases moves.len(),
{
    if moves.len() == 0 {
        seq![]
    } else {
        let rest = scored(b, tt, moves.drop_last());
        let mv = moves.last();
        if mv == tt {
            rest
        } else {
            rest.push(MoveEntry { mv, score: move_score(b, mv) as i32 })
        }
    }
}

/// Entry `i` has the highest score, and every entry before it a lower one.
pub open spec fn is_first_best(es: Seq<MoveEntry>, i: int) -> bool {
    &&& 0 <= i < es.len()
    &&& forall|j: int| 0 <= j < es.len() ==> #[trigger] es[j].score <= es[i].score
    &&& forall|j: int| 0 <= j < i ==> #[trigger] es[j].score < es[i].score
}

/// The first entry with the highest score.
pub open spec fn first_best(es: Seq<MoveEntry>) -> int {
    choose|i: int| is_first_best(es, i)
}

/// Only one entry is the first best.
pub proof fn lemma_first_best_unique(es: Seq<MoveEntry>, i: int)
    requires
        is_first_best(es, i),
    ensures
        first_best(es) == i,
{
    let k = first_best(es);
    assert(is_first_best(es, k));
    if k < i {
        assert(es[k].score < es[i].score);
        assert(es[i].score <= es[k].score);
    } else if i < k {
        assert(es[i].score < es[k].score);
        assert(es[k].score <= es[i].score);
    }
}

impl MovePicker {
    pub closed spec fn stage(&self) -> ScoreStage {
        self.stage
    }

    pub closed spec fn hash_move(&self) -> Move {
        self.tt_move
    }

    /// The scored moves still to yield.
    pub closed spec fn entries(&self) -> Seq<MoveEntry> {
        self.entry_list@
    }

    pub closed spec fn wf(&self) -> bool {
        self.entry_list.wf()
    }

    /// The moves of the position did not fit in a list.
    pub closed spec fn overflow(&self) -> bool {
        self.overflowed
    }

    /// How far the picker is from being done: it falls each time a move is
    /// yielded.
    pub closed spec fn remaining(&self) -> nat {
        match self.stage {
            ScoreStage::HashMove => 1000,
            ScoreStage::GenerateAll => 999,
            ScoreStage::Yielding => self.entry_list@.len(),
            ScoreStage::Done => 0,
        }
    }

    /// The moves that the picker still gives out on `b`, in order, when the
    /// moves of `b` fit in a list.
    pub open spec fn pending(&self, b: Board) -> Seq<Move> {
        match self.stage() {
            ScoreStage::HashMove => seq![self.hash_move()] + moves_of(picker_order(b, self.hash_move())),
            ScoreStage::GenerateAll => moves_of(picker_order(b, self.hash_move())),
            ScoreStage::Yielding => moves_of(yield_order(self.entries())),
            ScoreStage::Done => Seq::empty(),
        }
    }

    /// Whether the moves of the position did not fit in a list.
    pub fn overflowed(&self) -> (r: bool)
        ensures
            r == self.overflow(),
    {
        self.overflowed
    }

    /// A picker that yields `tt_move` first when it is not the null move.
    pub fn new(tt_move: Move) -> (p: MovePicker)
        ensures
            p.wf(),
            p.hash_move() == tt_move,
            p.entries() == Seq::<MoveEntry>::empty(),
            p.stage() == if tt_move.bits() != 0 { ScoreStage::HashMove } else { ScoreStage::GenerateAll },
            !p.overflow(),
    {
        MovePicker {
            entry_list: EntryList::new(),
            tt_move,
            stage: if tt_move.is_present() {
                ScoreStage::HashMove
            } else {
                ScoreStage::GenerateAll
            },
            overflowed: false,
        }
    }

    /// The next move: the hash move first, then the generated moves other
    /// than it, best score first; `None` when all are given, and when the
    /// moves do not fit in a list, which the picker then records.
    pub fn next(&mut self, search: &Search, tables: &Tables, board: &Board) -> (r: Option<Move>)
        requires
            old(self).wf(),
            old(self).stage() == ScoreStage::GenerateAll ==> {
                &&& tables.wf()
                &&& board.wf()
                &&& has_king(*board)
            },
            old(self).stage() == ScoreStage::GenerateAll ==> old(self).entries().len() == 0,
        ensures
            final(self).wf(),
            final(self).hash_move() == old(self).hash_move(),
            r is Some ==> final(self).remaining() < old(self).remaining(),
            final(self).overflow() == (old(self).overflow() || (old(self).stage() == ScoreStage::GenerateAll
                && pseudo_legal_moves(*board).len() > MAX_MOVES)),
            (old(self).stage() == ScoreStage::GenerateAll && pseudo_legal_moves(*board).len() > MAX_MOVES) ==> (r is None
                && final(self).stage() == ScoreStage::Done),
            !(old(self).stage() == ScoreStage::GenerateAll && pseudo_legal_moves(*board).len() > MAX_MOVES) ==> ({
                let es = if old(self).stage() == ScoreStage::GenerateAll {
                    scored(*board, old(self).hash_move(), pseudo_legal_moves(*board))
                } else {
                    old(self).entries()
                };
                match old(self).stage() {
                    ScoreStage::HashMove => r == Some(old(self).hash_move()) && final(self).stage() == ScoreStage::GenerateAll
                        && final(self).entries() == old(self).entries(),
                    ScoreStage::Done => r is None && final(self).stage() == ScoreStage::Done
                        && final(self).entries() == old(self).entries(),
                    _ => if es.len() == 0 {
                        r is None && final(self).stage() == ScoreStage::Done && final(self).entries() == es
                    } else {
                        r == Some(es[first_best(es)].mv) && final(self).stage() == ScoreStage::Yielding
                            && final(self).entries() == swapped_out(es)
                    },
                }
            }),
            !(old(self).stage() == ScoreStage::GenerateAll && pseudo_legal_moves(*board).len() > MAX_MOVES) ==> match r {
                Some(m) => old(self).pending(*board).len() > 0 && m == old(self).pending(*board)[0]
                    && final(self).pending(*board) == old(self).pending(*board).drop_first(),
                None => old(self).pending(*board).len() == 0 && final(self).pending(*board).len() == 0,
            },
    {
        proof {
            let st = self.stage();
            let es = if st == ScoreStage::GenerateAll {
                scored(*board, self.hash_move(), pseudo_legal_moves(*board))
            } else {
                self.entries()
            };
            lemma_pending_step(es);
            let rest = moves_of(picker_order(*board, self.hash_move()));
            assert((seq![self.hash_move()] + rest).drop_first() =~= rest);
        }
        if let ScoreStage::HashMove = self.stage {
            self.stage = ScoreStage::GenerateAll;
            return Some(self.tt_move);
        }
        if let ScoreStage::GenerateAll = self.stage {
            self.stage = ScoreStage::Yielding;
            match MoveGenerator::try_generate_pseudo_legal_moves(tables, board) {
                Some(move_list) => self.score_all(&move_list, board),
                None => {
                    self.overflowed = true;
                    self.stage = ScoreStage::Done;
                    return None;
                },
            }
        }
        if let ScoreStage::Yielding = self.stage {
            if self.entry_list.count == 0 {
                self.stage = ScoreStage::Done;
                return None;
            }
            let entry = self.pop_best_entry();
            return match entry {
                Some(e) => Some(e.mv),
                None => None,
            };
        }
        None
    }

    /// Scores every generated move but the hash move into the entry list.
    fn score_all(&mut self, move_list: &MoveList, board: &Board)
        requires
            old(self).wf(),
            old(self).entry_list@.len() == 0,
            move_list.wf(),
        ensures
            final(self).wf(),
            final(self).tt_move == old(self).tt_move,
            final(self).stage == old(self).stage,
            final(self).overflowed == old(self).overflowed,
            final(self).entry_list@ == scored(*board, old(self).tt_move, move_list@),
    {
        let mut i: usize = 0;
        while i < move_list.count
            invariant
                self.wf(),
                self.tt_move == old(self).tt_move,
                self.stage == old(self).stage,
                self.overflowed == old(self).overflowed,
                move_list.wf(),
                i <= move_list.count,
                self.entry_list@ == scored(*board, self.tt_move, move_list@.take(i as int)),
                self.entry_list@.len() <= i,
            decreases move_list.count - i,
        {
            let mv = move_list.moves[i];
            proof {
                assert(move_list@.take(i + 1).drop_last() =~= move_list@.take(i as int));
                assert(move_list@.take(i + 1).last() == mv);
            }
            if mv == self.tt_move {
                i += 1;
                continue;
            }
            let score = if mv.is_capture() {
                self.score_capture(mv, board)
            } else {
                self.score_quiet(mv, board)
            };
            self.entry_list.push(MoveEntry { mv, score });
            i += 1;
        }
        assert(move_list@.take(move_list.count as int) =~= move_list@);
    }

    /// Takes out the first entry with the highest score.
    fn pop_best_entry(&mut self) -> (r: Option<MoveEntry>)
        requires
            old(self).wf(),
        ensures
            final(self).wf(),
            final(self).tt_move == old(self).tt_move,
            final(self).stage == old(self).stage,
            final(self).overflowed == old(self).overflowed,
            old(self).entry_list@.len() > 0 ==> {
                &&& r == Some(old(self).entry_list@[first_best(old(self).entry_list@)])
                &&& final(self).entry_list@ == swapped_out(old(self).entry_list@)
                &&& final(self).entry_list@.len() == old(self).entry_list@.len() - 1
            },
            old(self).entry_list@.len() == 0 ==> r is None && final(self).entry_list@ == old(self).entry_list@,
    {
        let ghost es = self.entry_list@;
        if self.entry_list.count == 0 {
            return None;
        }
        let mut best_index: usize = 0;
        let mut best_score: i32 = i32::MIN;
        let mut i: usize = 0;
        while i < self.entry_list.count
            invariant
                self.entry_list@ == es,
                self.wf(),
                es.len() == self.entry_list.count,
                i <= es.len(),
                es.len() > 0,
                i == 0 ==> best_index == 0 && best_score == i32::MIN,
                i > 0 ==> {
                    &&& best_index < i
                    &&& best_score == es[best_index as int].score
                    &&& forall|j: int| 0 <= j < i ==> #[trigger] es[j].score <= best_score
                    &&& forall|j: int| 0 <= j < best_index ==> #[trigger] es[j].score < best_score
                },
            decreases self.entry_list.count - i,
        {
            let entry = self.entry_list.entries[i];
            assert(entry == es[i as int]);
            if entry.score > best_score {
                best_score = entry.score;
                best_index = i;
            }
            i += 1;
        }
        proof {
            assert(is_first_best(es, best_index as int));
            lemma_first_best_unique(es, best_index as int);
        }
        self.entry_list.swap_remove(best_index)
    }

    fn score_capture(&self, mv: Move, board: &Board) -> (r: i32)
        ensures
            r == capture_score(*board, mv),
    {
        let victim_value = if mv.is_en_passant() {
            100
        } else {
            match board.get_piece(mv.get_to()) {
                Some(p) => p.get_value(),
                None => 0,
            }
        };
        let aggressor_value = match board.get_piece(mv.get_from()) {
            Some(p) => p.get_value(),
            None => 0,
        };
        1000000 + victim_value * 10 - aggressor_value
    }

    fn score_quiet(&self, mv: Move, board: &Board) -> (r: i32)
        ensures
            r == 0,
    {
        0
    }
}

/// The entry list after taking out its first best entry.
pub open spec fn swapped_out(es: Seq<MoveEntry>) -> Seq<MoveEntry> {
    swap_removed(es, first_best(es))
}


/// A non-empty list has a first best entry.
pub proof fn lemma_first_best_exists(es: Seq<MoveEntry>)
    requires
        es.len() > 0,
    ensures
        is_first_best(es, first_best(es)),
    decreases es.len(),
{
    if es.len() == 1 {
        assert(is_first_best(es, 0));
    } else {
        let rest = es.drop_last();
        lemma_first_best_exists(rest);
        let i0 = first_best(rest);
        let n = es.len() - 1;
        if es[n].score > es[i0].score {
            assert forall|j: int| 0 <= j < es.len() implies #[trigger] es[j].score <= es[n].score by {
                if j < n {
                    assert(rest[j].score <= rest[i0].score);
                }
            }
            assert forall|j: int| 0 <= j < n implies #[trigger] es[j].score < es[n].score by {
                assert(rest[j].score <= rest[i0].score);
            }
            assert(is_first_best(es, n));
        } else {
            assert forall|j: int| 0 <= j < es.len() implies #[trigger] es[j].score <= es[i0].score by {
                if j < n {
                    assert(rest[j].score <= rest[i0].score);
                }
            }
            assert forall|j: int| 0 <= j < i0 implies #[trigger] es[j].score < es[i0].score by {
                assert(rest[j].score < rest[i0].score);
            }
            assert(is_first_best(es, i0));
        }
    }
    lemma_first_best_unique(es, choose|i: int| is_first_best(es, i));
}

/// The scored list holds the moves of the list but the hash move, and only
/// those.
pub proof fn lemma_scored_moves(b: Board, tt: Move, moves: Seq<Move>)
    ensures
        forall|j: int| 0 <= j < scored(b, tt, moves).len() ==> moves.contains(#[trigger] scored(b, tt, moves)[j].mv) && scored(b, tt, moves)[j].mv != tt,
        forall|i: int| 0 <= i < moves.len() && #[trigger] moves[i] != tt ==> exists|j: int| 0 <= j < scored(b, tt, moves).len() && #[trigger] scored(b, tt, moves)[j].mv == moves[i],
    decreases moves.len(),
{
    if moves.len() > 0 {
        let rest = moves.drop_last();
        lemma_scored_moves(b, tt, rest);
        let es = scored(b, tt, moves);
        let er = scored(b, tt, rest);
        assert forall|j: int| 0 <= j < es.len() implies moves.contains(#[trigger] es[j].mv) && es[j].mv != tt by {
            if j < er.len() {
                assert(es[j] == er[j]);
                let k = choose|k: int| 0 <= k < rest.len() && rest[k] == er[j].mv;
                assert(moves[k] == es[j].mv);
            } else {
                assert(moves[moves.len() - 1] == es[j].mv);
            }
        }
        assert forall|i: int| 0 <= i < moves.len() && #[trigger] moves[i] != tt implies exists|j: int| 0 <= j < es.len() && #[trigger] es[j].mv == moves[i] by {
            if i < rest.len() {
                assert(rest[i] == moves[i]);
                let j = choose|j: int| 0 <= j < er.len() && #[trigger] er[j].mv == rest[i];
                assert(es[j] == er[j]);
            } else {
                assert(es[er.len() as int].mv == moves[i]);
            }
        }
    }
}

/// Taking out entry `i` leaves the other entries, the last one moved into
/// place `i`.
pub proof fn lemma_swap_removed(es: Seq<MoveEntry>, i: int)
    requires
        0 <= i < es.len(),
    ensures
        swap_removed(es, i).len() == es.len() - 1,
        forall|j: int| #![trigger swap_removed(es, i)[j]] 0 <= j < es.len() - 1 ==> swap_removed(es, i)[j] == if j == i { es[es.len() - 1] } else { es[j] },
{
}


/// The order in which a picker in its yielding stage gives out a list of
/// entries: each time the first best entry, then the rest of the list with
/// that entry swapped out.
pub open spec fn yield_order(es: Seq<MoveEntry>) -> Seq<MoveEntry>
    decreases es.len(),
{
    if es.len() == 0 {
        seq![]
    } else {
        proof {
            lemma_first_best_exists(es);
            lemma_swap_removed(es, first_best(es));
        }
        seq![es[first_best(es)]] + yield_order(swapped_out(es))
    }
}

/// Swapping an entry out takes exactly that entry out of the list's
/// multiset.
proof fn lemma_swap_removed_multiset(es: Seq<MoveEntry>, i: int)
    requires
        0 <= i < es.len(),
    ensures
        swap_removed(es, i).to_multiset() == es.to_multiset().remove(es[i]),
{
    broadcast use vstd::seq_lib::group_to_multiset_ensures;
    broadcast use vstd::multiset::group_multiset_axioms;
    let n = es.len() - 1;
    let last = es[n];
    let u = es.update(i, last);
    assert(u =~= es.remove(i).insert(i, last));
    vstd::seq_lib::to_multiset_remove(es, i);
    vstd::seq_lib::to_multiset_insert(es.remove(i), i, last);
    assert(u.to_multiset() == es.to_multiset().remove(es[i]).insert(last));
    assert(u.drop_last() =~= u.remove(n));
    vstd::seq_lib::to_multiset_remove(u, n);
    assert(u[n] == last);
    assert(swap_removed(es, i).to_multiset() =~= es.to_multiset().remove(es[i]));
}

/// A picker gives out every entry of its list exactly once, best score
/// first: the yield order is a permutation of the list, in non-increasing
/// order of scores.
pub proof fn lemma_yield_order(es: Seq<MoveEntry>)
    ensures
        yield_order(es).to_multiset() == es.to_multiset(),
        yield_order(es).len() == es.len(),
        forall|i: int, j: int| 0 <= i < j < yield_order(es).len() ==> #[trigger] yield_order(es)[i].score >= #[trigger] yield_order(es)[j].score,
    decreases es.len(),
{
    broadcast use vstd::seq_lib::group_to_multiset_ensures;
    broadcast use vstd::multiset::group_multiset_axioms;
    if es.len() > 0 {
        lemma_first_best_exists(es);
        let b = first_best(es);
        let e = es[b];
        lemma_swap_removed(es, b);
        let rest = swapped_out(es);
        lemma_yield_order(rest);
        lemma_swap_removed_multiset(es, b);
        let yr = yield_order(rest);
        let yo = yield_order(es);
        assert(yo == seq![e] + yr);
        assert(seq![e] + yr =~= yr.insert(0, e));
        vstd::seq_lib::to_multiset_insert(yr, 0, e);
        assert(es.to_multiset().count(e) > 0) by {
            assert(es.contains(e));
        }
        assert(yo.to_multiset() =~= es.to_multiset());
        assert forall|i: int, j: int| 0 <= i < j < yo.len() implies #[trigger] yo[i].score >= #[trigger] yo[j].score by {
            if i == 0 {
                let x = yo[j];
                assert(x == yr[j - 1]);
                assert(yr.contains(x));
                assert(yr.to_multiset().count(x) > 0);
                assert(rest.to_multiset().count(x) > 0);
                assert(es.to_multiset().count(x) > 0);
                assert(es.contains(x));
                let k = choose|k: int| 0 <= k < es.len() && es[k] == x;
                assert(es[k].score <= es[b].score);
            } else {
                assert(yo[i] == yr[i - 1] && yo[j] == yr[j - 1]);
            }
        }
    }
}


/// Whether a move is not `tt`.
pub open spec fn other_than(tt: Move) -> spec_fn(Move) -> bool {
    |m: Move| m != tt
}

/// The entry of a move on a board: the move with its ordering score.
pub open spec fn entry_for(b: Board) -> spec_fn(Move) -> MoveEntry {
    |m: Move| MoveEntry { mv: m, score: move_score(b, m) as i32 }
}

/// The moves of a sequence of entries.
pub open spec fn moves_of(es: Seq<MoveEntry>) -> Seq<Move> {
    es.map_values(|e: MoveEntry| e.mv)
}

/// The entries that a picker with hash move `tt` gives out on `b` after the
/// hash move, in order.
pub open spec fn picker_order(b: Board, tt: Move) -> Seq<MoveEntry> {
    yield_order(scored(b, tt, pseudo_legal_moves(b)))
}

/// The scored list is the list without `tt`, each move with its score.
proof fn lemma_scored_filter(b: Board, tt: Move, moves: Seq<Move>)
    ensures
        scored(b, tt, moves) == moves.filter(other_than(tt)).map_values(entry_for(b)),
    decreases moves.len(),
{
    reveal(Seq::filter);
    if moves.len() > 0 {
        lemma_scored_filter(b, tt, moves.drop_last());
        let pred = other_than(tt);
        let f = entry_for(b);
        let sub = moves.drop_last().filter(pred);
        if moves.last() != tt {
            assert(moves.filter(pred) == sub.push(moves.last()));
            assert(sub.push(moves.last()).map_values(f) =~= sub.map_values(f).push(f(moves.last())));
        } else {
            assert(moves.filter(pred) == sub);
        }
    }
}

/// Ordering scores: a quiet move scores 0, a capture more than 999000.
proof fn lemma_move_score_range(b: Board, m: Move)
    ensures
        m.bits() & 0x4000 == 0 ==> move_score(b, m) == 0,
        m.bits() & 0x4000 != 0 ==> 999000 < move_score(b, m) <= 1009000,
{
    if m.bits() & 0x4000 != 0 {
        let victim = if m.flag_bits() == 5 {
            100
        } else {
            match b.mailbox@[m.to_sq() as int] {
                Some(p) => piece_value(p) as int,
                None => 0,
            }
        };
        let aggressor = match b.mailbox@[m.from_sq() as int] {
            Some(p) => piece_value(p) as int,
            None => 0,
        };
        assert(0 <= victim <= 900);
        assert(0 <= aggressor <= 900);
    }
}

/// A picker with hash move `tt` gives out, after the hash move, every
/// generated move but `tt` exactly once, each with its ordering score, best
/// score first, so that every capture comes before every quiet move.
pub proof fn lemma_picker_order(b: Board, tt: Move)
    ensures
        picker_order(b, tt).to_multiset() == pseudo_legal_moves(b).filter(other_than(tt)).map_values(entry_for(b)).to_multiset(),
        forall|i: int| 0 <= i < picker_order(b, tt).len() ==> #[trigger] picker_order(b, tt)[i].score == move_score(b, picker_order(b, tt)[i].mv),
        forall|i: int, j: int| 0 <= i < j < picker_order(b, tt).len() ==> #[trigger] picker_order(b, tt)[i].score >= #[trigger] picker_order(b, tt)[j].score,
        forall|i: int, j: int| 0 <= i < j < picker_order(b, tt).len() && #[trigger] picker_order(b, tt)[j].mv.bits() & 0x4000 != 0
            ==> #[trigger] picker_order(b, tt)[i].mv.bits() & 0x4000 != 0,
        tt.bits() == 0 && (forall|i: int| 0 <= i < pseudo_legal_moves(b).len() ==> #[trigger] pseudo_legal_moves(b)[i].bits() != 0)
            ==> pseudo_legal_moves(b).filter(other_than(tt)) == pseudo_legal_moves(b),
{
    if tt.bits() == 0 && (forall|i: int| 0 <= i < pseudo_legal_moves(b).len() ==> #[trigger] pseudo_legal_moves(b)[i].bits() != 0) {
        lemma_filter_keeps_all(pseudo_legal_moves(b), tt);
    }
    broadcast use vstd::seq_lib::group_to_multiset_ensures;
    let moves = pseudo_legal_moves(b);
    let es = scored(b, tt, moves);
    let order = picker_order(b, tt);
    lemma_scored_filter(b, tt, moves);
    lemma_yield_order(es);
    let src = moves.filter(other_than(tt));
    assert forall|i: int| 0 <= i < order.len() implies #[trigger] order[i].score == move_score(b, order[i].mv) by {
        let x = order[i];
        assert(order.contains(x));
        assert(order.to_multiset().count(x) > 0);
        assert(es.to_multiset().count(x) > 0);
        assert(es.contains(x));
        let k = choose|k: int| 0 <= k < es.len() && es[k] == x;
        assert(es[k] == entry_for(b)(src[k]));
        lemma_move_score_range(b, x.mv);
    }
    assert forall|i: int, j: int| 0 <= i < j < order.len() && #[trigger] order[j].mv.bits() & 0x4000 != 0
        implies #[trigger] order[i].mv.bits() & 0x4000 != 0 by {
        assert(order[i].score == move_score(b, order[i].mv));
        assert(order[j].score == move_score(b, order[j].mv));
        lemma_move_score_range(b, order[i].mv);
        lemma_move_score_range(b, order[j].mv);
    }
}

/// Giving out the first best entry leaves the rest of the yield order.
proof fn lemma_pending_step(es: Seq<MoveEntry>)
    ensures
        es.len() == 0 ==> moves_of(yield_order(es)).len() == 0,
        es.len() > 0 ==> {
            &&& moves_of(yield_order(es)).len() > 0
            &&& moves_of(yield_order(es))[0] == es[first_best(es)].mv
            &&& moves_of(yield_order(swapped_out(es))) == moves_of(yield_order(es)).drop_first()
        },
{
    if es.len() > 0 {
        let y = yield_order(es);
        assert(y == seq![es[first_best(es)]] + yield_order(swapped_out(es)));
        assert(moves_of(yield_order(swapped_out(es))) =~= moves_of(y).drop_first());
    }
}

/// Leaving out the null move keeps a list of moves that holds none.
proof fn lemma_filter_keeps_all(moves: Seq<Move>, tt: Move)
    requires
        tt.bits() == 0,
        forall|i: int| 0 <= i < moves.len() ==> #[trigger] moves[i].bits() != 0,
    ensures
        moves.filter(other_than(tt)) == moves,
    decreases moves.len(),
{
    reveal(Seq::filter);
    if moves.len() > 0 {
        let rest = moves.drop_last();
        assert forall|i: int| 0 <= i < rest.len() implies #[trigger] rest[i].bits() != 0 by {
            assert(rest[i] == moves[i]);
        }
        lemma_filter_keeps_all(rest, tt);
        Move::lemma_bits_eq(moves.last(), tt);
        assert(moves.filter(other_than(tt)) == rest.push(moves.last()));
        assert(rest.push(moves.last()) =~= moves);
    }
}

} // verus!
