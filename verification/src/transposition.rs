use vstd::prelude::*;
use crate::constants::CHECKMATE_THRESHOLD;
use crate::mv::Move;

verus! {

/// What a stored score says about the true score of a position.
#[derive(Debug, Clone, Copy, PartialEq, Eq, Structural)]
pub enum HashFlag {
    Exact,
    Alpha,
    Beta,
}

/// One slot of the transposition table.
#[derive(Debug, Clone, Copy, PartialEq, Eq, Structural)]
pub struct TtEntry {
    hash_key: u64,
    mv: Move,
    score: i16,
    age: u16,
    depth: u8,
    flag: HashFlag,
}

/// A stored score moved `ply` plies toward the root when it stands for a
/// mate, so that it counts from the stored position.
pub open spec fn stored_score(score: i32, ply: usize) -> int {
    let s = score as i16;
    let p = ply as i16;
    if score > CHECKMATE_THRESHOLD {
        s - p
    } else if score < -CHECKMATE_THRESHOLD {
        s + p
    } else {
        s as int
    }
}

/// A stored score moved `ply` plies away from the root when it stands for a
/// mate.
pub open spec fn read_score(score: i16, ply: usize) -> int {
    let p = ply as i32;
    if score > CHECKMATE_THRESHOLD {
        score + p
    } else if score < -CHECKMATE_THRESHOLD {
        score - p
    } else {
        score as int
    }
}

impl TtEntry {
    pub closed spec fn key(self) -> u64 {
        self.hash_key
    }

    pub closed spec fn entry_move(self) -> Move {
        self.mv
    }

    pub closed spec fn stored(self) -> i16 {
        self.score
    }

    pub closed spec fn entry_age(self) -> u16 {
        self.age
    }

    pub closed spec fn entry_depth(self) -> u8 {
        self.depth
    }

    pub closed spec fn entry_flag(self) -> HashFlag {
        self.flag
    }

    /// The empty slot: every field zero, flag `Alpha`.
    pub open spec fn is_null(self) -> bool {
        &&& self.key() == 0
        &&& self.entry_move().bits() == 0
        &&& self.stored() == 0
        &&& self.entry_age() == 0
        &&& self.entry_depth() == 0
        &&& self.entry_flag() == HashFlag::Alpha
    }

    /// The empty slot.
    pub fn null() -> (e: TtEntry)
        ensures
            e.is_null(),
    {
        TtEntry { hash_key: 0, mv: Move::null(), score: 0, age: 0, depth: 0, flag: HashFlag::Alpha }
    }

    pub fn new(hash_key: u64, mv: Move, score: i16, age: u16, depth: u8, flag: HashFlag) -> (e: TtEntry)
        ensures
            e.key() == hash_key,
            e.entry_move() == mv,
            e.stored() == score,
            e.entry_age() == age,
            e.entry_depth() == depth,
            e.entry_flag() == flag,
    {
        TtEntry { hash_key, mv, score, age, depth, flag }
    }

    /// The score to store for a score found `ply` plies from the root.
    pub fn to_tt_score(score: i32, ply: usize) -> (r: i16)
        requires
            i16::MIN <= stored_score(score, ply) <= i16::MAX,
        ensures
            r == stored_score(score, ply),
    {
        if score > CHECKMATE_THRESHOLD {
            score as i16 - ply as i16
        } else if score < -CHECKMATE_THRESHOLD {
            score as i16 + ply as i16
        } else {
            score as i16
        }
    }

    /// The stored score as seen `ply` plies from the root.
    pub fn get_score(&self, ply: usize) -> (r: i32)
        requires
            i32::MIN <= read_score(self.stored(), ply) <= i32::MAX,
        ensures
            r == read_score(self.stored(), ply),
    {
        if (self.score as i32) > CHECKMATE_THRESHOLD {
            self.score as i32 + ply as i32
        } else if (self.score as i32) < -CHECKMATE_THRESHOLD {
            self.score as i32 - ply as i32
        } else {
            self.score as i32
        }
    }

    pub fn get_depth(&self) -> (r: u8)
        ensures
            r == self.entry_depth(),
    {
        self.depth
    }

    pub fn get_flag(&self) -> (r: HashFlag)
        ensures
            r == self.entry_flag(),
    {
        self.flag
    }

    pub fn get_move(&self) -> (r: Move)
        ensures
            r == self.entry_move(),
    {
        self.mv
    }
}

/// A score stored at some ply and read back at the same ply is the score
/// found, for every score that fits a stored slot and is no mate score that
/// the ply would carry across the mate threshold.
pub proof fn lemma_score_round_trip(score: i32, ply: usize)
    requires
        -32000 <= score <= 32000,
        ply < 64,
        score > CHECKMATE_THRESHOLD ==> score - ply > CHECKMATE_THRESHOLD,
        score < -CHECKMATE_THRESHOLD ==> score + ply < -CHECKMATE_THRESHOLD,
    ensures
        i16::MIN <= stored_score(score, ply) <= i16::MAX,
        read_score(stored_score(score, ply) as i16, ply) == score,
{
    assert((-32000 <= score <= 32000 ==> score as i16 == score) && (ply < 64 ==> ply as i16 == ply && ply as i32 == ply)) by (bit_vector);
}

/// Whether a number is a power of two.
pub open spec fn is_pow2(x: nat) -> bool
    decreases x,
{
    if x <= 1 {
        x == 1
    } else {
        x % 2 == 0 && is_pow2(x / 2)
    }
}

/// The largest power of two not above `n`.
pub fn floor_power_of_two(n: usize) -> (p: usize)
    requires
        n >= 1,
    ensures
        is_pow2(p as nat),
        p <= n,
        n < 2 * p,
{
    let mut p: usize = 1;
    while p <= n / 2
        invariant
            1 <= p <= n,
            is_pow2(p as nat),
        decreases n - p,
    {
        assert(is_pow2((2 * p) as nat)) by {
            assert((2 * p) as nat / 2 == p as nat);
        }
        p = p * 2;
    }
    p
}

/// A table of `size_mask + 1` slots, a power of two, indexed by the low bits
/// of the hash key.
pub struct TranspositionTable {
    entry_list: Vec<TtEntry>,
    pub size_mask: usize,
}

impl View for TranspositionTable {
    type V = Seq<TtEntry>;

    closed spec fn view(&self) -> Seq<TtEntry> {
        self.entry_list@
    }
}

/// The slot of a hash key in a table with mask `mask`.
pub open spec fn slot_of(hash_key: u64, mask: usize) -> int {
    ((hash_key as usize) & mask) as int
}

/// What a read of a key gives on slots with mask `mask`: the entry in the
/// key's slot when it was stored for that key.
pub open spec fn lookup(slots: Seq<TtEntry>, mask: usize, hash_key: u64) -> Option<TtEntry> {
    let e = slots[slot_of(hash_key, mask)];
    if e.key() == hash_key {
        Some(e)
    } else {
        None
    }
}

/// A write replaces the entry in its slot when that slot is empty, holds an
/// entry of another age, or one searched no deeper.
pub open spec fn replaces(slots: Seq<TtEntry>, mask: usize, entry: TtEntry) -> bool {
    let o = slots[slot_of(entry.key(), mask)];
    o.is_null() || entry.entry_depth() >= o.entry_depth() || entry.entry_age() != o.entry_age()
}

/// The slots after a write of `entry`.
pub open spec fn after_write(slots: Seq<TtEntry>, mask: usize, entry: TtEntry) -> Seq<TtEntry> {
    if replaces(slots, mask, entry) {
        slots.update(slot_of(entry.key(), mask), entry)
    } else {
        slots
    }
}

/// A read after a write that replaced its slot gives back the written
/// entry; a write changes no read of a key in another slot.
pub proof fn lemma_read_after_write(slots: Seq<TtEntry>, mask: usize, entry: TtEntry, other: u64)
    requires
        slots.len() == mask + 1,
    ensures
        replaces(slots, mask, entry) ==> lookup(after_write(slots, mask, entry), mask, entry.key()) == Some(entry),
        slot_of(other, mask) != slot_of(entry.key(), mask) ==> lookup(after_write(slots, mask, entry), mask, other) == lookup(slots, mask, other),
{
    let h = entry.key() as usize;
    let g = other as usize;
    assert(h & mask <= mask) by (bit_vector);
    assert(g & mask <= mask) by (bit_vector);
}

impl TranspositionTable {
    pub closed spec fn mask(&self) -> usize {
        self.size_mask
    }

    pub closed spec fn wf(&self) -> bool {
        &&& self.entry_list@.len() == self.size_mask + 1
        &&& is_pow2(self.entry_list@.len())
    }

    pub proof fn lemma_slots(&self, hash_key: u64)
        requires
            self.wf(),
        ensures
            0 <= slot_of(hash_key, self.mask()) < self@.len(),
    {
        let h = hash_key as usize;
        let m = self.size_mask;
        assert(h & m <= m) by (bit_vector);
    }

    /// A table of about `megabytes` megabytes: the largest power of two of
    /// slots that fits, every slot empty.
    pub fn new(megabytes: usize) -> (t: TranspositionTable)
        requires
            megabytes * 1024 * 1024 <= usize::MAX,
            0 < vstd::layout::size_of::<TtEntry>() <= megabytes * 1024 * 1024,
        ensures
            t.wf(),
            t.mask() + 1 == floor_pow2_spec(((megabytes * 1024 * 1024) as nat / vstd::layout::size_of::<TtEntry>()) as nat),
            forall|i: int| 0 <= i < t@.len() ==> (#[trigger] t@[i]).is_null(),
    {
        let entry_size = core::mem::size_of::<TtEntry>();
        let bytes = megabytes * 1024 * 1024;
        let mut num_entries = bytes / entry_size;
        assert(num_entries >= 1) by (nonlinear_arith)
            requires
                num_entries == bytes / entry_size,
                0 < entry_size <= bytes,
        ;
        num_entries = floor_power_of_two(num_entries);
        proof {
            lemma_floor_pow2_unique((bytes / entry_size) as nat, num_entries as nat);
        }
        let null = TtEntry::null();
        let entry_list = vec![null; num_entries];
        assert forall|i: int| 0 <= i < entry_list@.len() implies (#[trigger] entry_list@[i]).is_null() by {
            assert(vstd::pervasive::cloned(null, entry_list@[i]));
        }
        TranspositionTable { entry_list, size_mask: num_entries - 1 }
    }

    /// `new` for every size: `None` where the size in bytes does not fit a
    /// `usize` or is smaller than one entry.
    pub fn try_new(megabytes: usize) -> (r: Option<TranspositionTable>)
        ensures
            r is Some <==> (megabytes * 1024 * 1024 <= usize::MAX && 0 < vstd::layout::size_of::<TtEntry>() <= megabytes * 1024 * 1024),
            r matches Some(t) ==> t.wf() && forall|i: int| 0 <= i < t@.len() ==> (#[trigger] t@[i]).is_null(),
    {
        match megabytes.checked_mul(1024 * 1024) {
            None => None,
            Some(bytes) => {
                let entry_size = core::mem::size_of::<TtEntry>();
                if 0 < entry_size && entry_size <= bytes {
                    Some(TranspositionTable::new(megabytes))
                } else {
                    None
                }
            },
        }
    }

    /// Empties every slot.
    pub fn clear(&mut self)
        requires
            old(self).wf(),
        ensures
            final(self).wf(),
            final(self).mask() == old(self).mask(),
            final(self)@.len() == old(self)@.len(),
            forall|i: int| 0 <= i < final(self)@.len() ==> (#[trigger] final(self)@[i]).is_null(),
    {
        let null = TtEntry::null();
        let mut i: usize = 0;
        while i < self.entry_list.len()
            invariant
                self.wf(),
                self.size_mask == old(self).size_mask,
                self.entry_list@.len() == old(self).entry_list@.len(),
                i <= self.entry_list@.len(),
                null.is_null(),
                forall|j: int| 0 <= j < i ==> (#[trigger] self.entry_list@[j]).is_null(),
            decreases self.entry_list@.len() - i,
        {
            self.entry_list.set(i, null);
            i += 1;
        }
    }

    /// The entry in the key's slot, when it was stored for that key.
    pub fn read(&self, hash_key: u64) -> (r: Option<TtEntry>)
        requires
            self.wf(),
        ensures
            r == lookup(self@, self.mask(), hash_key),
    {
        proof {
            self.lemma_slots(hash_key);
        }
        let index = hash_key as usize & self.size_mask;
        let entry = self.entry_list[index];
        if entry.hash_key == hash_key {
            Some(entry)
        } else {
            None
        }
    }

    /// Stores an entry in its key's slot, unless the slot holds an entry of
    /// the same age searched deeper.
    pub fn write(&mut self, entry: TtEntry)
        requires
            old(self).wf(),
        ensures
            final(self).wf(),
            final(self).mask() == old(self).mask(),
            final(self)@ == after_write(old(self)@, old(self).mask(), entry),
    {
        proof {
            self.lemma_slots(entry.hash_key);
        }
        let index = entry.hash_key as usize & self.size_mask;
        let old_entry = self.entry_list[index];
        let null = TtEntry::null();
        if old_entry == null || entry.depth >= old_entry.depth || entry.age != old_entry.age {
            self.entry_list.set(index, entry);
        }
    }
}

/// The largest power of two not above `n`, for `n` at least 1.
pub open spec fn floor_pow2_spec(n: nat) -> nat {
    choose|p: nat| is_pow2(p) && p <= n && n < 2 * p
}

proof fn lemma_pow2_pos(p: nat)
    requires
        is_pow2(p),
    ensures
        p >= 1,
{
}

proof fn lemma_pow2_order(p: nat, q: nat)
    requires
        is_pow2(p),
        is_pow2(q),
        p < q,
    ensures
        2 * p <= q,
    decreases q,
{
    if p > 1 {
        lemma_pow2_order(p / 2, q / 2);
    } else {
        assert(q >= 2);
    }
}

proof fn lemma_floor_pow2_unique(n: nat, p: nat)
    requires
        is_pow2(p),
        p <= n,
        n < 2 * p,
    ensures
        floor_pow2_spec(n) == p,
{
    let q = floor_pow2_spec(n);
    assert(is_pow2(q) && q <= n && n < 2 * q);
    if q < p {
        lemma_pow2_order(q, p);
    } else if p < q {
        lemma_pow2_order(p, q);
    }
}

} // verus!
