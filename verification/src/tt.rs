//! Transposition table: one entry per slot, the slot chosen by the key.
use vstd::prelude::*;
use crate::chess_move::Move;
use crate::search::{INFINITY, MATE};

verus! {

/// What a stored score says of the true score.
#[derive(Clone, Copy, PartialEq, Eq, Structural, Debug)]
pub enum Bound {
    /// The true score is at least the stored one (a fail-high).
    Lower,
    /// The true score is at most the stored one (a fail-low).
    Upper,
    /// The stored score is exact.
    Exact,
}

/// One slot of the table.
#[derive(Clone, Copy)]
pub struct TtEntry {
    pub used: bool,
    pub key: u64,
    pub mv: u16,
    pub score: i32,
    pub eval: i32,
    pub depth: i32,
    pub bound: Bound,
    pub generation: u8,
}

/// What a probe hands back.
#[derive(Clone, Copy)]
pub struct TtHit {
    pub mv: Move,
    pub score: i32,
    pub eval: i32,
    pub depth: i32,
    pub bound: Bound,
}

/// Scores and evaluations that the search can store.
pub open spec fn entry_ok(e: TtEntry) -> bool {
    &&& -MATE <= e.score <= MATE
    &&& -INFINITY <= e.eval <= INFINITY
    &&& -1000 <= e.depth <= 1000
}

/// The empty slot.
pub open spec fn empty_entry() -> TtEntry {
    TtEntry { used: false, key: 0, mv: 0, score: 0, eval: 0, depth: 0, bound: Bound::Upper, generation: 0 }
}

/// Slot of `key` in a table of `n` slots.
pub open spec fn slot_of(key: u64, n: int) -> int {
    (key as int) % n
}

/// The entry that a store writes into a slot holding `old`: the new data replace
/// an unused slot, another position's entry, an entry of an older search, or
/// one searched no more than three plies deeper; otherwise the slot keeps `old`,
/// though a best move is remembered for the same position whenever one is given.
pub open spec fn stored(old: TtEntry, generation: u8, key: u64, mv: u16, score: i32, eval: i32, depth: i32, bound: Bound) -> TtEntry {
    if !old.used || old.key != key || old.generation != generation || depth + 3 >= old.depth {
        TtEntry {
            used: true,
            key,
            mv: if mv == 0 && old.used && old.key == key {
                old.mv
            } else {
                mv
            },
            score,
            eval,
            depth,
            bound,
            generation,
        }
    } else if mv != 0 {
        TtEntry { mv, ..old }
    } else {
        old
    }
}

/// The table.
pub struct Tt {
    entries: Vec<TtEntry>,
    generation: u8,
}

impl Tt {
    /// The slots.
    pub closed spec fn slots(&self) -> Seq<TtEntry> {
        self.entries@
    }

    /// The generation of the search under way.
    pub closed spec fn gen(&self) -> u8 {
        self.generation
    }

    /// At least one slot, and every slot holds bounded data.
    pub open spec fn wf(&self) -> bool {
        &&& 0 < self.slots().len() <= usize::MAX
        &&& forall|i: int| 0 <= i < self.slots().len() ==> entry_ok(#[trigger] self.slots()[i])
    }

    /// A table of `mb` megabytes (at least one slot), all slots empty.
    pub fn new(mb: usize) -> (r: Tt)
        ensures
            r.wf(),
            r.gen() == 0,
            r.slots().len() == table_slots(mb),
            forall|i: int| 0 <= i < r.slots().len() ==> #[trigger] r.slots()[i] == empty_entry(),
    {
        let n = slot_count(mb);
        let mut entries: Vec<TtEntry> = Vec::new();
        let mut i: usize = 0;
        while i < n
            invariant
                i <= n,
                entries@.len() == i,
                forall|k: int| 0 <= k < i ==> #[trigger] entries@[k] == empty_entry(),
            decreases n - i,
        {
            entries.push(TtEntry {
                used: false,
                key: 0,
                mv: 0,
                score: 0,
                eval: 0,
                depth: 0,
                bound: Bound::Upper,
                generation: 0,
            });
            i = i + 1;
        }
        Tt { entries, generation: 0 }
    }

    /// Empty every slot; the size and generation stay.
    pub fn clear(&mut self)
        requires
            old(self).wf(),
        ensures
            final(self).wf(),
            final(self).gen() == old(self).gen(),
            final(self).slots().len() == old(self).slots().len(),
            forall|i: int| 0 <= i < final(self).slots().len() ==> #[trigger] final(self).slots()[i] == empty_entry(),
    {
        let n = self.entries.len();
        let mut i: usize = 0;
        while i < n
            invariant
                i <= n,
                n == self.entries@.len(),
                n > 0,
                self.generation == old(self).gen(),
                forall|k: int| 0 <= k < i ==> #[trigger] self.entries@[k] == empty_entry(),
                forall|k: int| 0 <= k < n ==> entry_ok(#[trigger] self.entries@[k]),
            decreases n - i,
        {
            self.entries.set(i, TtEntry {
                used: false,
                key: 0,
                mv: 0,
                score: 0,
                eval: 0,
                depth: 0,
                bound: Bound::Upper,
                generation: 0,
            });
            i = i + 1;
        }
    }

    /// Start a new search: entries of earlier searches become replaceable.
    pub fn new_generation(&mut self)
        requires
            old(self).wf(),
        ensures
            final(self).wf(),
            final(self).slots() == old(self).slots(),
            final(self).gen() == (old(self).gen() + 1) % 256,
    {
        let g = self.generation;
        let n = g.wrapping_add(1);
        proof {
            assert(n == (g + 1) % 256) by (bit_vector)
                requires
                    n == g.wrapping_add(1);
        }
        self.generation = n;
    }

    /// The entry of `key`, if its slot holds it.
    pub fn probe(&self, key: u64) -> (r: Option<TtHit>)
        requires
            self.wf(),
        ensures
            ({
                let e = self.slots()[slot_of(key, self.slots().len() as int)];
                if e.used && e.key == key {
                    r == Some(TtHit { mv: Move(e.mv), score: e.score, eval: e.eval, depth: e.depth, bound: e.bound })
                } else {
                    r is None
                }
            }),
            r matches Some(h) ==> -MATE <= h.score <= MATE && -INFINITY <= h.eval <= INFINITY && -1000
                <= h.depth <= 1000,
    {
        let n = self.entries.len();
        let i = (key % (n as u64)) as usize;
        let e = self.entries[i];
        proof {
            assert(entry_ok(self.slots()[i as int]));
        }
        if e.used && e.key == key {
            Some(TtHit { mv: Move(e.mv), score: e.score, eval: e.eval, depth: e.depth, bound: e.bound })
        } else {
            None
        }
    }

    /// Store a search result for `key` (see `stored` for when it replaces).
    pub fn store(&mut self, key: u64, mv: Move, score: i32, eval: i32, depth: i32, bound: Bound)
        requires
            old(self).wf(),
            -MATE <= score <= MATE,
            -INFINITY <= eval <= INFINITY,
            -1000 <= depth <= 1000,
        ensures
            final(self).wf(),
            final(self).gen() == old(self).gen(),
            final(self).slots() == old(self).slots().update(
                slot_of(key, old(self).slots().len() as int),
                stored(
                    old(self).slots()[slot_of(key, old(self).slots().len() as int)],
                    old(self).gen(),
                    key,
                    mv.0,
                    score,
                    eval,
                    depth,
                    bound,
                ),
            ),
    {
        let n = self.entries.len();
        let i = (key % (n as u64)) as usize;
        let old_e = self.entries[i];
        proof {
            assert(entry_ok(old_e));
        }
        let g = self.generation;
        let e = if !old_e.used || old_e.key != key || old_e.generation != g || depth + 3 >= old_e.depth {
            let m = if mv.0 == 0 && old_e.used && old_e.key == key {
                old_e.mv
            } else {
                mv.0
            };
            TtEntry { used: true, key, mv: m, score, eval, depth, bound, generation: g }
        } else if mv.0 != 0 {
            TtEntry { mv: mv.0, ..old_e }
        } else {
            old_e
        };
        self.entries.set(i, e);
    }

    /// Per mille of the first thousand slots (or all, if fewer) that hold an
    /// entry of the current search.
    pub fn hashfull(&self) -> (r: u32)
        requires
            self.wf(),
        ensures
            r <= 1000,
            r as int == fresh_count(self.slots(), self.gen(), sample_len(self.slots().len() as int)) * 1000
                / sample_len(self.slots().len() as int),
    {
        let n = if self.entries.len() < 1000 {
            self.entries.len()
        } else {
            1000
        };
        let mut c: u32 = 0;
        let mut i: usize = 0;
        while i < n
            invariant
                i <= n,
                n == sample_len(self.slots().len() as int),
                n <= self.entries@.len(),
                c as int == fresh_count(self.slots(), self.gen(), i as int),
                c <= i,
            decreases n - i,
        {
            let e = self.entries[i];
            if e.used && e.generation == self.generation {
                c = c + 1;
            }
            i = i + 1;
        }
        proof {
            let ci = c as int;
            let ni = n as int;
            assert(ci * 1000 / ni <= 1000) by (nonlinear_arith)
                requires
                    ci <= ni,
                    ni > 0;
        }
        ((c as u64 * 1000) / n as u64) as u32
    }
}

/// Slots looked at by `hashfull`.
pub open spec fn sample_len(n: int) -> int {
    if n < 1000 {
        n
    } else {
        1000
    }
}

/// Number of the first `n` slots that hold an entry of generation `g`.
pub open spec fn fresh_count(s: Seq<TtEntry>, g: u8, n: int) -> int
    decreases n,
{
    if n <= 0 {
        0
    } else {
        fresh_count(s, g, n - 1) + if s[n - 1].used && s[n - 1].generation == g {
            1int
        } else {
            0int
        }
    }
}

/// Bytes that one slot is counted as.
pub const ENTRY_BYTES: usize = 32;

/// Slots of a table of `mb` megabytes: as many as fit, at least one.
pub open spec fn table_slots(mb: usize) -> int {
    let n = (if mb > 65536 {
        65536int
    } else {
        mb as int
    }) * 1048576 / (ENTRY_BYTES as int);
    if n < 1 {
        1
    } else {
        n
    }
}

fn slot_count(mb: usize) -> (r: usize)
    ensures
        r == table_slots(mb),
        r > 0,
{
    let m: u64 = if mb > 65536 {
        65536
    } else {
        mb as u64
    };
    let n = m * 1048576 / 32;
    if n < 1 {
        1
    } else {
        n as usize
    }
}

} // verus!
