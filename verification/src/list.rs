use vstd::map::*;
use vstd::prelude::*;

use crate::generator::Generator;

verus! {

broadcast use vstd::set::group_set_axioms, vstd::map::group_map_axioms;

/// Sentinel standing for "no forward reference". Node handles are indices
/// into the arena columns and therefore always strictly below the arena
/// length, which itself fits in `usize`, so no handle ever collides with
/// this value.
pub(crate) const NIL: usize = usize::MAX;

/// Number of forward references (the level) of the node stored at arena
/// index `i`.
pub(crate) open spec fn lvl_of(links: Seq<Vec<usize>>, i: int) -> int {
    links[i]@.len() as int
}

/// Position, in the ascending order `ord`, of the first node at position
/// `j` or later that is tall enough to appear on the chain of level `lvl`
/// (that is, whose level is strictly greater than `lvl`); `ord.len()` when
/// there is none.
pub(crate) open spec fn hitp(ord: Seq<int>, links: Seq<Vec<usize>>, j: int, lvl: int) -> int
    decreases ord.len() - j
        when 0 <= j <= ord.len()
{
    if j >= ord.len() {
        ord.len() as int
    } else if lvl_of(links, ord[j]) > lvl {
        j
    } else {
        hitp(ord, links, j + 1, lvl)
    }
}

/// The handle that a walk of the level-`lvl` chain reaches next, starting
/// from position `j` of the ascending order: the first node at or after `j`
/// that appears on that chain, or `NIL` when the chain ends there.
pub(crate) open spec fn chainf(ord: Seq<int>, links: Seq<Vec<usize>>, j: int, lvl: int) -> usize {
    if hitp(ord, links, j, lvl) == ord.len() {
        NIL
    } else {
        ord[hitp(ord, links, j, lvl)] as usize
    }
}

/// Basic characterisation of `hitp`: it is the least position at or after
/// `j` holding a node taller than `lvl`.
pub(crate) proof fn lemma_hitp(ord: Seq<int>, links: Seq<Vec<usize>>, j: int, lvl: int)
    requires
        0 <= j <= ord.len(),
    ensures
        ({
            let h = hitp(ord, links, j, lvl);
            &&& j <= h <= ord.len()
            &&& forall|m: int| j <= m < h ==> lvl_of(links, #[trigger] ord[m]) <= lvl
            &&& h < ord.len() ==> lvl_of(links, ord[h]) > lvl
        }),
    decreases ord.len() - j,
{
    if j < ord.len() && !(lvl_of(links, ord[j]) > lvl) {
        lemma_hitp(ord, links, j + 1, lvl);
    }
}

/// Position of the recorded predecessor for level `x`: the descent records
/// one per level of the index row; any level above the row starts at the
/// row itself (position `-1`).
pub(crate) open spec fn epos(ps: Seq<int>, hl: int, x: int) -> int {
    if x < hl {
        ps[x]
    } else {
        -1
    }
}

/// The first tall node at or after `j1` lies at or after `j2`: then starting
/// the scan at `j2` finds the same node.
pub(crate) proof fn lemma_hitp_skip(ord: Seq<int>, links: Seq<Vec<usize>>, j1: int, j2: int, lvl: int)
    requires
        0 <= j1 <= j2 <= ord.len(),
        j2 <= hitp(ord, links, j1, lvl),
    ensures
        hitp(ord, links, j2, lvl) == hitp(ord, links, j1, lvl),
    decreases j2 - j1,
{
    if j1 < j2 {
        lemma_hitp(ord, links, j1, lvl);
        lemma_hitp_skip(ord, links, j1 + 1, j2, lvl);
    }
}

/// Inserting a node at position `ins` shifts the chain scan one position to
/// the right for every start beyond the insertion point, and leaves its
/// outcome unchanged.
pub(crate) proof fn lemma_chain_insert_high(
    o: Seq<int>,
    lk: Seq<Vec<usize>>,
    o2: Seq<int>,
    lk2: Seq<Vec<usize>>,
    ins: int,
    ni: int,
    j: int,
    lvl: int,
)
    requires
        0 <= ins <= o.len(),
        o2 == o.insert(ins, ni),
        forall|m: int| 0 <= m < o.len() ==> lvl_of(lk2, #[trigger] o[m]) == lvl_of(lk, o[m]),
        ins < j <= o2.len(),
    ensures
        hitp(o2, lk2, j, lvl) == (if hitp(o, lk, j - 1, lvl) == o.len() {
            o2.len() as int
        } else {
            hitp(o, lk, j - 1, lvl) + 1
        }),
        chainf(o2, lk2, j, lvl) == chainf(o, lk, j - 1, lvl),
    decreases o2.len() - j,
{
    o.insert_ensures(ins, ni);
    if j < o2.len() {
        assert(o2[j] == o[j - 1]);
        if !(lvl_of(lk2, o2[j]) > lvl) {
            lemma_chain_insert_high(o, lk, o2, lk2, ins, ni, j + 1, lvl);
        }
    }
}

/// Inserting a node of level `newlvl` at position `ins` changes the outcome
/// of a chain scan started at or before `ins` only where the scan used to run
/// past the insertion point on a level the new node reaches.
pub(crate) proof fn lemma_chain_insert_low(
    o: Seq<int>,
    lk: Seq<Vec<usize>>,
    o2: Seq<int>,
    lk2: Seq<Vec<usize>>,
    ins: int,
    ni: int,
    newlvl: int,
    j: int,
    lvl: int,
)
    requires
        0 <= ins <= o.len(),
        o2 == o.insert(ins, ni),
        forall|m: int| 0 <= m < o.len() ==> lvl_of(lk2, #[trigger] o[m]) == lvl_of(lk, o[m]),
        lvl_of(lk2, ni) == newlvl,
        0 <= j <= ins,
    ensures
        ({
            let h = hitp(o, lk, j, lvl);
            &&& h < ins ==> hitp(o2, lk2, j, lvl) == h && chainf(o2, lk2, j, lvl) == chainf(
                o,
                lk,
                j,
                lvl,
            )
            &&& h >= ins && lvl < newlvl ==> hitp(o2, lk2, j, lvl) == ins && chainf(
                o2,
                lk2,
                j,
                lvl,
            ) == ni as usize
            &&& h >= ins && lvl >= newlvl ==> hitp(o2, lk2, j, lvl) == (if h == o.len() {
                o2.len() as int
            } else {
                h + 1
            }) && chainf(o2, lk2, j, lvl) == chainf(o, lk, j, lvl)
        }),
    decreases ins - j,
{
    o.insert_ensures(ins, ni);
    lemma_hitp(o, lk, j, lvl);
    if j == ins {
        assert(o2[ins] == ni);
        if !(newlvl > lvl) {
            lemma_chain_insert_high(o, lk, o2, lk2, ins, ni, ins + 1, lvl);
        }
    } else {
        assert(o2[j] == o[j]);
        if !(lvl_of(lk, o[j]) > lvl) {
            lemma_chain_insert_low(o, lk, o2, lk2, ins, ni, newlvl, j + 1, lvl);
        }
    }
}

/// Round trip: inserting a pair under a key that is absent makes lookup of
/// that key yield exactly the value inserted.
pub proof fn lemma_round_trip<V>(m: Map<u64, V>, k: u64, v: V)
    requires
        !m.contains_key(k),
    ensures
        m.insert(k, v).contains_key(k),
        m.insert(k, v)[k] == v,
{
}

/// Not-found correctness: once a key is removed from the map view, a lookup
/// of it finds nothing.
pub proof fn lemma_removed_absent<V>(m: Map<u64, V>, k: u64)
    ensures
        !m.remove(k).contains_key(k),
{
}

/// Removing the node at position `ins` shifts the chain scan one position to
/// the left for every start at or beyond the removal point, and leaves its
/// outcome the outcome of the scan behind the victim.
pub(crate) proof fn lemma_chain_remove_high(
    o: Seq<int>,
    lk: Seq<Vec<usize>>,
    o2: Seq<int>,
    lk2: Seq<Vec<usize>>,
    ins: int,
    j: int,
    lvl: int,
)
    requires
        0 <= ins < o.len(),
        o2 == o.remove(ins),
        forall|m: int| 0 <= m < o.len() ==> lvl_of(lk2, #[trigger] o[m]) == lvl_of(lk, o[m]),
        ins <= j <= o2.len(),
    ensures
        hitp(o2, lk2, j, lvl) == (if hitp(o, lk, j + 1, lvl) == o.len() {
            o2.len() as int
        } else {
            hitp(o, lk, j + 1, lvl) - 1
        }),
        chainf(o2, lk2, j, lvl) == chainf(o, lk, j + 1, lvl),
    decreases o2.len() - j,
{
    o.remove_ensures(ins);
    if j < o2.len() {
        assert(o2[j] == o[j + 1]);
        if !(lvl_of(lk2, o2[j]) > lvl) {
            lemma_chain_remove_high(o, lk, o2, lk2, ins, j + 1, lvl);
        }
    }
}

/// Removing the node at position `ins` changes the outcome of a chain scan
/// started at or before `ins` only where the scan used to stop at or behind
/// the removal point: there it now yields what a scan behind the victim
/// yields.
pub(crate) proof fn lemma_chain_remove_low(
    o: Seq<int>,
    lk: Seq<Vec<usize>>,
    o2: Seq<int>,
    lk2: Seq<Vec<usize>>,
    ins: int,
    j: int,
    lvl: int,
)
    requires
        0 <= ins < o.len(),
        o2 == o.remove(ins),
        forall|m: int| 0 <= m < o.len() ==> lvl_of(lk2, #[trigger] o[m]) == lvl_of(lk, o[m]),
        0 <= j <= ins,
    ensures
        ({
            let h = hitp(o, lk, j, lvl);
            &&& h < ins ==> hitp(o2, lk2, j, lvl) == h && chainf(o2, lk2, j, lvl) == chainf(
                o,
                lk,
                j,
                lvl,
            )
            &&& h >= ins ==> hitp(o2, lk2, j, lvl) == (if hitp(o, lk, ins + 1, lvl) == o.len() {
                o2.len() as int
            } else {
                hitp(o, lk, ins + 1, lvl) - 1
            }) && chainf(o2, lk2, j, lvl) == chainf(o, lk, ins + 1, lvl)
        }),
    decreases ins - j,
{
    o.remove_ensures(ins);
    lemma_hitp(o, lk, j, lvl);
    if j == ins {
        lemma_chain_remove_high(o, lk, o2, lk2, ins, ins, lvl);
    } else {
        assert(o2[j] == o[j]);
        if !(lvl_of(lk, o[j]) > lvl) {
            lemma_chain_remove_low(o, lk, o2, lk2, ins, j + 1, lvl);
        }
    }
}

/// Number of binary digits of `n`: zero for zero, and one more for each
/// halving until the value reaches zero. This is the level cap used when a
/// new node's level is drawn.
pub(crate) open spec fn bitlen(n: nat) -> nat
    decreases n,
{
    if n == 0 {
        0
    } else {
        (1 + bitlen(n / 2)) as nat
    }
}

pub(crate) proof fn lemma_bitlen_le(n: nat)
    ensures
        bitlen(n) <= n,
    decreases n,
{
    if n > 0 {
        lemma_bitlen_le(n / 2);
    }
}

/// Count the binary digits of `n`.
#[verifier::loop_isolation(false)]
fn bit_length(n: usize) -> (r: usize)
    ensures
        r == bitlen(n as nat),
{
    proof {
        lemma_bitlen_le(n as nat);
    }
    let mut m = n;
    let mut r: usize = 0;
    while m > 0
        invariant
            m <= n,
            r + bitlen(m as nat) == bitlen(n as nat),
        decreases m,
    {
        m = m / 2;
        r = r + 1;
    }
    r
}

/// Draw the level of a node about to be inserted into a structure that
/// currently stores `n` elements: starting from one, grow while the source
/// agrees, but never beyond the cap derived from the current size.
fn select_level<G: Generator<bool>>(g: &mut G, n: usize) -> (r: usize)
    ensures
        1 <= r,
        r == 1 || r <= bitlen(n as nat),
{
    let limit = bit_length(n);
    let mut size: usize = 1;
    let mut go = true;
    while go && size < limit
        invariant
            1 <= size,
            limit == bitlen(n as nat),
            size == 1 || size <= bitlen(n as nat),
        decreases (if go {
            1int
        } else {
            0int
        }), limit - size,
    {
        if g.gen() {
            size = size + 1;
        } else {
            go = false;
        }
    }
    size
}

/// An ordered map as a skip list. The nodes are held in an arena of three
/// parallel columns (`keys`, `vals`, `links`), one entry per node ever
/// allocated; a node's forward references are arena indices or `NIL`.
/// `head` is the index row: one entry per currently supported level.
/// Removal detaches a node from every chain and moves its value out; the
/// arena slot itself is retained as permanently dead slack, much as the
/// index row is never shrunk.
pub struct SkipList<V, G: Generator<bool>> {
    pub(crate) gen: G,
    pub(crate) count: usize,
    pub(crate) keys: Vec<u64>,
    pub(crate) vals: Vec<Option<V>>,
    pub(crate) links: Vec<Vec<usize>>,
    pub(crate) head: Vec<usize>,
    /// The arena indices of the live nodes, in ascending key order: the
    /// mathematical skeleton that the chain invariants are stated against.
    pub(crate) order: Ghost<Seq<int>>,
}

impl<V, G: Generator<bool>> SkipList<V, G> {
    /// Number of live nodes.
    pub(crate) open spec fn n(self) -> int {
        self.order@.len() as int
    }

    /// Shape of the arena and of the ascending order: columns of equal
    /// length, live indices in range with strictly increasing keys, a value
    /// present in every live slot, and every level between one and the
    /// height of the index row.
    pub(crate) open spec fn idx_ok(self) -> bool {
        &&& self.vals@.len() == self.keys@.len()
        &&& self.links@.len() == self.keys@.len()
        &&& 1 <= self.head@.len()
        &&& self.count == self.order@.len()
        &&& forall|j: int| 0 <= j < self.n() ==> 0 <= #[trigger] self.order@[j] < self.keys@.len()
        &&& forall|j1: int, j2: int|
            #![trigger self.order@[j1], self.order@[j2]]
            0 <= j1 < j2 < self.n() ==> self.keys@[self.order@[j1]] < self.keys@[self.order@[j2]]
        &&& forall|j: int| 0 <= j < self.n() ==> self.vals@[#[trigger] self.order@[j]] is Some
        &&& forall|j: int|
            0 <= j < self.n() ==> 1 <= lvl_of(self.links@, #[trigger] self.order@[j])
                <= self.head@.len()
    }

    /// Every stored forward reference agrees with the chain model: at each
    /// level, the index row enters the chain at its first node, and each
    /// node on the chain references the next one.
    pub(crate) open spec fn links_ok(self) -> bool {
        &&& forall|lvl: int|
            0 <= lvl < self.head@.len() ==> #[trigger] self.head@[lvl] == chainf(
                self.order@,
                self.links@,
                0,
                lvl,
            )
        &&& forall|j: int, lvl: int|
            #![trigger self.links@[self.order@[j]]@[lvl]]
            0 <= j < self.n() && 0 <= lvl < lvl_of(self.links@, self.order@[j])
                ==> self.links@[self.order@[j]]@[lvl] == chainf(self.order@, self.links@, j + 1, lvl)
    }

    pub(crate) open spec fn inv(self) -> bool {
        self.idx_ok() && self.links_ok()
    }

    /// Internal consistency of the whole structure: established by `new`,
    /// preserved by every operation.
    pub closed spec fn wf(self) -> bool {
        self.inv()
    }

    pub(crate) open spec fn entries_def(self) -> Seq<(u64, V)> {
        Seq::new(
            self.order@.len(),
            |j: int| (self.keys@[self.order@[j]], self.vals@[self.order@[j]]->0),
        )
    }

    /// The stored key/value pairs as the level-0 chain yields them: in
    /// strictly ascending key order.
    pub closed spec fn entries(self) -> Seq<(u64, V)> {
        self.entries_def()
    }

    pub(crate) open spec fn has_key(self, k: u64) -> bool {
        exists|j: int| 0 <= j < self.n() && self.keys@[#[trigger] self.order@[j]] == k
    }

    pub(crate) open spec fn key_pos(self, k: u64) -> int {
        choose|j: int| 0 <= j < self.n() && self.keys@[#[trigger] self.order@[j]] == k
    }

    pub(crate) open spec fn val_of(self, k: u64) -> V {
        self.vals@[self.order@[self.key_pos(k)]]->0
    }

    /// Exported transparency of `wf` for the sibling modules of this crate.
    pub(crate) proof fn lemma_wf_is_inv(self)
        ensures
            self.wf() == self.inv(),
    {
    }

    /// Exported transparency of `entries` for the sibling modules.
    pub(crate) proof fn lemma_entries_is_def(self)
        ensures
            self.entries() == self.entries_def(),
    {
    }

    /// A live handle is a valid arena index and is distinct from `NIL`.
    pub(crate) proof fn lemma_live_handle(self, j: int)
        requires
            self.idx_ok(),
            0 <= j < self.n(),
        ensures
            0 <= self.order@[j] < self.keys@.len(),
            self.order@[j] as usize != NIL,
            self.order@[j] == self.order@[j] as usize as int,
    {
        assert(self.keys@.len() == self.keys.len());
    }

    /// On level 0 every live node is on the chain, so the walk visits the
    /// ascending order position by position.
    pub(crate) proof fn lemma_chain0(self, j: int)
        requires
            self.idx_ok(),
            0 <= j <= self.n(),
        ensures
            j < self.n() ==> hitp(self.order@, self.links@, j, 0) == j,
            j < self.n() ==> chainf(self.order@, self.links@, j, 0) == self.order@[j] as usize
                && chainf(self.order@, self.links@, j, 0) != NIL,
            j == self.n() ==> chainf(self.order@, self.links@, j, 0) == NIL,
    {
        lemma_hitp(self.order@, self.links@, j, 0);
        if j < self.n() {
            let h = hitp(self.order@, self.links@, j, 0);
            if h > j {
                assert(lvl_of(self.links@, self.order@[j]) <= 0);
                assert(false);
            }
            self.lemma_live_handle(j);
        }
    }

    /// A key sitting at position `j` of the ascending order pins down the
    /// map view at that key.
    pub(crate) proof fn lemma_key_at(self, j: int, k: u64)
        requires
            self.idx_ok(),
            0 <= j < self.n(),
            self.keys@[self.order@[j]] == k,
        ensures
            self.has_key(k),
            self.key_pos(k) == j,
            self@.contains_key(k),
            self@[k] == self.vals@[self.order@[j]]->0,
            self.entries()[j] == (k, self.vals@[self.order@[j]]->0),
    {
        assert(self.has_key(k));
        let j2 = self.key_pos(k);
        if j2 != j {
            if j2 < j {
                assert(self.keys@[self.order@[j2]] < self.keys@[self.order@[j]]);
            } else {
                assert(self.keys@[self.order@[j]] < self.keys@[self.order@[j2]]);
            }
            assert(false);
        }
    }

    /// The cursor `at` (a node handle, or `NIL` for the index row) sits at
    /// position `p` of the ascending order (`-1` for the index row) and is
    /// tall enough to carry the chain of level `lvl`.
    pub(crate) open spec fn aligned(self, at: usize, p: int, lvl: int) -> bool {
        if p == -1 {
            at == NIL
        } else {
            &&& 0 <= p < self.n()
            &&& self.order@[p] == at as int
            &&& at != NIL
            &&& lvl_of(self.links@, self.order@[p]) > lvl
        }
    }

    /// The walk of the level-`lvl` chain can go no further without reaching
    /// a key at or above `key`.
    pub(crate) open spec fn stopped(self, p: int, lvl: int, key: u64) -> bool {
        let c = chainf(self.order@, self.links@, p + 1, lvl);
        c == NIL || self.keys@[c as int] >= key
    }

    /// Every key at position `p` or earlier is strictly below `key`.
    pub(crate) open spec fn below(self, p: int, key: u64) -> bool {
        forall|m: int| 0 <= m <= p ==> self.keys@[#[trigger] self.order@[m]] < key
    }

    /// The result of the top-down descent: for every level, the recorded
    /// predecessor is aligned on its chain, lies before the insertion point
    /// of `key`, and stops right in front of it.
    pub(crate) open spec fn preds_ok(self, upd: Seq<usize>, ps: Seq<int>, p: int, key: u64) -> bool {
        &&& upd.len() == self.head@.len()
        &&& ps.len() == self.head@.len()
        &&& -1 <= p < self.n()
        &&& self.below(p, key)
        &&& ps[0] == p
        &&& forall|lvl: int| 0 <= lvl < ps.len() ==> -1 <= #[trigger] ps[lvl] <= p
        &&& forall|lvl: int| 0 <= lvl < ps.len() ==> self.aligned(upd[lvl], #[trigger] ps[lvl], lvl)
        &&& forall|lvl: int| 0 <= lvl < ps.len() ==> self.stopped(#[trigger] ps[lvl], lvl, key)
    }

    /// Between a stopped predecessor and the last position known to hold a
    /// key below `key`, no node is tall enough for the predecessor's level:
    /// otherwise the chain would have reached a key below `key` after the
    /// point where it stopped.
    pub(crate) proof fn lemma_window(self, pl: int, lvl: int, p: int, key: u64)
        requires
            self.idx_ok(),
            -1 <= pl <= p < self.n(),
            0 <= lvl,
            self.below(p, key),
            self.stopped(pl, lvl, key),
        ensures
            forall|m: int| pl < m <= p ==> lvl_of(self.links@, #[trigger] self.order@[m]) <= lvl,
    {
        lemma_hitp(self.order@, self.links@, pl + 1, lvl);
        let h = hitp(self.order@, self.links@, pl + 1, lvl);
        assert forall|m: int| pl < m <= p implies lvl_of(self.links@, self.order@[m]) <= lvl by {
            if lvl_of(self.links@, self.order@[m]) > lvl {
                assert(h <= m);
                assert(h < self.n());
                self.lemma_live_handle(h);
                assert(chainf(self.order@, self.links@, pl + 1, lvl) == self.order@[h] as usize);
                assert(self.keys@[self.order@[h]] >= key);
                assert(self.keys@[self.order@[h]] < key);
            }
        }
    }

    /// Follow one forward reference of the cursor `at` on the chain of level
    /// `lvl`; `NIL` enters through the index row.
    /// Returns the next node of that chain after position `p`.
    fn get_link(&self, at: usize, lvl: usize, Ghost(p): Ghost<int>) -> (r: usize)
        requires
            self.wf(),
            lvl < self.head@.len(),
            -1 <= p,
            self.aligned(at, p, lvl as int),
        ensures
            r == chainf(self.order@, self.links@, p + 1, lvl as int),
    {
        if at == NIL {
            self.head[lvl]
        } else {
            proof {
                self.lemma_live_handle(p);
            }
            let row = &self.links[at];
            row[lvl]
        }
    }

    /// Top-down descent: for every level of the index row, find the last
    /// position whose key is below `key`, carrying the walk position down
    /// from level to level.
    #[verifier::loop_isolation(false)]
    fn find_preds(&self, key: u64) -> (r: (Vec<usize>, Ghost<Seq<int>>, Ghost<int>))
        requires
            self.wf(),
        ensures
            self.preds_ok(r.0@, r.1@, r.2@, key),
    {
        let hl = self.head.len();
        let mut upd: Vec<usize> = Vec::new();
        let mut i: usize = 0;
        while i < hl
            invariant
                upd@.len() == i,
                i <= hl,
            decreases hl - i,
        {
            upd.push(NIL);
            i += 1;
        }
        let ghost mut ps = Seq::<int>::new(hl as nat, |l: int| -1);
        let mut at: usize = NIL;
        let ghost mut p: int = -1;
        let mut lvl: usize = hl;
        while lvl > 0
            invariant
                lvl <= hl,
                upd@.len() == hl,
                ps.len() == hl,
                -1 <= p < self.n(),
                self.aligned(at, p, lvl as int - 1),
                self.below(p, key),
                forall|l: int| lvl <= l < hl ==> -1 <= #[trigger] ps[l] <= p,
                forall|l: int| lvl <= l < hl ==> self.aligned(upd@[l], #[trigger] ps[l], l),
                forall|l: int| lvl <= l < hl ==> self.stopped(#[trigger] ps[l], l, key),
                lvl == 0 ==> ps[0] == p,
            decreases lvl,
        {
            let cur = lvl - 1;
            let ghost p0 = p;
            let mut nxt = self.get_link(at, cur, Ghost(p));
            proof {
                lemma_hitp(self.order@, self.links@, p + 1, cur as int);
                if nxt != NIL {
                    self.lemma_live_handle(hitp(self.order@, self.links@, p + 1, cur as int));
                }
            }
            while nxt != NIL && self.keys[nxt] < key
                invariant
                    -1 <= p < self.n(),
                    p0 <= p,
                    self.aligned(at, p, cur as int),
                    self.below(p, key),
                    nxt == chainf(self.order@, self.links@, p + 1, cur as int),
                    nxt != NIL ==> hitp(self.order@, self.links@, p + 1, cur as int) < self.n()
                        && nxt < self.keys@.len() && nxt as int == self.order@[hitp(
                        self.order@,
                        self.links@,
                        p + 1,
                        cur as int,
                    )],
                decreases self.n() - p,
            {
                let ghost h = hitp(self.order@, self.links@, p + 1, cur as int);
                proof {
                    lemma_hitp(self.order@, self.links@, p + 1, cur as int);
                    self.lemma_live_handle(h);
                    assert(self.keys@[self.order@[h]] < key);
                    assert forall|m: int| 0 <= m <= h implies self.keys@[#[trigger] self.order@[m]]
                        < key by {
                        if m < h && m > p {
                            assert(self.keys@[self.order@[m]] < self.keys@[self.order@[h]]);
                        }
                    }
                    p = h;
                }
                at = nxt;
                nxt = self.get_link(at, cur, Ghost(p));
                proof {
                    lemma_hitp(self.order@, self.links@, p + 1, cur as int);
                    if nxt != NIL {
                        self.lemma_live_handle(hitp(self.order@, self.links@, p + 1, cur as int));
                    }
                }
            }
            upd[cur] = at;
            proof {
                ps = ps.update(cur as int, p);
            }
            lvl = cur;
        }
        (upd, Ghost(ps), Ghost(p))
    }

    /// No node holds `key` when the level-0 walk stopped in front of a
    /// different (or no) key.
    pub(crate) proof fn lemma_absent(self, p: int, key: u64)
        requires
            self.idx_ok(),
            -1 <= p < self.n(),
            self.below(p, key),
            self.stopped(p, 0, key),
            ({
                let c = chainf(self.order@, self.links@, p + 1, 0);
                c == NIL || self.keys@[c as int] != key
            }),
        ensures
            !self.has_key(key),
            !self@.contains_key(key),
    {
        self.lemma_chain0(p + 1);
        if self.has_key(key) {
            let j = choose|j: int|
                0 <= j < self.n() && self.keys@[#[trigger] self.order@[j]] == key;
            assert(self.keys@[self.order@[j]] == key);
            if j <= p {
                assert(self.keys@[self.order@[j]] < key);
            } else {
                assert(p + 1 < self.n());
                self.lemma_live_handle(p + 1);
                let c = chainf(self.order@, self.links@, p + 1, 0);
                assert(c as int == self.order@[p + 1]);
                if j == p + 1 {
                    assert(self.keys@[c as int] == key);
                } else {
                    assert(self.keys@[self.order@[p + 1]] < self.keys@[self.order@[j]]);
                    assert(self.keys@[c as int] >= key);
                }
            }
            assert(false);
        }
    }

    /// Read-only lookup.
    pub fn search(&self, key: &u64) -> (r: Option<&V>)
        requires
            self.wf(),
        ensures
            (match r {
                Some(v) => self@.contains_key(*key) && *v == self@[*key],
                None => !self@.contains_key(*key),
            }),
    {
        let (upd, ps, pg) = self.find_preds(*key);
        let ghost p = pg@;
        let c = self.get_link(upd[0], 0, Ghost(p));
        proof {
            self.lemma_chain0(p + 1);
        }
        if c != NIL && self.keys[c] == *key {
            proof {
                assert(p + 1 < self.n());
                self.lemma_live_handle(p + 1);
                assert(c as int == self.order@[p + 1]);
                self.lemma_key_at(p + 1, *key);
            }
            let v = self.vals[c].as_ref().unwrap();
            Some(v)
        } else {
            proof {
                self.lemma_absent(p, *key);
            }
            None
        }
    }

    /// Every key after position `p` is strictly above `key` once the level-0
    /// walk has stopped there without meeting `key`.
    pub(crate) proof fn lemma_above(self, p: int, key: u64)
        requires
            self.idx_ok(),
            -1 <= p < self.n(),
            self.below(p, key),
            self.stopped(p, 0, key),
            ({
                let c = chainf(self.order@, self.links@, p + 1, 0);
                c == NIL || self.keys@[c as int] != key
            }),
        ensures
            forall|m: int| p < m < self.n() ==> self.keys@[#[trigger] self.order@[m]] > key,
    {
        self.lemma_chain0(p + 1);
        if p + 1 < self.n() {
            self.lemma_live_handle(p + 1);
        }
        assert forall|m: int| p < m < self.n() implies self.keys@[#[trigger] self.order@[m]]
            > key by {
            assert(self.keys@[self.order@[p + 1]] >= key);
            if m > p + 1 {
                assert(self.keys@[self.order@[p + 1]] < self.keys@[self.order@[m]]);
            }
        }
    }

    /// How the structure `t` is built out of `self` when a node with key
    /// `key`, value `value`, arena slot `ni` and level `nl` is spliced in
    /// after the descent recorded predecessors `(upd, ps)` and final
    /// position `p`.
    pub(crate) open spec fn splice_shape(
        self,
        t: Self,
        upd: Seq<usize>,
        ps: Seq<int>,
        p: int,
        key: u64,
        value: V,
        ni: usize,
        nl: int,
    ) -> bool {
        let o = self.order@;
        let lk = self.links@;
        let hli = self.head@.len() as int;
        &&& self.inv()
        &&& self.preds_ok(upd, ps, p, key)
        &&& ({
            let c = chainf(o, lk, p + 1, 0);
            c == NIL || self.keys@[c as int] != key
        })
        &&& 1 <= nl
        &&& ni as int == self.keys@.len()
        &&& t.keys@ == self.keys@.push(key)
        &&& t.vals@ == self.vals@.push(Some(value))
        &&& t.count == self.count + 1
        &&& t.order@ == o.insert(p + 1, ni as int)
        &&& t.links@.len() == self.links@.len() + 1
        &&& t.links@[ni as int]@.len() == nl
        &&& forall|y: int|
            0 <= y < nl ==> #[trigger] t.links@[ni as int]@[y] == (if y < hli {
                chainf(o, lk, ps[y] + 1, y)
            } else {
                NIL
            })
        &&& forall|i: int|
            0 <= i < self.links@.len() ==> #[trigger] t.links@[i]@.len() == self.links@[i]@.len()
        &&& forall|i: int, y: int|
            0 <= i < self.links@.len() && 0 <= y < self.links@[i]@.len()
                ==> #[trigger] t.links@[i]@[y] == (if y < nl && y < hli && ps[y] >= 0 && i
                == o[ps[y]] {
                ni
            } else {
                self.links@[i]@[y]
            })
        &&& t.head@.len() == (if nl <= hli {
            hli
        } else {
            nl
        })
        &&& forall|y: int|
            0 <= y < hli ==> #[trigger] t.head@[y] == (if y < nl && ps[y] == -1 {
                ni
            } else {
                self.head@[y]
            })
        &&& forall|y: int| hli <= y < nl ==> #[trigger] t.head@[y] == ni
    }

    /// A splice preserves the arena and order invariants.
    #[verifier::rlimit(100)]
    pub(crate) proof fn lemma_splice_idx(
        self,
        t: Self,
        upd: Seq<usize>,
        ps: Seq<int>,
        p: int,
        key: u64,
        value: V,
        ni: usize,
        nl: int,
    )
        requires
            self.splice_shape(t, upd, ps, p, key, value, ni, nl),
        ensures
            t.idx_ok(),
    {
        let o = self.order@;
        let o2 = t.order@;
        let ins = p + 1;
        o.insert_ensures(ins, ni as int);
        self.lemma_above(p, key);
        assert forall|m: int| 0 <= m < self.n() implies 0 <= #[trigger] o[m] < self.keys@.len()
            && t.keys@[o[m]] == self.keys@[o[m]] && t.vals@[o[m]] == self.vals@[o[m]] && lvl_of(
            t.links@,
            o[m],
        ) == lvl_of(self.links@, o[m]) by {
            self.lemma_live_handle(m);
        }
        assert forall|j1: int, j2: int|
            #![trigger o2[j1], o2[j2]]
            0 <= j1 < j2 < o2.len() implies t.keys@[o2[j1]] < t.keys@[o2[j2]] by {
            if j1 < ins && j2 < ins {
            } else if j1 > ins && j2 > ins {
            }
        }
    }

    /// A splice leaves every chain of the structure agreeing with the chain
    /// model again.
    #[verifier::rlimit(100)]
    pub(crate) proof fn lemma_splice_links(
        self,
        t: Self,
        upd: Seq<usize>,
        ps: Seq<int>,
        p: int,
        key: u64,
        value: V,
        ni: usize,
        nl: int,
    )
        requires
            self.splice_shape(t, upd, ps, p, key, value, ni, nl),
        ensures
            t.links_ok(),
    {
        let o = self.order@;
        let lk = self.links@;
        let o2 = t.order@;
        let lk2 = t.links@;
        let hli = self.head@.len() as int;
        let ins = p + 1;
        let n0 = self.n();
        let hl2 = t.head@.len() as int;
        o.insert_ensures(ins, ni as int);
        self.lemma_above(p, key);
        assert forall|m: int| 0 <= m < n0 implies lvl_of(lk2, #[trigger] o[m]) == lvl_of(
            lk,
            o[m],
        ) by {
            self.lemma_live_handle(m);
        }
        assert(lvl_of(lk2, ni as int) == nl);
        // The scan from any recorded predecessor runs straight to the
        // insertion point on every level the new node reaches.
        assert forall|y: int| 0 <= y < nl implies hitp(o, lk, epos(ps, hli, y) + 1, y) >= ins by {
            lemma_hitp(o, lk, epos(ps, hli, y) + 1, y);
            let h = hitp(o, lk, epos(ps, hli, y) + 1, y);
            if h < ins {
                if y < hli {
                    self.lemma_window(ps[y], y, p, key);
                    assert(lvl_of(lk, o[h]) <= y);
                } else {
                    assert(lvl_of(lk, o[h]) <= self.head@.len());
                }
                assert(false);
            }
        }
        // Index row entries.
        assert forall|y: int| 0 <= y < hl2 implies #[trigger] t.head@[y] == chainf(
            o2,
            lk2,
            0,
            y,
        ) by {
            lemma_chain_insert_low(o, lk, o2, lk2, ins, ni as int, nl, 0, y);
            lemma_hitp(o, lk, 0, y);
            let h = hitp(o, lk, 0, y);
            if y < nl {
                if y < hli && ps[y] >= 0 {
                    assert(lvl_of(lk, o[ps[y]]) > y);
                    assert(h <= ps[y]);
                    assert(t.head@[y] == self.head@[y]);
                } else {
                    assert(epos(ps, hli, y) == -1);
                    assert(h >= ins);
                    assert(t.head@[y] == ni);
                }
            } else {
                assert(y < hli);
                assert(t.head@[y] == self.head@[y]);
            }
        }
        // Forward rows of the live nodes.
        assert forall|j: int, y: int|
            #![trigger lk2[o2[j]]@[y]]
            0 <= j < o2.len() && 0 <= y < lvl_of(lk2, o2[j]) implies lk2[o2[j]]@[y] == chainf(
            o2,
            lk2,
            j + 1,
            y,
        ) by {
            if j == ins {
                assert(o2[j] == ni as int);
                assert(lk2[ni as int]@[y] == (if y < hli {
                    chainf(o, lk, ps[y] + 1, y)
                } else {
                    NIL
                }));
                lemma_chain_insert_high(o, lk, o2, lk2, ins, ni as int, ins + 1, y);
                lemma_hitp(o, lk, epos(ps, hli, y) + 1, y);
                lemma_hitp_skip(o, lk, epos(ps, hli, y) + 1, ins, y);
                if y >= hli {
                    lemma_hitp(o, lk, ins, y);
                    let h2 = hitp(o, lk, ins, y);
                    if h2 < n0 {
                        assert(lvl_of(lk, o[h2]) <= self.head@.len());
                        assert(false);
                    }
                }
            } else if j < ins {
                let nd = o2[j];
                assert(nd == o[j]);
                self.lemma_live_handle(j);
                lemma_chain_insert_low(o, lk, o2, lk2, ins, ni as int, nl, j + 1, y);
                lemma_hitp(o, lk, j + 1, y);
                let h = hitp(o, lk, j + 1, y);
                if y < nl && y < hli && ps[y] >= 0 && j == ps[y] {
                    assert(h >= ins) by {
                        if h < ins {
                            self.lemma_window(ps[y], y, p, key);
                            assert(lvl_of(lk, o[h]) <= y);
                        }
                    }
                    assert(lk2[nd]@[y] == ni);
                } else {
                    assert(lk2[nd]@[y] == lk[nd]@[y]);
                    assert(lk[nd]@[y] == chainf(o, lk, j + 1, y));
                    if h >= ins && y < nl {
                        // Then `j` itself would have been recorded as the
                        // predecessor for this level.
                        assert(lvl_of(lk, o[j]) > y);
                        if y >= hli {
                            assert(lvl_of(lk, o[j]) <= self.head@.len());
                            assert(false);
                        } else if ps[y] == -1 {
                            self.lemma_window(ps[y], y, p, key);
                            assert(lvl_of(lk, o[j]) <= y);
                            assert(false);
                        } else if j < ps[y] {
                            assert(lvl_of(lk, o[ps[y]]) > y);
                            assert(h <= ps[y]);
                            assert(false);
                        } else {
                            self.lemma_window(ps[y], y, p, key);
                            assert(ps[y] < j < ins);
                            assert(lvl_of(lk, o[j]) <= y);
                            assert(false);
                        }
                    }
                }
            } else {
                let nd = o2[j];
                assert(nd == o[j - 1]);
                self.lemma_live_handle(j - 1);
                assert(lk2[nd]@[y] == lk[nd]@[y]) by {
                    if y < nl && y < hli && ps[y] >= 0 && nd == o[ps[y]] {
                        self.lemma_live_handle(ps[y]);
                        assert(self.keys@[o[ps[y]]] < key);
                        assert(self.keys@[o[j - 1]] > key);
                        assert(false);
                    }
                }
                assert(lk[nd]@[y] == chainf(o, lk, j, y));
                lemma_chain_insert_high(o, lk, o2, lk2, ins, ni as int, j + 1, y);
            }
        }
    }

    /// A splice adds exactly the new pair to both models.
    #[verifier::rlimit(100)]
    pub(crate) proof fn lemma_splice_views(
        self,
        t: Self,
        upd: Seq<usize>,
        ps: Seq<int>,
        p: int,
        key: u64,
        value: V,
        ni: usize,
        nl: int,
    )
        requires
            self.splice_shape(t, upd, ps, p, key, value, ni, nl),
            t.idx_ok(),
        ensures
            t.entries_def() == self.entries_def().insert(p + 1, (key, value)),
            t@ == self@.insert(key, value),
    {
        let o = self.order@;
        let o2 = t.order@;
        let ins = p + 1;
        o.insert_ensures(ins, ni as int);
        assert(t.entries_def() =~= self.entries_def().insert(ins, (key, value))) by {
            self.entries_def().insert_ensures(ins, (key, value));
            assert forall|j: int| 0 <= j < o2.len() implies t.entries_def()[j]
                == self.entries_def().insert(ins, (key, value))[j] by {
                if j < ins {
                    self.lemma_live_handle(j);
                } else if j > ins {
                    self.lemma_live_handle(j - 1);
                }
            }
        }
        let m2 = self@.insert(key, value);
        assert_maps_equal!(t@, m2, k => {
            if k == key {
                t.lemma_key_at(ins, key);
            } else {
                if self.has_key(k) {
                    let j = self.key_pos(k);
                    self.lemma_key_at(j, k);
                    self.lemma_live_handle(j);
                    if j < ins {
                        t.lemma_key_at(j, k);
                    } else {
                        t.lemma_key_at(j + 1, k);
                    }
                    assert(t@.contains_key(k));
                } else {
                    if t.has_key(k) {
                        let j2 = choose|j2: int|
                            0 <= j2 < t.n() && t.keys@[#[trigger] t.order@[j2]] == k;
                        if j2 < ins {
                            self.lemma_live_handle(j2);
                            assert(self.has_key(k));
                        } else if j2 == ins {
                            assert(k == key);
                        } else {
                            self.lemma_live_handle(j2 - 1);
                            assert(self.has_key(k));
                        }
                        assert(false);
                    }
                    assert(!t@.contains_key(k));
                    assert(!m2.contains_key(k));
                }
            }
        });
    }

    /// Two distinct positions of the ascending order hold distinct arena
    /// handles, since their keys differ.
    pub(crate) proof fn lemma_distinct(self, j1: int, j2: int)
        requires
            self.idx_ok(),
            0 <= j1 < self.n(),
            0 <= j2 < self.n(),
            j1 != j2,
        ensures
            self.order@[j1] != self.order@[j2],
    {
        if j1 < j2 {
            assert(self.keys@[self.order@[j1]] < self.keys@[self.order@[j2]]);
        } else {
            assert(self.keys@[self.order@[j2]] < self.keys@[self.order@[j1]]);
        }
    }

    /// How the structure `t` is built out of `self` when the node at
    /// position `p + 1`, holding `key` in arena slot `vi` with level `vl`,
    /// is detached from every chain after the descent recorded predecessors
    /// `(upd, ps)`.
    pub(crate) open spec fn unsplice_shape(
        self,
        t: Self,
        upd: Seq<usize>,
        ps: Seq<int>,
        p: int,
        key: u64,
        vi: usize,
        vl: int,
    ) -> bool {
        let o = self.order@;
        let lk = self.links@;
        let hli = self.head@.len() as int;
        let ins = p + 1;
        &&& self.inv()
        &&& self.preds_ok(upd, ps, p, key)
        &&& 0 <= ins < self.n()
        &&& vi as int == o[ins]
        &&& self.keys@[o[ins]] == key
        &&& vl == lvl_of(lk, o[ins])
        &&& t.keys@ == self.keys@
        &&& t.vals@ == self.vals@.update(o[ins], None)
        &&& t.count == self.count - 1
        &&& t.order@ == o.remove(ins)
        &&& t.links@.len() == self.links@.len()
        &&& forall|i: int|
            0 <= i < self.links@.len() ==> #[trigger] t.links@[i]@.len() == self.links@[i]@.len()
        &&& forall|i: int, y: int|
            0 <= i < self.links@.len() && 0 <= y < self.links@[i]@.len()
                ==> #[trigger] t.links@[i]@[y] == (if y < vl && y < hli && ps[y] >= 0 && i
                == o[ps[y]] {
                self.links@[o[ins]]@[y]
            } else {
                self.links@[i]@[y]
            })
        &&& t.head@.len() == hli
        &&& forall|y: int|
            0 <= y < hli ==> #[trigger] t.head@[y] == (if y < vl && ps[y] == -1 {
                self.links@[o[ins]]@[y]
            } else {
                self.head@[y]
            })
    }

    /// Detaching a node preserves the arena and order invariants.
    #[verifier::rlimit(100)]
    pub(crate) proof fn lemma_unsplice_idx(
        self,
        t: Self,
        upd: Seq<usize>,
        ps: Seq<int>,
        p: int,
        key: u64,
        vi: usize,
        vl: int,
    )
        requires
            self.unsplice_shape(t, upd, ps, p, key, vi, vl),
        ensures
            t.idx_ok(),
    {
        let o = self.order@;
        let o2 = t.order@;
        let ins = p + 1;
        o.remove_ensures(ins);
        assert forall|j: int| 0 <= j < o2.len() implies 0 <= #[trigger] o2[j] < t.keys@.len()
            && t.vals@[o2[j]] == self.vals@[o2[j]] && lvl_of(t.links@, o2[j]) == lvl_of(
            self.links@,
            o2[j],
        ) by {
            if j < ins {
                self.lemma_distinct(j, ins);
            } else {
                self.lemma_distinct(j + 1, ins);
            }
        }
        assert forall|j1: int, j2: int|
            #![trigger o2[j1], o2[j2]]
            0 <= j1 < j2 < o2.len() implies t.keys@[o2[j1]] < t.keys@[o2[j2]] by {}
    }

    /// Detaching a node leaves every chain agreeing with the chain model of
    /// the shortened order.
    #[verifier::rlimit(100)]
    pub(crate) proof fn lemma_unsplice_links(
        self,
        t: Self,
        upd: Seq<usize>,
        ps: Seq<int>,
        p: int,
        key: u64,
        vi: usize,
        vl: int,
    )
        requires
            self.unsplice_shape(t, upd, ps, p, key, vi, vl),
        ensures
            t.links_ok(),
    {
        let o = self.order@;
        let lk = self.links@;
        let o2 = t.order@;
        let lk2 = t.links@;
        let hli = self.head@.len() as int;
        let ins = p + 1;
        let n0 = self.n();
        o.remove_ensures(ins);
        assert forall|m: int| 0 <= m < n0 implies lvl_of(lk2, #[trigger] o[m]) == lvl_of(
            lk,
            o[m],
        ) by {
            self.lemma_live_handle(m);
        }
        // On every level the victim reaches, the scan from the recorded
        // predecessor stops exactly at the victim.
        assert forall|y: int| 0 <= y < vl implies hitp(o, lk, epos(ps, hli, y) + 1, y) == ins by {
            lemma_hitp(o, lk, epos(ps, hli, y) + 1, y);
            let h = hitp(o, lk, epos(ps, hli, y) + 1, y);
            assert(y < hli);
            self.lemma_window(ps[y], y, p, key);
            if h < ins {
                assert(lvl_of(lk, o[h]) <= y);
                assert(false);
            }
            if h > ins {
                assert(lvl_of(lk, o[ins]) <= y);
                assert(false);
            }
        }
        // Index row entries.
        assert forall|y: int| 0 <= y < hli implies #[trigger] t.head@[y] == chainf(
            o2,
            lk2,
            0,
            y,
        ) by {
            lemma_chain_remove_low(o, lk, o2, lk2, ins, 0, y);
            lemma_hitp(o, lk, 0, y);
            let h = hitp(o, lk, 0, y);
            if y < vl && ps[y] == -1 {
                lemma_hitp_skip(o, lk, 0, epos(ps, hli, y) + 1, y);
                assert(h == ins);
                assert(t.head@[y] == lk[o[ins]]@[y]);
                assert(lk[o[ins]]@[y] == chainf(o, lk, ins + 1, y));
            } else if y < vl {
                assert(lvl_of(lk, o[ps[y]]) > y);
                assert(h <= ps[y]);
                assert(t.head@[y] == self.head@[y]);
            } else {
                assert(t.head@[y] == self.head@[y]);
                if h >= ins {
                    assert(h != ins) by {
                        if h == ins {
                            assert(lvl_of(lk, o[ins]) > y);
                        }
                    }
                    lemma_hitp_skip(o, lk, 0, ins + 1, y);
                    assert(chainf(o, lk, ins + 1, y) == chainf(o, lk, 0, y));
                }
            }
        }
        // Forward rows of the remaining live nodes.
        assert forall|j: int, y: int|
            #![trigger lk2[o2[j]]@[y]]
            0 <= j < o2.len() && 0 <= y < lvl_of(lk2, o2[j]) implies lk2[o2[j]]@[y] == chainf(
            o2,
            lk2,
            j + 1,
            y,
        ) by {
            if j < ins {
                let nd = o2[j];
                assert(nd == o[j]);
                self.lemma_live_handle(j);
                self.lemma_distinct(j, ins);
                lemma_chain_remove_low(o, lk, o2, lk2, ins, j + 1, y);
                lemma_hitp(o, lk, j + 1, y);
                let h = hitp(o, lk, j + 1, y);
                if y < vl && y < hli && ps[y] >= 0 && j == ps[y] {
                    lemma_hitp_skip(o, lk, j + 1, epos(ps, hli, y) + 1, y);
                    assert(h == ins);
                    assert(lk2[nd]@[y] == lk[o[ins]]@[y]);
                    assert(lk[o[ins]]@[y] == chainf(o, lk, ins + 1, y));
                } else {
                    assert(lk2[nd]@[y] == lk[nd]@[y]) by {
                        if y < vl && y < hli && ps[y] >= 0 && nd == o[ps[y]] {
                            self.lemma_distinct(j, ps[y]);
                        }
                    }
                    assert(lk[nd]@[y] == chainf(o, lk, j + 1, y));
                    if h >= ins {
                        assert(h != ins) by {
                            if h == ins {
                                assert(lvl_of(lk, o[ins]) > y);
                                assert(y < vl);
                                self.lemma_window(ps[y], y, p, key);
                                if ps[y] == -1 {
                                    assert(lvl_of(lk, o[j]) <= y);
                                } else if j < ps[y] {
                                    assert(lvl_of(lk, o[ps[y]]) > y);
                                    assert(h <= ps[y]);
                                } else {
                                    assert(ps[y] < j < ins);
                                    assert(lvl_of(lk, o[j]) <= y);
                                }
                                assert(false);
                            }
                        }
                        lemma_hitp_skip(o, lk, j + 1, ins + 1, y);
                        assert(chainf(o, lk, ins + 1, y) == chainf(o, lk, j + 1, y));
                    }
                }
            } else {
                let nd = o2[j];
                assert(nd == o[j + 1]);
                self.lemma_live_handle(j + 1);
                self.lemma_distinct(j + 1, ins);
                assert(lk2[nd]@[y] == lk[nd]@[y]) by {
                    if y < vl && y < hli && ps[y] >= 0 && nd == o[ps[y]] {
                        self.lemma_distinct(j + 1, ps[y]);
                    }
                }
                assert(lk[nd]@[y] == chainf(o, lk, j + 2, y));
                lemma_chain_remove_high(o, lk, o2, lk2, ins, j + 1, y);
            }
        }
    }

    /// Detaching a node removes exactly its pair from both models.
    #[verifier::rlimit(100)]
    pub(crate) proof fn lemma_unsplice_views(
        self,
        t: Self,
        upd: Seq<usize>,
        ps: Seq<int>,
        p: int,
        key: u64,
        vi: usize,
        vl: int,
    )
        requires
            self.unsplice_shape(t, upd, ps, p, key, vi, vl),
            t.idx_ok(),
        ensures
            t.entries_def() == self.entries_def().remove(p + 1),
            t@ == self@.remove(key),
    {
        let o = self.order@;
        let o2 = t.order@;
        let ins = p + 1;
        o.remove_ensures(ins);
        assert(t.entries_def() =~= self.entries_def().remove(ins)) by {
            self.entries_def().remove_ensures(ins);
            assert forall|j: int| 0 <= j < o2.len() implies t.entries_def()[j]
                == self.entries_def().remove(ins)[j] by {
                if j < ins {
                    self.lemma_live_handle(j);
                    self.lemma_distinct(j, ins);
                } else {
                    self.lemma_live_handle(j + 1);
                    self.lemma_distinct(j + 1, ins);
                }
            }
        }
        let m2 = self@.remove(key);
        assert_maps_equal!(t@, m2, k => {
            if k == key {
                if t.has_key(k) {
                    let j2 = choose|j2: int|
                        0 <= j2 < t.n() && t.keys@[#[trigger] t.order@[j2]] == k;
                    if j2 < ins {
                        self.lemma_key_at(j2, k);
                        self.lemma_key_at(ins, k);
                    } else {
                        self.lemma_key_at(j2 + 1, k);
                        self.lemma_key_at(ins, k);
                    }
                    assert(false);
                }
                assert(!t@.contains_key(k));
            } else {
                if self.has_key(k) {
                    let j = self.key_pos(k);
                    self.lemma_key_at(j, k);
                    self.lemma_live_handle(j);
                    self.lemma_distinct(j, ins);
                    if j < ins {
                        t.lemma_key_at(j, k);
                    } else {
                        t.lemma_key_at(j - 1, k);
                    }
                    assert(t@.contains_key(k));
                } else {
                    if t.has_key(k) {
                        let j2 = choose|j2: int|
                            0 <= j2 < t.n() && t.keys@[#[trigger] t.order@[j2]] == k;
                        if j2 < ins {
                            self.lemma_live_handle(j2);
                            assert(self.has_key(k));
                        } else {
                            self.lemma_live_handle(j2 + 1);
                            assert(self.has_key(k));
                        }
                        assert(false);
                    }
                    assert(!t@.contains_key(k));
                    assert(!m2.contains_key(k));
                }
            }
        });
    }

    /// Remove the pair stored under `key` and hand it back; fails, leaving
    /// the structure untouched, when the key is absent. The index row is
    /// never shrunk, even when the removed node was the only one on its top
    /// levels.
    #[verifier::loop_isolation(false)]
    #[verifier::rlimit(100)]
    pub fn remove(&mut self, key: &u64) -> (r: Result<(u64, V), ()>)
        requires
            old(self).wf(),
        ensures
            final(self).wf(),
            (match r {
                Ok((k, v)) => {
                    &&& old(self)@.contains_key(*key)
                    &&& k == *key
                    &&& v == old(self)@[*key]
                    &&& final(self)@ == old(self)@.remove(*key)
                    &&& final(self).entries().len() + 1 == old(self).entries().len()
                    &&& exists|j: int|
                        0 <= j < old(self).entries().len() && old(self).entries()[j] == (k, v)
                            && final(self).entries() == #[trigger] old(self).entries().remove(j)
                },
                Err(()) => {
                    &&& !old(self)@.contains_key(*key)
                    &&& final(self)@ == old(self)@
                    &&& final(self).entries() == old(self).entries()
                },
            }),
    {
        let ghost s = *self;
        let (upd, psg, pg) = self.find_preds(*key);
        let ghost ps = psg@;
        let ghost p = pg@;
        let ghost o = s.order@;
        let ghost lk = s.links@;
        let ghost ins = p + 1;
        let c = self.get_link(upd[0], 0, Ghost(p));
        proof {
            self.lemma_chain0(p + 1);
        }
        if c == NIL {
            proof {
                self.lemma_absent(p, *key);
            }
            return Err(());
        }
        proof {
            assert(p + 1 < self.n());
            self.lemma_live_handle(p + 1);
            assert(c as int == self.order@[p + 1]);
        }
        if self.keys[c] != *key {
            proof {
                self.lemma_absent(p, *key);
            }
            return Err(());
        }
        proof {
            self.lemma_key_at(ins, *key);
        }
        let hl = self.head.len();
        let vl = self.links[c].len();
        proof {
            assert(vl as int == lvl_of(lk, o[ins]));
            assert(vl <= hl);
        }
        // Detach the victim from every chain it appears on: each recorded
        // predecessor takes over the victim's own forward reference.
        let mut x: usize = 0;
        while x < vl
            invariant
                x <= vl,
                self.keys@ == s.keys@,
                self.vals@ == s.vals@,
                self.order@ == o,
                self.count == s.count,
                self.head@.len() == hl as int,
                self.links@.len() == s.links@.len(),
                forall|i: int|
                    0 <= i < s.links@.len() ==> #[trigger] self.links@[i]@.len()
                        == s.links@[i]@.len(),
                self.links@[c as int]@ == s.links@[c as int]@,
                forall|i: int, y: int|
                    0 <= i < s.links@.len() && 0 <= y < s.links@[i]@.len()
                        ==> #[trigger] self.links@[i]@[y] == (if y < x as int && y < hl as int
                        && ps[y] >= 0 && i == o[ps[y]] {
                        s.links@[c as int]@[y]
                    } else {
                        s.links@[i]@[y]
                    }),
                forall|y: int|
                    0 <= y < hl ==> #[trigger] self.head@[y] == (if y < x as int && ps[y] == -1 {
                        s.links@[c as int]@[y]
                    } else {
                        s.head@[y]
                    }),
            decreases vl - x,
        {
            let target = self.links[c][x];
            let pr = upd[x];
            proof {
                assert(s.aligned(upd@[x as int], ps[x as int], x as int));
                if ps[x as int] >= 0 {
                    s.lemma_live_handle(ps[x as int]);
                    s.lemma_distinct(ps[x as int], ins);
                }
            }
            if pr == NIL {
                self.head[x] = target;
            } else {
                self.links[pr][x] = target;
            }
            x += 1;
        }
        // Move the value out; the arena slot goes permanently dead.
        let slot = &mut self.vals[c];
        let taken = slot.take();
        proof {
            assert(s.vals@[o[ins]] is Some);
        }
        let v = taken.unwrap();
        let k = self.keys[c];
        self.count = self.count - 1;
        self.order = Ghost(o.remove(ins));
        proof {
            assert(s.unsplice_shape(*self, upd@, ps, p, *key, c, vl as int));
            s.lemma_unsplice_idx(*self, upd@, ps, p, *key, c, vl as int);
            s.lemma_unsplice_links(*self, upd@, ps, p, *key, c, vl as int);
            s.lemma_unsplice_views(*self, upd@, ps, p, *key, c, vl as int);
            assert(s.entries()[ins] == (k, v));
            assert(self.entries() == s.entries().remove(ins));
        }
        Ok((k, v))
    }

    /// Insert a pair whose key is not yet present. A duplicate key is
    /// rejected: the pair is handed back unchanged and the structure is not
    /// touched — there is no update in place. The structure can hold at most
    /// `usize::MAX - 1` elements, a machine limit.
    #[verifier::loop_isolation(false)]
    #[verifier::rlimit(100)]
    pub fn insert(&mut self, key: u64, value: V) -> (r: Result<(), (u64, V)>)
        requires
            old(self).wf(),
            old(self).entries().len() < usize::MAX,
        ensures
            final(self).wf(),
            (match r {
                Ok(()) => {
                    &&& !old(self)@.contains_key(key)
                    &&& final(self)@ == old(self)@.insert(key, value)
                    &&& final(self).entries().len() == old(self).entries().len() + 1
                    &&& exists|j: int|
                        0 <= j <= old(self).entries().len() && final(self).entries()
                            == #[trigger] old(self).entries().insert(j, (key, value))
                },
                Err((k, v)) => {
                    &&& k == key
                    &&& v == value
                    &&& old(self)@.contains_key(key)
                    &&& final(self)@ == old(self)@
                    &&& final(self).entries() == old(self).entries()
                },
            }),
    {
        let ghost s = *self;
        let (upd, psg, pg) = self.find_preds(key);
        let ghost ps = psg@;
        let ghost p = pg@;
        let ghost o = s.order@;
        let ghost lk = s.links@;
        let ghost n0 = o.len() as int;
        let ghost ins = p + 1;
        let c = self.get_link(upd[0], 0, Ghost(p));
        proof {
            self.lemma_chain0(p + 1);
        }
        if c != NIL && self.keys[c] == key {
            proof {
                assert(p + 1 < self.n());
                self.lemma_live_handle(p + 1);
                self.lemma_key_at(p + 1, key);
            }
            return Err((key, value));
        }
        proof {
            self.lemma_absent(p, key);
        }
        let hl = self.head.len();
        // The chain target in front of the insertion point, per level of the
        // index row, read before anything changes.
        let mut targets: Vec<usize> = Vec::new();
        let mut l: usize = 0;
        while l < hl
            invariant
                l <= hl,
                targets@.len() == l,
                forall|x: int| 0 <= x < l ==> #[trigger] targets@[x] == chainf(o, lk, ps[x] + 1, x),
            decreases hl - l,
        {
            let t = self.get_link(upd[l], l, Ghost(ps[l as int]));
            targets.push(t);
            l += 1;
        }
        // Draw the level of the new node from the pre-insertion count.
        let newlvl = select_level(&mut self.gen, self.count);
        // The new node's forward row: what the predecessors used to reference.
        let mut row: Vec<usize> = Vec::new();
        let mut l1: usize = 0;
        while l1 < newlvl
            invariant
                l1 <= newlvl,
                row@.len() == l1,
                forall|x: int|
                    0 <= x < l1 ==> #[trigger] row@[x] == (if x < hl as int {
                        chainf(o, lk, ps[x] + 1, x)
                    } else {
                        NIL
                    }),
            decreases newlvl - l1,
        {
            let t = if l1 < hl {
                targets[l1]
            } else {
                NIL
            };
            row.push(t);
            l1 += 1;
        }
        let ghost rowv = row@;
        let ni = self.keys.len();
        self.keys.push(key);
        self.vals.push(Some(value));
        self.links.push(row);
        proof {
            assert(self.keys@.len() <= usize::MAX) by {
                assert(self.keys.len() == self.keys@.len());
            }
        }
        self.count = self.count + 1;
        self.order = Ghost(o.insert(ins, ni as int));
        proof {
            o.insert_ensures(ins, ni as int);
        }
        // Splice the new node in: every recorded predecessor up to the new
        // node's level now references it; levels above the old index row are
        // opened with the new node as their only inhabitant.
        let mut l2: usize = 0;
        while l2 < newlvl
            invariant
                l2 <= newlvl,
                self.keys@ == s.keys@.push(key),
                self.vals@ == s.vals@.push(Some(value)),
                self.order@ == o.insert(ins, ni as int),
                self.count == s.count + 1,
                ni as int == s.links@.len(),
                self.links@.len() == s.links@.len() + 1,
                self.links@[ni as int]@ == rowv,
                forall|i: int|
                    0 <= i < s.links@.len() ==> #[trigger] self.links@[i]@.len()
                        == s.links@[i]@.len(),
                forall|i: int, y: int|
                    0 <= i < s.links@.len() && 0 <= y < s.links@[i]@.len()
                        ==> #[trigger] self.links@[i]@[y] == (if y < l2 as int && y < hl as int
                        && ps[y] >= 0 && i == o[ps[y]] {
                        ni
                    } else {
                        s.links@[i]@[y]
                    }),
                self.head@.len() == (if l2 <= hl {
                    hl as int
                } else {
                    l2 as int
                }),
                forall|y: int|
                    0 <= y < hl ==> #[trigger] self.head@[y] == (if y < l2 as int && ps[y] == -1 {
                        ni
                    } else {
                        s.head@[y]
                    }),
                forall|y: int| hl <= y < l2 ==> #[trigger] self.head@[y] == ni,
            decreases newlvl - l2,
        {
            if l2 < hl {
                let pr = upd[l2];
                proof {
                    assert(s.aligned(upd@[l2 as int], ps[l2 as int], l2 as int));
                    if ps[l2 as int] >= 0 {
                        s.lemma_live_handle(ps[l2 as int]);
                    }
                }
                if pr == NIL {
                    self.head[l2] = ni;
                } else {
                    self.links[pr][l2] = ni;
                }
            } else {
                self.head.push(ni);
            }
            l2 += 1;
        }
        proof {
            assert(s.splice_shape(*self, upd@, ps, p, key, value, ni, newlvl as int)) by {
                assert(self.links@[ni as int]@.len() == newlvl as int);
                assert forall|y: int| 0 <= y < newlvl as int implies #[trigger] self.links@[ni as int]@[y]
                    == (if y < hl as int {
                    chainf(o, lk, ps[y] + 1, y)
                } else {
                    NIL
                }) by {
                    assert(self.links@[ni as int]@[y] == rowv[y]);
                }
            }
            s.lemma_splice_idx(*self, upd@, ps, p, key, value, ni, newlvl as int);
            s.lemma_splice_links(*self, upd@, ps, p, key, value, ni, newlvl as int);
            s.lemma_splice_views(*self, upd@, ps, p, key, value, ni, newlvl as int);
            assert(self.entries() == s.entries().insert(ins, (key, value)));
        }
        Ok(())
    }

    /// Replace the value stored under `key`, leaving every chain untouched,
    /// and hand back the previous value; fails, returning the new value,
    /// when the key is absent. This is the mutable access that the in-order
    /// cursor handed out by `iter_mut` drives.
    #[verifier::rlimit(100)]
    pub fn replace_value(&mut self, key: &u64, value: V) -> (r: Result<V, V>)
        requires
            old(self).wf(),
        ensures
            final(self).wf(),
            (match r {
                Ok(prev) => {
                    &&& old(self)@.contains_key(*key)
                    &&& prev == old(self)@[*key]
                    &&& final(self)@ == old(self)@.insert(*key, value)
                    &&& final(self).entries().len() == old(self).entries().len()
                    &&& exists|j: int|
                        0 <= j < old(self).entries().len() && old(self).entries()[j] == (
                        *key,
                        prev,
                        ) && final(self).entries() == #[trigger] old(self).entries().update(
                            j,
                            (*key, value),
                        )
                },
                Err(v) => {
                    &&& v == value
                    &&& !old(self)@.contains_key(*key)
                    &&& final(self)@ == old(self)@
                    &&& final(self).entries() == old(self).entries()
                },
            }),
    {
        let ghost s = *self;
        let (upd, psg, pg) = self.find_preds(*key);
        let ghost p = pg@;
        let ghost o = s.order@;
        let ghost ins = p + 1;
        let c = self.get_link(upd[0], 0, Ghost(p));
        proof {
            self.lemma_chain0(p + 1);
        }
        if c == NIL {
            proof {
                self.lemma_absent(p, *key);
            }
            return Err(value);
        }
        proof {
            assert(p + 1 < self.n());
            self.lemma_live_handle(p + 1);
        }
        if self.keys[c] != *key {
            proof {
                self.lemma_absent(p, *key);
            }
            return Err(value);
        }
        proof {
            self.lemma_key_at(ins, *key);
        }
        let slot = &mut self.vals[c];
        let taken = slot.take();
        *slot = Some(value);
        proof {
            assert(s.vals@[o[ins]] is Some);
        }
        let prev = taken.unwrap();
        proof {
            assert(self.vals@ == s.vals@.update(c as int, Some(value)));
            assert forall|j: int| 0 <= j < o.len() && j != ins implies self.vals@[
                #[trigger] o[j]
            ] == s.vals@[o[j]] by {
                s.lemma_distinct(j, ins);
            }
            assert(self.idx_ok());
            assert(self.links_ok());
            assert(self.entries_def() =~= s.entries_def().update(ins, (*key, value)));
            let m2 = s@.insert(*key, value);
            assert_maps_equal!(self@, m2, k => {
                if k == *key {
                    self.lemma_key_at(ins, *key);
                } else {
                    if s.has_key(k) {
                        let j = s.key_pos(k);
                        s.lemma_key_at(j, k);
                        s.lemma_live_handle(j);
                        self.lemma_key_at(j, k);
                        assert(self@.contains_key(k));
                    } else {
                        assert(!self.has_key(k));
                        assert(!self@.contains_key(k));
                        assert(!m2.contains_key(k));
                    }
                }
            });
            assert(s.entries()[ins] == (*key, prev));
        }
        Ok(prev)
    }

    /// Handle of the first node on the level-0 chain, `NIL` when the
    /// structure is empty.
    pub(crate) fn first_node(&self) -> (r: usize)
        requires
            self.wf(),
        ensures
            r == chainf(self.order@, self.links@, 0, 0),
            r == NIL <==> self.entries().len() == 0,
            r != NIL ==> r as int == self.order@[0],
    {
        proof {
            self.lemma_chain0(0);
            if self.n() > 0 {
                self.lemma_live_handle(0);
            }
        }
        self.head[0]
    }

    /// Key, borrowed value and successor of the node `cur` sitting at
    /// position `pos` of the ascending order.
    pub(crate) fn entry_at(&self, cur: usize, Ghost(pos): Ghost<int>) -> (r: (u64, &V, usize))
        requires
            self.wf(),
            0 <= pos < self.entries().len(),
            cur == chainf(self.order@, self.links@, pos, 0),
        ensures
            r.0 == self.entries()[pos].0,
            *r.1 == self.entries()[pos].1,
            r.2 == chainf(self.order@, self.links@, pos + 1, 0),
    {
        proof {
            self.lemma_chain0(pos);
            self.lemma_live_handle(pos);
        }
        let k = self.keys[cur];
        let v = self.vals[cur].as_ref().unwrap();
        let nx = self.links[cur][0];
        (k, v, nx)
    }

    /// Order invariant: a full ascending traversal yields strictly
    /// increasing keys, and its pairs are exactly the pairs of the map view.
    pub proof fn lemma_order_invariant(&self)
        requires
            self.wf(),
        ensures
            forall|i: int, j: int|
                0 <= i < j < self.entries().len() ==> (#[trigger] self.entries()[i]).0
                    < (#[trigger] self.entries()[j]).0,
            forall|j: int|
                0 <= j < self.entries().len() ==> self@.contains_key(
                    (#[trigger] self.entries()[j]).0,
                ) && self@[self.entries()[j].0] == self.entries()[j].1,
            forall|k: u64|
                #[trigger] self@.contains_key(k) ==> exists|j: int|
                    0 <= j < self.entries().len() && (#[trigger] self.entries()[j]).0 == k,
    {
        assert forall|j: int| 0 <= j < self.entries().len() implies self@.contains_key(
            (#[trigger] self.entries()[j]).0,
        ) && self@[self.entries()[j].0] == self.entries()[j].1 by {
            self.lemma_key_at(j, self.entries_def()[j].0);
        }
        assert forall|k: u64| #[trigger] self@.contains_key(k) implies exists|j: int|
            0 <= j < self.entries().len() && (#[trigger] self.entries()[j]).0 == k by {
            let j = self.key_pos(k);
            assert(0 <= j < self.n() && self.keys@[self.order@[j]] == k);
            assert((self.entries()[j]).0 == k);
        }
    }

    /// Construct an empty structure around the given source of level
    /// decisions.
    pub fn new(gen: G) -> (r: SkipList<V, G>)
        ensures
            r.wf(),
            r@ == Map::<u64, V>::empty(),
            r.entries() == Seq::<(u64, V)>::empty(),
    {
        let mut head: Vec<usize> = Vec::new();
        head.push(NIL);
        let r = SkipList {
            gen: gen,
            count: 0,
            keys: Vec::new(),
            vals: Vec::new(),
            links: Vec::new(),
            head: head,
            order: Ghost(Seq::empty()),
        };
        proof {
            assert(r.entries_def() =~= Seq::<(u64, V)>::empty());
            assert(r@ =~= Map::<u64, V>::empty());
        }
        r
    }

    /// Current number of stored elements.
    pub fn count(&self) -> (r: usize)
        requires
            self.wf(),
        ensures
            r == self.entries().len(),
    {
        self.count
    }
}

impl<V, G: Generator<bool>> View for SkipList<V, G> {
    type V = Map<u64, V>;

    /// The structure as the finite map it represents.
    closed spec fn view(&self) -> Map<u64, V> {
        Map::new(|k: u64| self.has_key(k), |k: u64| self.val_of(k))
    }
}

} // verus!
