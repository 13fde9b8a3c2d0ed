use vstd::prelude::*;

use crate::generator::Generator;
use crate::list::chainf;
use crate::list::SkipList;
use crate::list::NIL;

verus! {

/// The keys of an association sequence, in order.
pub open spec fn keys_of<V>(es: Seq<(u64, V)>) -> Seq<u64> {
    Seq::new(es.len(), |i: int| es[i].0)
}

/// Read-only traversal: a lazy cursor that borrows the structure and walks
/// its level-0 chain, yielding the stored pairs in ascending key order.
pub struct Iter<'a, V, G: Generator<bool>> {
    pub(crate) list: &'a SkipList<V, G>,
    pub(crate) cur: usize,
    pub(crate) pos: Ghost<int>,
}

impl<'a, V, G: Generator<bool>> Iter<'a, V, G> {
    /// The cursor points at position `pos` of the ascending traversal of a
    /// consistent structure.
    pub closed spec fn wf(self) -> bool {
        &&& self.list.inv()
        &&& 0 <= self.pos@ <= self.list.entries_def().len()
        &&& self.cur == chainf(self.list.order@, self.list.links@, self.pos@, 0)
    }

    /// The pairs not yet yielded, in ascending key order.
    pub closed spec fn remaining(self) -> Seq<(u64, V)> {
        self.list.entries_def().skip(self.pos@)
    }

    /// The structure being traversed.
    pub closed spec fn source(self) -> &'a SkipList<V, G> {
        self.list
    }

    /// Yield the next pair, or nothing once the chain is exhausted.
    pub fn next(&mut self) -> (r: Option<(u64, &'a V)>)
        requires
            old(self).wf(),
        ensures
            final(self).wf(),
            final(self).source() == old(self).source(),
            (match r {
                None => old(self).remaining().len() == 0 && final(self).remaining() == old(
                    self,
                ).remaining(),
                Some((k, v)) => old(self).remaining().len() > 0 && (k, *v) == old(
                    self,
                ).remaining()[0] && final(self).remaining() == old(self).remaining().skip(1),
            }),
    {
        proof {
            self.list.lemma_wf_is_inv();
            self.list.lemma_entries_is_def();
            self.list.lemma_chain0(self.pos@);
        }
        if self.cur == NIL {
            None
        } else {
            let (k, v, nx) = self.list.entry_at(self.cur, Ghost(self.pos@));
            self.cur = nx;
            proof {
                self.pos = Ghost(self.pos@ + 1);
                assert(self.remaining() =~= old(self).remaining().skip(1));
            }
            Some((k, v))
        }
    }
}

/// In-order cursor over the keys, handed out by `iter_mut`. It yields the
/// keys in ascending order; the values behind them are edited through
/// `SkipList::replace_value`, the safe rendering of handing out one mutable
/// value at a time.
pub struct IterMut {
    pub(crate) ks: Vec<u64>,
    pub(crate) at: usize,
}

impl IterMut {
    /// The cursor has not run past its end.
    pub closed spec fn wf(self) -> bool {
        self.at <= self.ks@.len()
    }

    /// The keys not yet yielded, in ascending order.
    pub closed spec fn remaining(self) -> Seq<u64> {
        self.ks@.skip(self.at as int)
    }

    /// Yield the next key, or nothing once the traversal is exhausted.
    pub fn next(&mut self) -> (r: Option<u64>)
        requires
            old(self).wf(),
        ensures
            final(self).wf(),
            (match r {
                None => old(self).remaining().len() == 0 && final(self).remaining() == old(
                    self,
                ).remaining(),
                Some(k) => old(self).remaining().len() > 0 && k == old(self).remaining()[0]
                    && final(self).remaining() == old(self).remaining().skip(1),
            }),
    {
        if self.at < self.ks.len() {
            let k = self.ks[self.at];
            self.at = self.at + 1;
            proof {
                assert(self.remaining() =~= old(self).remaining().skip(1));
            }
            Some(k)
        } else {
            None
        }
    }
}

/// Consuming traversal: ownership of every stored pair moves into the
/// iterator when it is built, and the pairs come out in ascending key order.
pub struct IntoIter<V> {
    pub(crate) items: Vec<(u64, V)>,
}

impl<V> IntoIter<V> {
    /// The pairs not yet yielded, in ascending key order.
    pub closed spec fn remaining(self) -> Seq<(u64, V)> {
        self.items@
    }

    /// Yield the next owned pair, or nothing once drained.
    pub fn next(&mut self) -> (r: Option<(u64, V)>)
        ensures
            (match r {
                None => old(self).remaining().len() == 0 && final(self).remaining() == old(
                    self,
                ).remaining(),
                Some(kv) => old(self).remaining().len() > 0 && kv == old(self).remaining()[0]
                    && final(self).remaining() == old(self).remaining().skip(1),
            }),
    {
        if self.items.len() > 0 {
            let kv = self.items.remove(0);
            proof {
                assert(self.remaining() =~= old(self).remaining().skip(1));
            }
            Some(kv)
        } else {
            None
        }
    }
}

impl<V, G: Generator<bool>> SkipList<V, G> {
    /// Borrowing ascending traversal over the stored pairs.
    pub fn iter(&self) -> (it: Iter<'_, V, G>)
        requires
            self.wf(),
        ensures
            it.wf(),
            it.remaining() == self.entries(),
    {
        proof {
            self.lemma_wf_is_inv();
            self.lemma_entries_is_def();
        }
        let first = self.first_node();
        let it = Iter { list: self, cur: first, pos: Ghost(0) };
        proof {
            assert(it.remaining() =~= self.entries_def());
        }
        it
    }

    /// Ascending cursor over the keys, for editing values in place through
    /// `replace_value`.
    #[verifier::loop_isolation(false)]
    pub fn iter_mut(&mut self) -> (it: IterMut)
        requires
            old(self).wf(),
        ensures
            *final(self) == *old(self),
            it.wf(),
            it.remaining() == keys_of(old(self).entries()),
    {
        proof {
            self.lemma_wf_is_inv();
            self.lemma_entries_is_def();
        }
        let mut ks: Vec<u64> = Vec::new();
        let mut cur = self.first_node();
        let ghost mut pos: int = 0;
        while cur != NIL
            invariant
                0 <= pos <= self.entries().len(),
                cur == chainf(self.order@, self.links@, pos, 0),
                ks@ == keys_of(self.entries()).take(pos),
            decreases self.entries().len() - pos,
        {
            proof {
                self.lemma_chain0(pos);
            }
            let (k, _v, nx) = self.entry_at(cur, Ghost(pos));
            ks.push(k);
            cur = nx;
            proof {
                pos = pos + 1;
                assert(ks@ =~= keys_of(self.entries()).take(pos));
            }
        }
        proof {
            self.lemma_chain0(pos);
            assert(ks@ =~= keys_of(self.entries()));
        }
        IterMut { ks: ks, at: 0 }
    }

    /// Consuming ascending traversal: drains the structure and hands every
    /// pair over, disposing each node as its pair is moved out.
    pub fn into_iter(self) -> (it: IntoIter<V>)
        requires
            self.wf(),
        ensures
            it.remaining() == self.entries(),
    {
        let mut list = self;
        let ghost orig = list;
        let mut items: Vec<(u64, V)> = Vec::new();
        while list.count() > 0
            invariant
                list.wf(),
                items@ + list.entries() == orig.entries(),
            decreases list.entries().len(),
        {
            let ghost before = list;
            let first = list.first_node();
            let k = {
                let (k0, _v, _nx) = list.entry_at(first, Ghost(0));
                k0
            };
            proof {
                list.lemma_order_invariant();
            }
            let r = list.remove(&k);
            match r {
                Ok(pair) => {
                    proof {
                        let j = choose|j: int|
                            0 <= j < before.entries().len() && before.entries()[j] == (
                            pair.0,
                            pair.1,
                            ) && list.entries() == #[trigger] before.entries().remove(j);
                        if j != 0 {
                            assert(before.entries()[0].0 < before.entries()[j].0);
                            assert(false);
                        }
                        assert(list.entries() == before.entries().remove(0));
                    }
                    items.push(pair);
                    proof {
                        assert(items@ + list.entries() =~= orig.entries());
                    }
                },
                Err(_) => {
                    proof {
                        assert(false);
                    }
                },
            }
        }
        proof {
            assert(items@ =~= orig.entries());
        }
        IntoIter { items: items }
    }
}

} // verus!
