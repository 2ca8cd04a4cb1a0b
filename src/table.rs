//! The connection table: small reusable indices for live channels.
use vstd::prelude::*;
use crate::framing::{Channel, PeerClosed, decode_lines, complete_lines, partial_line};

verus! {

/// A slot of the table: `Some` of what its channel holds undecoded, or `None`
/// where the slot is free.
pub type SlotView = Option<Seq<u8>>;

pub open spec fn slot_view(c: Option<Channel>) -> SlotView {
    match c {
        Some(ch) => Some(ch.pending()),
        None => None,
    }
}

pub open spec fn is_free(v: Seq<SlotView>, i: int) -> bool {
    i >= v.len() || v[i] is None
}

/// The lowest index not in use at or after `from`.
pub open spec fn free_from(v: Seq<SlotView>, from: nat) -> nat
    decreases v.len() - from,
{
    if from >= v.len() || v[from as int] is None {
        from
    } else {
        free_from(v, from + 1)
    }
}

/// The lowest index not in use.
pub open spec fn lowest_free(v: Seq<SlotView>) -> nat {
    free_from(v, 0)
}

/// The table once a channel holding `s` has been stored at `i`.
pub open spec fn stored_at(v: Seq<SlotView>, i: nat, s: Seq<u8>) -> Seq<SlotView> {
    if i < v.len() {
        v.update(i as int, Some(s))
    } else {
        v.push(Some(s))
    }
}

pub proof fn lemma_free_from(v: Seq<SlotView>, from: nat)
    requires
        from <= v.len(),
        forall|k: int| 0 <= k < from ==> !is_free(v, k),
    ensures
        is_free(v, free_from(v, from) as int),
        forall|k: int| 0 <= k < free_from(v, from) ==> !is_free(v, k),
        free_from(v, from) <= v.len(),
    decreases v.len() - from,
{
    if from < v.len() && v[from as int] is Some {
        lemma_free_from(v, from + 1);
    }
}

/// An index freed while every lower one is in use is the next one handed
/// out.
pub proof fn lemma_index_reuse(v: Seq<SlotView>, i: nat)
    requires
        i < v.len(),
        forall|k: int| 0 <= k <= i ==> !is_free(v, k),
    ensures
        lowest_free(v.update(i as int, None)) == i,
{
    let w = v.update(i as int, None);
    assert forall|k: int| 0 <= k < i implies !is_free(w, k) by {
        assert(!is_free(v, k));
        assert(w[k] == v[k]);
    }
    assert(is_free(w, i as int));
    lemma_free_from(w, 0);
    let f = lowest_free(w);
    if f < i {
        assert(!is_free(w, f as int));
    }
}

pub struct ConnectionTable {
    slots: Vec<Option<Channel>>,
}

impl View for ConnectionTable {
    type V = Seq<SlotView>;

    closed spec fn view(&self) -> Seq<SlotView> {
        self.slots@.map_values(|c: Option<Channel>| slot_view(c))
    }
}

impl ConnectionTable {
    pub open spec fn in_use(&self, i: int) -> bool {
        !is_free(self@, i)
    }

    pub fn in_use_at(&self, i: usize) -> (r: bool)
        ensures
            r == self.in_use(i as int),
    {
        if i < self.slots.len() {
            proof {
                assert(self@[i as int] == slot_view(self.slots@[i as int]));
            }
            self.slots[i].is_some()
        } else {
            false
        }
    }

    pub fn new() -> (r: ConnectionTable)
        ensures
            r@ == Seq::<SlotView>::empty(),
    {
        ConnectionTable { slots: Vec::new() }
    }

    /// Stores a channel at the lowest free index and returns that index.
    pub fn insert(&mut self, ch: Channel) -> (r: usize)
        ensures
            r == lowest_free(old(self)@),
            final(self)@ == stored_at(old(self)@, r as nat, ch.pending()),
    {
        let ghost v = self@;
        let n = self.slots.len();
        let mut i: usize = 0;
        while i < n
            invariant
                n == self.slots@.len(),
                v == self@,
                v.len() == n,
                i <= n,
                forall|k: int| 0 <= k < i ==> !is_free(v, k),
            ensures
                i < n ==> self.slots@[i as int] is None,
                i <= n,
            decreases n - i,
        {
            if self.slots[i].is_none() {
                break;
            }
            i = i + 1;
        }
        proof {
            lemma_free_from(v, 0);
            if i < n {
                assert(v[i as int] == slot_view(self.slots@[i as int]));
            }
            assert(is_free(v, i as int));
            let f = lowest_free(v);
            if f < i {
                assert(!is_free(v, f as int));
            }
            if i < f {
                assert(!is_free(v, i as int));
            }
        }
        let ghost s = ch.pending();
        if i < n {
            self.slots.set(i, Some(ch));
        } else {
            self.slots.push(Some(ch));
        }
        proof {
            assert(self@ == stored_at(v, i as nat, s));
        }
        i
    }

    /// Frees the slot at `i` and hands back its channel.
    pub fn remove(&mut self, i: usize) -> (r: Channel)
        requires
            old(self).in_use(i as int),
        ensures
            final(self)@ == old(self)@.update(i as int, None),
            old(self)@[i as int] == Some(r.pending()),
    {
        let mut slot: Option<Channel> = None;
        std::mem::swap(&mut slot, &mut self.slots[i]);
        proof {
            assert(self@ == old(self)@.update(i as int, None));
        }
        match slot {
            Some(ch) => ch,
            None => {
                assert(false);
                Channel::new()
            },
        }
    }

    proof fn lemma_view_set(&self, mid: Seq<SlotView>, i: int, cp: Seq<u8>)
        requires
            0 <= i < mid.len(),
            self.slots@.len() == mid.len(),
            self.slots@[i] is Some && self.slots@[i]->0.pending() == cp,
            forall|k: int| 0 <= k < mid.len() && k != i ==> slot_view(self.slots@[k]) == mid[k],
        ensures
            self@ == mid.update(i, Some(cp)),
    {
        assert(self@ =~= mid.update(i, Some(cp)));
    }

    /// Appends bytes read from the connection at `i`.
    pub fn receive(&mut self, i: usize, data: &[u8])
        requires
            old(self).in_use(i as int),
        ensures
            final(self)@ == old(self)@.update(i as int, Some(old(self)@[i as int]->0 + data@)),
    {
        let mut ch = self.remove(i);
        assert(self.slots@.len() == self@.len());
        ch.receive(data);
        let ghost mid = self@;
        let ghost cp = ch.pending();
        self.slots.set(i, Some(ch));
        proof {
            self.lemma_view_set(mid, i as int, cp);
            assert(self@ =~= old(self)@.update(i as int, Some(old(self)@[i as int]->0 + data@)));
        }
    }

    /// Decodes the complete lines that the connection at `i` has received.
    pub fn read(&mut self, i: usize) -> (r: Result<Vec<serde_json::Value>, PeerClosed>)
        requires
            old(self).in_use(i as int),
        ensures
            ({
                let p = old(self)@[i as int]->0;
                if p.len() == 0 {
                    r is Err && final(self)@ == old(self)@
                } else {
                    r is Ok && r->Ok_0@ == decode_lines(complete_lines(p)) && final(self)@ == old(
                        self,
                    )@.update(i as int, Some(partial_line(p)))
                }
            }),
    {
        let mut ch = self.remove(i);
        assert(self.slots@.len() == self@.len());
        let r = ch.read();
        let ghost mid = self@;
        let ghost cp = ch.pending();
        self.slots.set(i, Some(ch));
        proof {
            self.lemma_view_set(mid, i as int, cp);
            let p = old(self)@[i as int]->0;
            if p.len() == 0 {
                assert(self@ =~= old(self)@);
            } else {
                assert(self@ =~= old(self)@.update(i as int, Some(partial_line(p))));
            }
        }
        r
    }
}

} // verus!
