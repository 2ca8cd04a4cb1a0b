//! The gateway's routing rules: what each read on a connection turns into.
//! The event loop around them does the socket work.
use vstd::prelude::*;
use crate::address::{address, make_address, route_of, split_route};
use crate::escape::{ascii_escaped, encode_ascii};
use crate::framing::{Channel, PeerClosed, complete_lines, decode_lines, partial_line};
use crate::json::{channel_field, channel_of, json_text, replaced_channel, to_json_text, with_channel};
use crate::table::{ConnectionTable, SlotView, is_free, lowest_free, stored_at};

verus! {

/// The table index that the router's connection holds for good.
pub const UPSTREAM: usize = 0;

pub open spec fn to_key() -> Seq<char> {
    seq!['t', 'o']
}

pub open spec fn from_key() -> Seq<char> {
    seq!['f', 'r', 'o', 'm']
}

/// A message for a client: its table index and the line to write to it.
pub struct Delivery {
    pub index: usize,
    pub text: Vec<char>,
}

impl View for Delivery {
    type V = (nat, Seq<char>);

    open spec fn view(&self) -> (nat, Seq<char>) {
        (self.index as nat, self.text@)
    }
}

/// Where a message from the router goes, and as what: the two leading parts
/// of its `to` address are taken off, and it goes to the client whose index
/// the second part names, as one line of JSON. A message without such an
/// address, for an index not in use, or for the router's own slot, is
/// dropped.
pub open spec fn delivery_of(m: serde_json::Value, table: Seq<SlotView>) -> Option<(nat, Seq<char>)> {
    match channel_of(m, to_key()) {
        None => None,
        Some(c) => match route_of(c) {
            None => None,
            Some((idx, rest)) => {
                if idx != UPSTREAM && !is_free(table, idx as int) {
                    Some((idx, json_text(with_channel(m, to_key(), rest)).push('\n')))
                } else {
                    None
                }
            },
        },
    }
}

pub open spec fn deliveries_of(msgs: Seq<serde_json::Value>, table: Seq<SlotView>) -> Seq<(nat, Seq<char>)>
    decreases msgs.len(),
{
    if msgs.len() == 0 {
        Seq::empty()
    } else {
        let init = deliveries_of(msgs.drop_last(), table);
        match delivery_of(msgs.last(), table) {
            Some(d) => init.push(d),
            None => init,
        }
    }
}

/// What a client's message becomes upstream: its `from` channel is prefixed
/// with the gateway's prefix and the client's index, and the JSON line is
/// written in ASCII. A message without a `from` channel is dropped.
pub open spec fn forward_of(prefix: Seq<char>, index: nat, m: serde_json::Value) -> Seq<u8> {
    match channel_of(m, from_key()) {
        None => Seq::empty(),
        Some(c) => ascii_escaped(
            json_text(with_channel(m, from_key(), address(prefix, index, c))).push('\n'),
        ),
    }
}

pub open spec fn forwards_of(prefix: Seq<char>, index: nat, msgs: Seq<serde_json::Value>) -> Seq<u8>
    decreases msgs.len(),
{
    if msgs.len() == 0 {
        Seq::empty()
    } else {
        forwards_of(prefix, index, msgs.drop_last()) + forward_of(prefix, index, msgs.last())
    }
}

/// The gateway's state: its prefix and the table of live connections, whose
/// slot 0 is the router's.
pub struct Gateway {
    prefix: Vec<char>,
    table: ConnectionTable,
}

impl Gateway {
    pub closed spec fn prefix(&self) -> Seq<char> {
        self.prefix@
    }

    pub closed spec fn slots(&self) -> Seq<SlotView> {
        self.table@
    }

    /// The router's slot is always in use.
    pub open spec fn wf(&self) -> bool {
        !is_free(self.slots(), UPSTREAM as int)
    }

    /// A gateway with only the router's connection, at slot 0.
    pub fn new(prefix: Vec<char>) -> (r: Gateway)
        ensures
            r.wf(),
            r.prefix() == prefix@,
            r.slots() == seq![Some(Seq::<u8>::empty())],
    {
        let mut table = ConnectionTable::new();
        let i = table.insert(Channel::new());
        assert(table@ =~= seq![Some(Seq::<u8>::empty())]);
        Gateway { prefix, table }
    }

    pub fn in_use(&self, i: usize) -> (r: bool)
        ensures
            r == !is_free(self.slots(), i as int),
    {
        self.table.in_use_at(i)
    }

    /// Takes a new client connection at the lowest free index.
    pub fn accept(&mut self) -> (r: usize)
        requires
            old(self).wf(),
        ensures
            final(self).wf(),
            r == lowest_free(old(self).slots()),
            r != UPSTREAM,
            final(self).slots() == stored_at(old(self).slots(), r as nat, Seq::<u8>::empty()),
            final(self).prefix() == old(self).prefix(),
    {
        let r = self.table.insert(Channel::new());
        proof {
            crate::table::lemma_free_from(old(self).slots(), 0);
        }
        r
    }

    /// Drops the client at `i`, whose connection failed, and frees its slot.
    pub fn close(&mut self, i: usize)
        requires
            old(self).wf(),
            i != UPSTREAM,
            !is_free(old(self).slots(), i as int),
        ensures
            final(self).wf(),
            final(self).slots() == old(self).slots().update(i as int, None),
            final(self).prefix() == old(self).prefix(),
    {
        let _closed = self.table.remove(i);
    }

    /// Bytes read from the connection at `i`.
    pub fn receive(&mut self, i: usize, data: &[u8])
        requires
            old(self).wf(),
            !is_free(old(self).slots(), i as int),
        ensures
            final(self).wf(),
            final(self).slots() == old(self).slots().update(
                i as int,
                Some(old(self).slots()[i as int]->0 + data@),
            ),
            final(self).prefix() == old(self).prefix(),
    {
        self.table.receive(i, data);
    }

    /// Routes what the router has sent: each complete message, in order,
    /// becomes a delivery to the client that its address names. When nothing
    /// is pending the router has closed, which ends the gateway.
    pub fn route_upstream(&mut self) -> (r: Result<Vec<Delivery>, PeerClosed>)
        requires
            old(self).wf(),
        ensures
            final(self).wf(),
            final(self).prefix() == old(self).prefix(),
            ({
                let p = old(self).slots()[UPSTREAM as int]->0;
                if p.len() == 0 {
                    r is Err && final(self).slots() == old(self).slots()
                } else {
                    &&& r is Ok
                    &&& r->Ok_0@.map_values(|d: Delivery| d@) == deliveries_of(
                        decode_lines(complete_lines(p)),
                        old(self).slots(),
                    )
                    &&& final(self).slots() == old(self).slots().update(
                        UPSTREAM as int,
                        Some(partial_line(p)),
                    )
                }
            }),
    {
        let msgs = match self.table.read(UPSTREAM) {
            Err(e) => {
                return Err(e);
            },
            Ok(msgs) => msgs,
        };
        let ghost table = old(self).slots();
        let mut out: Vec<Delivery> = Vec::new();
        let mut k: usize = 0;
        while k < msgs.len()
            invariant
                k <= msgs@.len(),
                self.wf(),
                forall|j: int| 0 <= j < table.len() ==> (is_free(self.slots(), j) == is_free(table, j)),
                self.slots().len() == table.len(),
                out@.map_values(|d: Delivery| d@) == deliveries_of(msgs@.take(k as int), table),
            decreases msgs@.len() - k,
        {
            proof {
                assert(msgs@.take(k + 1).drop_last() == msgs@.take(k as int));
                assert(msgs@.take(k + 1).last() == msgs@[k as int]);
            }
            let m = &msgs[k];
            proof {
                reveal_strlit("to");
                assert("to"@ == to_key());
            }
            match channel_field(m, "to") {
                None => {},
                Some(c) => {
                    match split_route(&c) {
                        None => {},
                        Some(route) => {
                            let (idx, rest) = route;
                            proof {
                                assert(channel_of(msgs@[k as int], to_key()) == Some(c@));
                                assert(route_of(c@) == Some((idx as nat, rest@)));
                            }
                            if idx != UPSTREAM && self.table.in_use_at(idx) {
                                let w = replaced_channel(m, "to", &rest);
                                let mut text = to_json_text(&w);
                                text.push('\n');
                                let ghost before = out@.map_values(|d: Delivery| d@);
                                out.push(Delivery { index: idx, text });
                                proof {
                                    assert(delivery_of(msgs@[k as int], table) == Some(
                                        (idx as nat, json_text(w).push('\n')),
                                    ));
                                    assert(out@.map_values(|d: Delivery| d@) =~= before.push(
                                        (idx as nat, json_text(w).push('\n')),
                                    ));
                                }
                            }
                        },
                    }
                },
            }
            proof {
                assert(out@.map_values(|d: Delivery| d@) == deliveries_of(msgs@.take(k + 1), table));
            }
            k = k + 1;
        }
        assert(msgs@.take(msgs@.len() as int) == msgs@);
        Ok(out)
    }

    /// Routes what the client at `i` has sent: each complete message, in
    /// order, is readdressed and encoded for the router. When nothing is
    /// pending the client has closed, and its slot is freed.
    pub fn route_client(&mut self, i: usize) -> (r: Option<Vec<u8>>)
        requires
            old(self).wf(),
            i != UPSTREAM,
            !is_free(old(self).slots(), i as int),
        ensures
            final(self).wf(),
            final(self).prefix() == old(self).prefix(),
            ({
                let p = old(self).slots()[i as int]->0;
                if p.len() == 0 {
                    r is None && final(self).slots() == old(self).slots().update(i as int, None)
                } else {
                    &&& r is Some
                    &&& r->0@ == forwards_of(
                        old(self).prefix(),
                        i as nat,
                        decode_lines(complete_lines(p)),
                    )
                    &&& final(self).slots() == old(self).slots().update(
                        i as int,
                        Some(partial_line(p)),
                    )
                }
            }),
    {
        let msgs = match self.table.read(i) {
            Err(_) => {
                let _closed = self.table.remove(i);
                return None;
            },
            Ok(msgs) => msgs,
        };
        let mut out: Vec<u8> = Vec::new();
        let mut k: usize = 0;
        while k < msgs.len()
            invariant
                k <= msgs@.len(),
                out@ == forwards_of(self.prefix@, i as nat, msgs@.take(k as int)),
            decreases msgs@.len() - k,
        {
            proof {
                assert(msgs@.take(k + 1).drop_last() == msgs@.take(k as int));
                assert(msgs@.take(k + 1).last() == msgs@[k as int]);
            }
            let m = &msgs[k];
            proof {
                reveal_strlit("from");
                assert("from"@ == from_key());
            }
            match channel_field(m, "from") {
                None => {
                    assert(out@ + forward_of(self.prefix@, i as nat, msgs@[k as int]) =~= out@);
                },
                Some(c) => {
                    let a = make_address(&self.prefix, i, &c);
                    let w = replaced_channel(m, "from", &a);
                    let mut text = to_json_text(&w);
                    text.push('\n');
                    let mut bytes = encode_ascii(text.as_slice());
                    proof {
                        assert(channel_of(msgs@[k as int], from_key()) == Some(c@));
                        assert(bytes@ == forward_of(self.prefix@, i as nat, msgs@[k as int]));
                    }
                    out.append(&mut bytes);
                },
            }
            k = k + 1;
        }
        assert(msgs@.take(msgs@.len() as int) == msgs@);
        Some(out)
    }
}

} // verus!
