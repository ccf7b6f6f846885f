//! A peer of the bus as the bus thread knows it, and the frames that a read
//! from a peer's connection holds.
use std::collections::HashMap;
use vstd::prelude::*;

use crate::ivy_messages::{
    args_free_of_separator, frame_of, lemma_message_roundtrip, msg_ident, msg_payload, msg_tag,
    parse_defined, parse_spec, reread, MsgView, Parsed,
};
use crate::wire::{
    decimal, is_digit, join_terminated, lemma_decimal_shape, lemma_split_join_terminated, piece,
    split_on, split_ranges,
};

verus! {

broadcast use vstd::std_specs::hash::group_hash_axioms;

/// A connected peer: its name, its id (that of the thread reading its
/// connection), the patterns it subscribed to by id, and whether its reader
/// has been asked to stop.
#[derive(Debug)]
pub struct Peer {
    pub name: String,
    pub id: u32,
    pub subscriptions: HashMap<u32, String>,
    pub should_terminate: bool,
}

/// The mathematical content of a [`Peer`].
#[verifier::ext_equal]
pub struct PeerView {
    pub name: Seq<char>,
    pub id: u32,
    pub subscriptions: Map<u32, Seq<char>>,
    pub should_terminate: bool,
}

pub open spec fn strings_map_view(m: Map<u32, String>) -> Map<u32, Seq<char>> {
    m.map_values(|s: String| s@)
}

impl View for Peer {
    type V = PeerView;

    open spec fn view(&self) -> PeerView {
        PeerView {
            name: self.name@,
            id: self.id,
            subscriptions: strings_map_view(self.subscriptions@),
            should_terminate: self.should_terminate,
        }
    }
}

impl Peer {
    /// A peer with the given id, no name yet and no subscription.
    pub fn new(id: u32) -> (res: Self)
        ensures
            res@ == (PeerView {
                name: Seq::empty(),
                id,
                subscriptions: Map::empty(),
                should_terminate: false,
            }),
    {
        let res = Peer {
            name: String::new(),
            id,
            subscriptions: HashMap::new(),
            should_terminate: false,
        };
        proof {
            assert(strings_map_view(res.subscriptions@) =~= Map::<u32, Seq<char>>::empty());
        }
        res
    }

    pub fn get_name(&self) -> (res: String)
        ensures
            res@ == self.name@,
    {
        self.name.clone()
    }

    pub fn get_id(&self) -> (res: u32)
        ensures
            res == self.id,
    {
        self.id
    }
}

/// The pieces of `ps` that are not empty, in order.
pub open spec fn nonempty_pieces(ps: Seq<Seq<u8>>) -> Seq<Seq<u8>>
    decreases ps.len(),
{
    if ps.len() == 0 {
        Seq::empty()
    } else if ps.last().len() == 0 {
        nonempty_pieces(ps.drop_last())
    } else {
        nonempty_pieces(ps.drop_last()).push(ps.last())
    }
}

/// The frames that a read from a peer holds: its non-empty lines, without
/// their newline.
pub open spec fn frame_lines_spec(buf: Seq<u8>) -> Seq<Seq<u8>> {
    nonempty_pieces(split_on(buf, 10))
}

/// The non-empty lines of `buf`, without their newline.
pub fn frame_lines(buf: &[u8]) -> (res: Vec<Vec<u8>>)
    ensures
        res@.map_values(|l: Vec<u8>| l@) == frame_lines_spec(buf@),
{
    let ranges = split_ranges(buf, 10);
    let ghost ps = split_on(buf@, 10);
    let mut out: Vec<Vec<u8>> = Vec::new();
    let mut j: usize = 0;
    while j < ranges.len()
        invariant
            j <= ranges@.len(),
            ps == split_on(buf@, 10),
            ranges@.len() == ps.len(),
            forall|i: int| 0 <= i < ranges@.len() ==> piece(buf@, #[trigger] ranges@[i]) == ps[i],
            forall|i: int| 0 <= i < ranges@.len() ==> (#[trigger] ranges@[i]).0 <= ranges@[i].1 <= buf@.len(),
            out@.map_values(|l: Vec<u8>| l@) == nonempty_pieces(ps.take(j as int)),
        decreases ranges@.len() - j,
    {
        let (lo, hi) = ranges[j];
        proof {
            assert(ps.take(j + 1).drop_last() =~= ps.take(j as int));
            assert(ps.take(j + 1).last() == ps[j as int]);
        }
        if lo < hi {
            let mut line: Vec<u8> = Vec::new();
            line.extend_from_slice(&buf[lo..hi]);
            assert(line@ =~= ps[j as int]);
            let ghost before = out@;
            out.push(line);
            assert(out@ == before.push(line));
            proof {
                assert(out@.map_values(|l: Vec<u8>| l@) =~= nonempty_pieces(ps.take(j as int)).push(
                    ps[j as int],
                ));
            }
        }
        j = j + 1;
    }
    proof {
        assert(ps.take(ps.len() as int) =~= ps);
    }
    out
}

/// The bytes that writing the messages `ms` one after the other puts on a
/// connection.
pub open spec fn stream_of(ms: Seq<MsgView>) -> Seq<u8>
    decreases ms.len(),
{
    if ms.len() == 0 {
        Seq::empty()
    } else {
        stream_of(ms.drop_last()) + frame_of(ms.last())
    }
}

/// The frame of `m` without its newline.
pub open spec fn frame_body(m: MsgView) -> Seq<u8> {
    frame_of(m).drop_last()
}

proof fn lemma_frame_body_shape(m: MsgView)
    requires
        !msg_payload(m).contains(10),
    ensures
        frame_of(m) == frame_body(m).push(10u8),
        frame_body(m).len() > 0,
        !frame_body(m).contains(10),
{
    let t = decimal(msg_tag(m) as nat);
    let i = decimal(msg_ident(m) as nat);
    let p = msg_payload(m);
    lemma_decimal_shape(msg_tag(m) as nat);
    lemma_decimal_shape(msg_ident(m) as nat);
    let body = t + seq![32u8] + i + seq![2u8] + p;
    assert(frame_of(m) =~= body.push(10u8));
    assert(frame_body(m) =~= body);
    assert(!body.contains(10)) by {
        if body.contains(10) {
            let k = choose|k: int| 0 <= k < body.len() && body[k] == 10;
            if k < t.len() {
                assert(is_digit(t[k]));
            } else if t.len() < k < t.len() + 1 + i.len() {
                assert(is_digit(i[k - t.len() - 1]));
            } else if k > t.len() + 1 + i.len() {
                assert(p[k - t.len() - 2 - i.len()] == 10);
            }
        }
    }
}

proof fn lemma_nonempty_pieces_all(ps: Seq<Seq<u8>>)
    requires
        forall|j: int| 0 <= j < ps.len() ==> (#[trigger] ps[j]).len() > 0,
    ensures
        nonempty_pieces(ps) == ps,
    decreases ps.len(),
{
    if ps.len() > 0 {
        assert(ps.last() == ps[ps.len() - 1]);
        lemma_nonempty_pieces_all(ps.drop_last());
        assert(ps.drop_last().push(ps.last()) =~= ps);
    }
}

proof fn lemma_stream_join(ms: Seq<MsgView>)
    requires
        forall|j: int| 0 <= j < ms.len() ==> !msg_payload(#[trigger] ms[j]).contains(10),
    ensures
        stream_of(ms) == join_terminated(ms.map_values(|m: MsgView| frame_body(m)), 10),
    decreases ms.len(),
{
    if ms.len() > 0 {
        let init = ms.drop_last();
        assert(ms.last() == ms[ms.len() - 1]);
        lemma_stream_join(init);
        lemma_frame_body_shape(ms.last());
        let bodies = ms.map_values(|m: MsgView| frame_body(m));
        assert(bodies.drop_last() =~= init.map_values(|m: MsgView| frame_body(m)));
    }
}

/// What one bus writes to a connection, the other reads back: the frames
/// of messages written one after the other, received in one read, are the
/// lines of that read, and each reads back as its message (a text message
/// with an empty last argument), where no text holds a newline and no
/// argument of a text message the byte 3.
pub proof fn law_written_messages_read_back(ms: Seq<MsgView>)
    requires
        forall|j: int| 0 <= j < ms.len() ==> !msg_payload(#[trigger] ms[j]).contains(10),
        forall|j: int| 0 <= j < ms.len() ==> args_free_of_separator(#[trigger] ms[j]),
    ensures
        frame_lines_spec(stream_of(ms)) == ms.map_values(|m: MsgView| frame_body(m)),
        forall|j: int|
            0 <= j < ms.len() ==> parse_defined(#[trigger] frame_body(ms[j])) && parse_spec(
                frame_body(ms[j]),
            ) == Parsed::Msg(reread(ms[j])),
{
    let bodies = ms.map_values(|m: MsgView| frame_body(m));
    lemma_stream_join(ms);
    assert forall|j: int| 0 <= j < bodies.len() implies !(#[trigger] bodies[j]).contains(10) && bodies[j].len() > 0 by {
        lemma_frame_body_shape(ms[j]);
    }
    lemma_split_join_terminated(bodies, 10);
    let pieces = bodies.push(Seq::empty());
    assert(pieces.drop_last() =~= bodies);
    assert(pieces.last().len() == 0);
    lemma_nonempty_pieces_all(bodies);
    assert forall|j: int| 0 <= j < ms.len() implies parse_defined(#[trigger] frame_body(ms[j]))
        && parse_spec(frame_body(ms[j])) == Parsed::Msg(reread(ms[j])) by {
        lemma_message_roundtrip(ms[j]);
    }
}

} // verus!
