//! The state that the bus thread keeps, and what it does on each event:
//! a message from a peer, a command from the application, a new
//! connection, a thread that ends. Each handler updates the state and
//! returns the actions (writes to peers, calls of the application's
//! callbacks) that the caller carries out.
use std::collections::{HashMap, HashSet};
use vstd::prelude::*;
use vstd::std_specs::hash::spec_hash_map_iter;
use vstd::std_specs::iter::IteratorSpec;

use crate::ivy_messages::{IvyMsg, MsgView, strings_view};
use crate::pattern::{capture_groups, match_params, pattern_compiles, Matcher};
use crate::peer::{Peer, PeerView, strings_map_view};

verus! {

broadcast use vstd::std_specs::hash::group_hash_axioms, vstd::seq::group_seq_axioms;

/// The id of the thread that accepts TCP connections.
pub const TCPLISTENER_THD_ID: u32 = 0u32;

/// The id of the thread that listens to UDP announces.
pub const UDPLISTENER_THD_ID: u32 = 1u32;

/// The keys of `m`, each once, in the order in which `m` is walked.
pub fn keys_of<V>(m: &HashMap<u32, V>) -> (res: Vec<u32>)
    ensures
        res@.no_duplicates(),
        forall|k: u32| m@.contains_key(k) <==> res@.contains(k),
{
    let mut out: Vec<u32> = Vec::new();
    let ghost s = spec_hash_map_iter(m).remaining();
    for kv in it: m.iter()
        invariant
            it.seq() == s,
            s.no_duplicates(),
            s.len() == m@.dom().len(),
            forall|i: int| 0 <= i < s.len() ==> m@.contains_key(*s[i].0),
            forall|k: u32| #[trigger] m@.contains_key(k) ==> s.contains((&k, &m@[k])),
            out@.len() == it.index(),
            forall|i: int| 0 <= i < it.index() ==> out@[i] == *s[i].0,
    {
        let (k, _v) = kv;
        out.push(*k);
    }
    assert forall|i: int, j: int|
        0 <= i < out@.len() && 0 <= j < out@.len() && i != j implies out@[i] != out@[j] by {
        if out@[i] == out@[j] {
            assert(*s[i].1 == m@[*s[i].0]);
        }
    }
    assert forall|k: u32| m@.contains_key(k) implies out@.contains(k) by {
        let i = choose|i: int| 0 <= i < s.len() && s[i] == (&k, &m@[k]);
        assert(out@[i] == k);
    }
    out
}

/// `order` lists each element of `keys` once, and nothing else.
pub open spec fn enumerates(order: Seq<u32>, keys: Set<u32>) -> bool {
    &&& order.no_duplicates()
    &&& forall|k: u32| keys.contains(k) <==> order.contains(k)
}

/// The id that follows `n` (ids wrap around after `u32::MAX`).
pub open spec fn next_id(n: u32) -> u32 {
    if n == u32::MAX {
        0
    } else {
        (n + 1) as u32
    }
}

fn following_id(n: u32) -> (res: u32)
    ensures
        res == next_id(n),
{
    if n == u32::MAX {
        0
    } else {
        n + 1
    }
}

/// What the bus thread knows: its name and TCP port, its peers by id, the
/// application's subscriptions by id, the threads still running, the peers
/// with a ping in flight, the next ids to hand out, and whether the bus is
/// stopping.
pub struct BusState {
    pub appname: String,
    pub peers: HashMap<u32, Peer>,
    pub next_thread_id: u32,
    pub subscriptions: HashMap<u32, String>,
    pub should_terminate: bool,
    pub local_port: u16,
    pub threads: HashSet<u32>,
    pub pending_pings: HashSet<u32>,
    pub next_sub_id: u32,
    pub next_ping_id: u32,
}

#[verifier::ext_equal]
pub struct BusView {
    pub appname: Seq<char>,
    pub peers: Map<u32, PeerView>,
    pub next_thread_id: u32,
    pub subscriptions: Map<u32, Seq<char>>,
    pub should_terminate: bool,
    pub local_port: u16,
    pub threads: Set<u32>,
    pub pending_pings: Set<u32>,
    pub next_sub_id: u32,
    pub next_ping_id: u32,
}

pub open spec fn peers_view(m: Map<u32, Peer>) -> Map<u32, PeerView> {
    m.map_values(|p: Peer| p@)
}

impl View for BusState {
    type V = BusView;

    open spec fn view(&self) -> BusView {
        BusView {
            appname: self.appname@,
            peers: peers_view(self.peers@),
            next_thread_id: self.next_thread_id,
            subscriptions: strings_map_view(self.subscriptions@),
            should_terminate: self.should_terminate,
            local_port: self.local_port,
            threads: self.threads@,
            pending_pings: self.pending_pings@,
            next_sub_id: self.next_sub_id,
            next_ping_id: self.next_ping_id,
        }
    }
}

/// The state of a new bus named `appname`: no peer, no subscription, no
/// thread, port 0; thread ids start after those of the two listeners.
pub open spec fn initial_view(appname: Seq<char>) -> BusView {
    BusView {
        appname,
        peers: Map::empty(),
        next_thread_id: 2,
        subscriptions: Map::empty(),
        should_terminate: false,
        local_port: 0,
        threads: Set::empty(),
        pending_pings: Set::empty(),
        next_sub_id: 0,
        next_ping_id: 0,
    }
}

/// Subscribing to `regex`: it gets the next subscription id.
pub open spec fn add_sub_spec(s: BusView, regex: Seq<char>) -> (BusView, u32) {
    (
        BusView {
            subscriptions: s.subscriptions.insert(s.next_sub_id, regex),
            next_sub_id: next_id(s.next_sub_id),
            ..s
        },
        s.next_sub_id,
    )
}

pub open spec fn remove_sub_spec(s: BusView, sub_id: u32) -> BusView {
    BusView { subscriptions: s.subscriptions.remove(sub_id), ..s }
}

/// A thread ends: it leaves the running threads, and the peer it read for
/// leaves the peers. The bus thread may stop once no thread runs and the
/// bus is stopping.
pub open spec fn terminated_spec(s: BusView, thread_id: u32) -> (BusView, bool) {
    let t = BusView {
        threads: s.threads.remove(thread_id),
        peers: s.peers.remove(thread_id),
        ..s
    };
    (t, t.threads.is_empty() && s.should_terminate)
}

/// What the caller of a handler carries out.
#[derive(Debug)]
pub enum Action {
    /// Write this message to the connection of this peer.
    Send(u32, IvyMsg),
    /// Ask the thread reading this peer's connection to stop.
    StopPeer(u32),
    /// Call the callback of subscription `.0` for peer `.1` with these
    /// parameters.
    Deliver(u32, u32, Vec<String>),
    /// Call the application's callback for a newly connected peer.
    PeerConnected(u32),
    /// Call the application's direct-message callback: peer, id, text.
    DirectMessage(u32, u32, String),
    /// Call the application's quit callback for this peer.
    QuitRequested(u32),
    /// A ping to this peer goes out now: remember when, and whom to answer.
    PingStarted(u32),
    /// This peer answered the ping in flight: report the time it took.
    PingAnswered(u32),
    /// Ask the listener threads to stop.
    StopListeners,
}

pub enum ActionView {
    Send(u32, MsgView),
    StopPeer(u32),
    Deliver(u32, u32, Seq<Seq<char>>),
    PeerConnected(u32),
    DirectMessage(u32, u32, Seq<char>),
    QuitRequested(u32),
    PingStarted(u32),
    PingAnswered(u32),
    StopListeners,
}

impl View for Action {
    type V = ActionView;

    open spec fn view(&self) -> ActionView {
        match self {
            Action::Send(pid, m) => ActionView::Send(*pid, m@),
            Action::StopPeer(pid) => ActionView::StopPeer(*pid),
            Action::Deliver(sid, pid, ps) => ActionView::Deliver(*sid, *pid, strings_view(ps@)),
            Action::PeerConnected(pid) => ActionView::PeerConnected(*pid),
            Action::DirectMessage(pid, id, t) => ActionView::DirectMessage(*pid, *id, t@),
            Action::QuitRequested(pid) => ActionView::QuitRequested(*pid),
            Action::PingStarted(pid) => ActionView::PingStarted(*pid),
            Action::PingAnswered(pid) => ActionView::PingAnswered(*pid),
            Action::StopListeners => ActionView::StopListeners,
        }
    }
}

pub open spec fn actions_view(v: Seq<Action>) -> Seq<ActionView> {
    v.map_values(|a: Action| a@)
}

pub open spec fn with_peer(s: BusView, pid: u32, p: PeerView) -> BusView {
    BusView { peers: s.peers.insert(pid, p), ..s }
}

/// What the bus thread does with message `m` from peer `pid`: the new
/// state and the actions. Messages from an unknown peer change nothing,
/// but for an answer to a ping.
pub open spec fn ivymsg_step(s: BusView, pid: u32, m: MsgView) -> (BusView, Seq<ActionView>) {
    let known = s.peers.contains_key(pid);
    let p = s.peers[pid];
    match m {
        MsgView::Bye => if known {
            (with_peer(s, pid, PeerView { should_terminate: true, ..p }), seq![ActionView::StopPeer(pid)])
        } else {
            (s, seq![])
        },
        MsgView::Sub(sub_id, regex) => if known {
            (with_peer(s, pid, PeerView { subscriptions: p.subscriptions.insert(sub_id, regex), ..p }), seq![])
        } else {
            (s, seq![])
        },
        MsgView::TextMsg(sub_id, params) => if s.subscriptions.contains_key(sub_id) && known {
            (s, seq![ActionView::Deliver(sub_id, pid, params)])
        } else {
            (s, seq![])
        },
        MsgView::Error(_) => (s, seq![]),
        MsgView::DelSub(sub_id) => if known {
            (with_peer(s, pid, PeerView { subscriptions: p.subscriptions.remove(sub_id), ..p }), seq![])
        } else {
            (s, seq![])
        },
        MsgView::EndSub => if known {
            (s, seq![ActionView::PeerConnected(pid)])
        } else {
            (s, seq![])
        },
        MsgView::PeerId(_, name) => if known {
            (with_peer(s, pid, PeerView { name, ..p }), seq![])
        } else {
            (s, seq![])
        },
        MsgView::DirectMsg(id, text) => if known {
            (s, seq![ActionView::DirectMessage(pid, id, text)])
        } else {
            (s, seq![])
        },
        MsgView::Quit => if known {
            (s, seq![ActionView::QuitRequested(pid)])
        } else {
            (s, seq![])
        },
        MsgView::Ping(ping_id) => if known {
            (s, seq![ActionView::Send(pid, MsgView::Pong(ping_id))])
        } else {
            (s, seq![])
        },
        MsgView::Pong(_) => if s.pending_pings.contains(pid) {
            (BusView { pending_pings: s.pending_pings.remove(pid), ..s }, seq![ActionView::PingAnswered(pid)])
        } else {
            (s, seq![])
        },
    }
}

/// The messages that open a connection: each of the application's
/// subscriptions (walked in `order`), then the end of the subscriptions.
pub open spec fn initial_msgs(subs: Map<u32, Seq<char>>, order: Seq<u32>) -> Seq<MsgView> {
    order.map_values(|sid: u32| MsgView::Sub(sid, subs[sid])).push(MsgView::EndSub)
}

pub open spec fn msgs_view(v: Seq<IvyMsg>) -> Seq<MsgView> {
    v.map_values(|m: IvyMsg| m@)
}

/// A new peer named `name` gets the next thread id; its reader thread runs.
pub open spec fn connect_spec(s: BusView, name: Seq<char>) -> (BusView, u32) {
    let pid = s.next_thread_id;
    (
        BusView {
            next_thread_id: next_id(pid),
            threads: s.threads.insert(pid),
            peers: s.peers.insert(
                pid,
                PeerView { name, id: pid, subscriptions: Map::empty(), should_terminate: false },
            ),
            ..s
        },
        pid,
    )
}

impl BusState {
    /// The state of a new bus named `appname`.
    pub fn new(appname: String) -> (res: Self)
        ensures
            res@ == initial_view(appname@),
    {
        let res = BusState {
            appname,
            peers: HashMap::new(),
            next_thread_id: 2,
            subscriptions: HashMap::new(),
            should_terminate: false,
            local_port: 0,
            threads: HashSet::new(),
            pending_pings: HashSet::new(),
            next_sub_id: 0,
            next_ping_id: 0,
        };
        proof {
            assert(peers_view(res.peers@) =~= Map::<u32, PeerView>::empty());
            assert(strings_map_view(res.subscriptions@) =~= Map::<u32, Seq<char>>::empty());
        }
        res
    }

    /// Records a subscription of the application to `regex`; returns its id.
    pub fn add_subscription(&mut self, regex: &str) -> (sub_id: u32)
        ensures
            (final(self)@, sub_id) == add_sub_spec(old(self)@, regex@),
    {
        let sub_id = self.next_sub_id;
        self.next_sub_id = following_id(sub_id);
        self.subscriptions.insert(sub_id, regex.to_owned());
        proof {
            assert(strings_map_view(self.subscriptions@) =~= strings_map_view(
                old(self).subscriptions@,
            ).insert(sub_id, regex@));
        }
        sub_id
    }

    /// Forgets the application's subscription `sub_id`.
    pub fn remove_subscription(&mut self, sub_id: u32)
        ensures
            final(self)@ == remove_sub_spec(old(self)@, sub_id),
    {
        self.subscriptions.remove(&sub_id);
        proof {
            assert(strings_map_view(self.subscriptions@) =~= strings_map_view(
                old(self).subscriptions@,
            ).remove(sub_id));
        }
    }

    /// Hands out the id of a new ping.
    pub fn new_ping_id(&mut self) -> (ping_id: u32)
        ensures
            ping_id == old(self)@.next_ping_id,
            final(self)@ == (BusView { next_ping_id: next_id(old(self)@.next_ping_id), ..old(self)@ }),
    {
        let ping_id = self.next_ping_id;
        self.next_ping_id = following_id(ping_id);
        ping_id
    }

    /// Records that the thread `thread_id` runs.
    pub fn register_thread(&mut self, thread_id: u32)
        ensures
            final(self)@ == (BusView { threads: old(self)@.threads.insert(thread_id), ..old(self)@ }),
    {
        self.threads.insert(thread_id);
    }

    /// Records the TCP port on which the bus accepts connections.
    pub fn set_local_port(&mut self, port: u16)
        ensures
            final(self)@ == (BusView { local_port: port, ..old(self)@ }),
    {
        self.local_port = port;
    }

    /// The thread `thread_id` has ended: forget it and the peer it read
    /// for. Returns whether the bus thread may stop (no thread runs and the
    /// bus is stopping).
    pub fn handle_terminated(&mut self, thread_id: u32) -> (res: bool)
        ensures
            (final(self)@, res) == terminated_spec(old(self)@, thread_id),
    {
        self.threads.remove(&thread_id);
        self.peers.remove(&thread_id);
        proof {
            assert(peers_view(self.peers@) =~= peers_view(old(self).peers@).remove(thread_id));
        }
        self.threads.is_empty() && self.should_terminate
    }
}

/// A command from the application to the bus thread.
pub enum Command {
    /// Tell the peers of the application's new subscription.
    Sub(u32, String),
    /// Send a text to the peers whose subscriptions match it.
    SendMsg(String),
    /// Send a direct message: peer, id, text.
    SendDirectMsg(u32, u32, String),
    /// Tell the peers that the application dropped a subscription.
    UnSub(u32),
    /// Ping a peer: peer, ping id.
    Ping(u32, u32),
    /// Stop the bus.
    Stop,
}

/// The message `m` to each peer of `order`, in that order.
pub open spec fn send_to_all(order: Seq<u32>, m: MsgView) -> Seq<ActionView> {
    order.map_values(|pid: u32| ActionView::Send(pid, m))
}

/// A stop request for the reader of each peer of `order`.
pub open spec fn stop_all(order: Seq<u32>) -> Seq<ActionView> {
    order.map_values(|pid: u32| ActionView::StopPeer(pid))
}

/// For each subscription of peer `pid` (taken in `sub_order`) whose
/// pattern matches `message`: a text message with the match's parameters.
pub open spec fn matches_of(
    pid: u32,
    subs: Map<u32, Seq<char>>,
    sub_order: Seq<u32>,
    message: Seq<char>,
) -> Seq<ActionView>
    decreases sub_order.len(),
{
    if sub_order.len() == 0 {
        Seq::empty()
    } else {
        let rest = matches_of(pid, subs, sub_order.drop_last(), message);
        let sub_id = sub_order.last();
        match capture_groups(subs[sub_id], message) {
            Some(gs) => rest.push(ActionView::Send(pid, MsgView::TextMsg(sub_id, match_params(gs)))),
            None => rest,
        }
    }
}

/// `matches_of` for each peer of `order`, in that order.
pub open spec fn send_msg_actions(
    peers: Map<u32, PeerView>,
    order: Seq<u32>,
    sub_orders: Map<u32, Seq<u32>>,
    message: Seq<char>,
) -> Seq<ActionView>
    decreases order.len(),
{
    if order.len() == 0 {
        Seq::empty()
    } else {
        let pid = order.last();
        send_msg_actions(peers, order.drop_last(), sub_orders, message) + matches_of(
            pid,
            peers[pid].subscriptions,
            sub_orders[pid],
            message,
        )
    }
}

/// Every pattern that a peer subscribed to compiles.
pub open spec fn patterns_compile(s: BusView) -> bool {
    forall|pid: u32, sid: u32|
        #![trigger s.peers[pid].subscriptions[sid]]
        s.peers.contains_key(pid) && s.peers[pid].subscriptions.contains_key(sid)
            ==> pattern_compiles(s.peers[pid].subscriptions[sid])
}

pub open spec fn terminating(p: PeerView) -> PeerView {
    PeerView { should_terminate: true, ..p }
}

/// The state after command `cmd`: a ping to a known peer is now in flight;
/// on stop, every peer and the bus itself are stopping.
pub open spec fn command_state(s: BusView, cmd: Command) -> BusView {
    match cmd {
        Command::Ping(pid, _) => if s.peers.contains_key(pid) {
            BusView { pending_pings: s.pending_pings.insert(pid), ..s }
        } else {
            s
        },
        Command::Stop => BusView {
            peers: s.peers.map_values(|p: PeerView| terminating(p)),
            should_terminate: true,
            ..s
        },
        _ => s,
    }
}

/// The actions of command `cmd`, the peers (and their subscriptions) being
/// walked in some order: a broadcast for a subscription change, the matching
/// text messages for a send, the message for a known peer, a ping to a known
/// peer, or on stop a goodbye to each peer, a stop request for each reader
/// and for the listeners.
pub open spec fn command_outcome(s: BusView, cmd: Command, acts: Seq<ActionView>) -> bool {
    match cmd {
        Command::Sub(sub_id, regex) => exists|order: Seq<u32>|
            enumerates(order, s.peers.dom()) && acts == send_to_all(order, MsgView::Sub(sub_id, regex@)),
        Command::SendMsg(message) => exists|order: Seq<u32>, sub_orders: Map<u32, Seq<u32>>|
            {
                &&& enumerates(order, s.peers.dom())
                &&& forall|pid: u32|
                    #![trigger sub_orders[pid]]
                    s.peers.contains_key(pid) ==> enumerates(sub_orders[pid], s.peers[pid].subscriptions.dom())
                &&& acts == send_msg_actions(s.peers, order, sub_orders, message@)
            },
        Command::SendDirectMsg(pid, id, text) => acts == if s.peers.contains_key(pid) {
            seq![ActionView::Send(pid, MsgView::DirectMsg(id, text@))]
        } else {
            seq![]
        },
        Command::UnSub(sub_id) => exists|order: Seq<u32>|
            enumerates(order, s.peers.dom()) && acts == send_to_all(order, MsgView::DelSub(sub_id)),
        Command::Ping(pid, ping_id) => acts == if s.peers.contains_key(pid) {
            seq![ActionView::PingStarted(pid), ActionView::Send(pid, MsgView::Ping(ping_id))]
        } else {
            seq![]
        },
        Command::Stop => exists|order: Seq<u32>|
            enumerates(order, s.peers.dom()) && acts == send_to_all(order, MsgView::Bye) + stop_all(order)
                + seq![ActionView::StopListeners],
    }
}

proof fn lemma_send_msg_actions_frame(
    peers: Map<u32, PeerView>,
    order: Seq<u32>,
    sub_orders: Map<u32, Seq<u32>>,
    k: u32,
    v: Seq<u32>,
    message: Seq<char>,
)
    requires
        !order.contains(k),
    ensures
        send_msg_actions(peers, order, sub_orders, message) == send_msg_actions(
            peers,
            order,
            sub_orders.insert(k, v),
            message,
        ),
    decreases order.len(),
{
    if order.len() > 0 {
        let init = order.drop_last();
        assert(!init.contains(k)) by {
            if init.contains(k) {
                let i = choose|i: int| 0 <= i < init.len() && init[i] == k;
                assert(order[i] == k);
            }
        }
        assert(order.last() != k) by {
            assert(order[order.len() - 1] == order.last());
        }
        lemma_send_msg_actions_frame(peers, init, sub_orders, k, v, message);
    }
}

impl BusState {
    /// The message `m` to each peer of `order`.
    fn broadcast(order: &Vec<u32>, m: &IvyMsg) -> (res: Vec<Action>)
        requires
            m is Bye || m is Sub || m is DelSub,
        ensures
            actions_view(res@) == send_to_all(order@, m@),
    {
        let mut res: Vec<Action> = Vec::new();
        let mut j: usize = 0;
        while j < order.len()
            invariant
                j <= order@.len(),
                m is Bye || m is Sub || m is DelSub,
                res@.len() == j,
                actions_view(res@) == send_to_all(order@.take(j as int), m@),
            decreases order@.len() - j,
        {
            let msg = match m {
                IvyMsg::Sub(sub_id, regex) => IvyMsg::Sub(*sub_id, regex.clone()),
                IvyMsg::DelSub(sub_id) => IvyMsg::DelSub(*sub_id),
                _ => IvyMsg::Bye,
            };
            assert(msg@ == m@);
            let ghost before = res@;
            res.push(Action::Send(order[j], msg));
            proof {
                assert(res@ == before.push(Action::Send(order@[j as int], msg)));
                assert(order@.take(j + 1) =~= order@.take(j as int).push(order@[j as int]));
                assert(res@[j as int]@ == ActionView::Send(order@[j as int], m@));
                assert forall|i: int| 0 <= i < j implies #[trigger] res@[i]@ == send_to_all(order@.take(j as int), m@)[i] by {
                    assert(res@[i] == before[i]);
                    assert(actions_view(before)[i] == before[i]@);
                }
                assert(actions_view(res@) =~= send_to_all(order@.take(j + 1), m@));
            }
            j = j + 1;
        }
        proof {
            assert(order@.take(order@.len() as int) =~= order@);
        }
        res
    }

    /// The text messages that `message` gives to the subscriptions of peer
    /// `pid` whose pattern matches, walking them in `sids`.
    fn matches_for_peer(
        pid: u32,
        subs: &HashMap<u32, String>,
        sids: &Vec<u32>,
        message: &String,
        actions: &mut Vec<Action>,
    )
        requires
            forall|k: int| 0 <= k < sids@.len() ==> subs@.contains_key(#[trigger] sids@[k]),
            forall|sid: u32|
                #![trigger subs@[sid]]
                subs@.contains_key(sid) ==> pattern_compiles(subs@[sid]@),
        ensures
            actions_view(final(actions)@) == actions_view(old(actions)@) + matches_of(
                pid,
                strings_map_view(subs@),
                sids@,
                message@,
            ),
    {
        let ghost start = actions_view(actions@);
        let mut k: usize = 0;
        while k < sids.len()
            invariant
                k <= sids@.len(),
                forall|i: int| 0 <= i < sids@.len() ==> subs@.contains_key(#[trigger] sids@[i]),
                forall|sid: u32|
                    #![trigger subs@[sid]]
                    subs@.contains_key(sid) ==> pattern_compiles(subs@[sid]@),
                actions_view(actions@) == start + matches_of(
                    pid,
                    strings_map_view(subs@),
                    sids@.take(k as int),
                    message@,
                ),
            decreases sids@.len() - k,
        {
            let sid = sids[k];
            proof {
                assert(sids@.take(k + 1).drop_last() =~= sids@.take(k as int));
                assert(sids@.take(k + 1).last() == sid);
                assert(subs@.contains_key(sid));
                assert(strings_map_view(subs@)[sid] == subs@[sid]@);
            }
            let ghost before = actions@;
            match subs.get(&sid) {
                Some(regex) => {
                    match Matcher::compile(regex.as_str()) {
                        Some(matcher) => {
                            match matcher.matched_params(message.as_str()) {
                                Some(params) => {
                                    let msg = IvyMsg::TextMsg(sid, params);
                                    actions.push(Action::Send(pid, msg));
                                    proof {
                                        assert(actions@ == before.push(Action::Send(pid, msg)));
                                        assert(actions_view(actions@) =~= actions_view(before).push(
                                            ActionView::Send(pid, msg@),
                                        ));
                                    }
                                },
                                None => {},
                            }
                        },
                        None => {},
                    }
                },
                None => {},
            }
            k = k + 1;
        }
        proof {
            assert(sids@.take(sids@.len() as int) =~= sids@);
        }
    }

    /// For each peer, walked in `order`, the text messages that `message`
    /// gives to its subscriptions.
    fn send_msg(&self, message: &String) -> (res: Vec<Action>)
        requires
            patterns_compile(self@),
        ensures
            exists|order: Seq<u32>, sub_orders: Map<u32, Seq<u32>>|
                {
                    &&& enumerates(order, self@.peers.dom())
                    &&& forall|pid: u32|
                        #![trigger sub_orders[pid]]
                        self@.peers.contains_key(pid) ==> enumerates(
                            sub_orders[pid],
                            self@.peers[pid].subscriptions.dom(),
                        )
                    &&& actions_view(res@) == send_msg_actions(self@.peers, order, sub_orders, message@)
                },
    {
        let order = keys_of(&self.peers);
        let ghost mut sub_orders: Map<u32, Seq<u32>> = Map::empty();
        let mut actions: Vec<Action> = Vec::new();
        let mut j: usize = 0;
        while j < order.len()
            invariant
                j <= order@.len(),
                order@.no_duplicates(),
                forall|k: u32| self.peers@.contains_key(k) <==> order@.contains(k),
                patterns_compile(self@),
                forall|i: int|
                    0 <= i < j ==> #[trigger] sub_orders.contains_key(order@[i]) && enumerates(
                        sub_orders[order@[i]],
                        self@.peers[order@[i]].subscriptions.dom(),
                    ),
                actions_view(actions@) == send_msg_actions(
                    self@.peers,
                    order@.take(j as int),
                    sub_orders,
                    message@,
                ),
            decreases order@.len() - j,
        {
            let pid = order[j];
            proof {
                assert(order@.contains(pid));
                assert(order@.take(j + 1).drop_last() =~= order@.take(j as int));
                assert(order@.take(j + 1).last() == pid);
                assert(!order@.take(j as int).contains(pid)) by {
                    if order@.take(j as int).contains(pid) {
                        let i = choose|i: int| 0 <= i < j && order@.take(j as int)[i] == pid;
                        assert(order@[i] == order@[j as int]);
                    }
                }
            }
            match self.peers.get(&pid) {
                Some(peer) => {
                    let sids = keys_of(&peer.subscriptions);
                    proof {
                        lemma_send_msg_actions_frame(
                            self@.peers,
                            order@.take(j as int),
                            sub_orders,
                            pid,
                            sids@,
                            message@,
                        );
                        let ghost prev = sub_orders;
                        sub_orders = sub_orders.insert(pid, sids@);
                        assert forall|k: int| 0 <= k < sids@.len() implies peer.subscriptions@.contains_key(
                            #[trigger] sids@[k],
                        ) by {
                            assert(sids@.contains(sids@[k]));
                        }
                        assert(self@.peers[pid] == peer@);
                        assert forall|sid: u32|
                            #![trigger peer.subscriptions@[sid]]
                            peer.subscriptions@.contains_key(sid) implies pattern_compiles(
                                peer.subscriptions@[sid]@,
                            ) by {
                            assert(self@.peers[pid].subscriptions[sid] == peer.subscriptions@[sid]@);
                        }
                        assert forall|i: int| 0 <= i < j + 1 implies #[trigger] sub_orders.contains_key(
                            order@[i],
                        ) && enumerates(
                            sub_orders[order@[i]],
                            self@.peers[order@[i]].subscriptions.dom(),
                        ) by {
                            if i == j {
                                assert(order@[i] == pid);
                                assert(self@.peers[pid].subscriptions.dom() =~= peer.subscriptions@.dom());
                            } else {
                                assert(order@[i] != pid);
                                assert(prev.contains_key(order@[i]));
                            }
                        }
                    }
                    Self::matches_for_peer(pid, &peer.subscriptions, &sids, message, &mut actions);
                },
                None => {
                    proof {
                        assert(false);
                    }
                },
            }
            j = j + 1;
        }
        proof {
            assert(order@.take(order@.len() as int) =~= order@);
            assert forall|pid: u32| #![trigger sub_orders[pid]] self@.peers.contains_key(pid) implies enumerates(
                sub_orders[pid],
                self@.peers[pid].subscriptions.dom(),
            ) by {
                assert(order@.contains(pid));
                let i = choose|i: int| 0 <= i < order@.len() && order@[i] == pid;
                assert(sub_orders.contains_key(order@[i]));
            }
        }
        actions
    }

    /// Marks every peer as stopping; returns a stop request for the reader of
    /// each, walking them in `order`.
    fn stop_peers(&mut self, order: &Vec<u32>) -> (res: Vec<Action>)
        requires
            enumerates(order@, old(self)@.peers.dom()),
        ensures
            final(self)@ == (BusView {
                peers: old(self)@.peers.map_values(|p: PeerView| terminating(p)),
                ..old(self)@
            }),
            actions_view(res@) == stop_all(order@),
    {
        let ghost s = self@;
        let mut res: Vec<Action> = Vec::new();
        let mut j: usize = 0;
        while j < order.len()
            invariant
                j <= order@.len(),
                enumerates(order@, s.peers.dom()),
                res@.len() == j,
                actions_view(res@) == stop_all(order@.take(j as int)),
                self@ == (BusView {
                    peers: Map::new(
                        |k: u32| s.peers.contains_key(k),
                        |k: u32|
                            if order@.take(j as int).contains(k) {
                                terminating(s.peers[k])
                            } else {
                                s.peers[k]
                            },
                    ),
                    ..s
                }),
            decreases order@.len() - j,
        {
            let pid = order[j];
            let ghost pre = self@;
            proof {
                assert(order@.contains(pid));
                assert(self@.peers.contains_key(pid));
                assert(self.peers@.contains_key(pid));
                assert(order@.take(j + 1) =~= order@.take(j as int).push(pid));
                assert(!order@.take(j as int).contains(pid)) by {
                    if order@.take(j as int).contains(pid) {
                        let i = choose|i: int| 0 <= i < j && order@.take(j as int)[i] == pid;
                        assert(order@[i] == order@[j as int]);
                    }
                }
            }
            if let Some(mut peer) = self.peers.remove(&pid) {
                peer.should_terminate = true;
                let ghost pv = peer@;
                self.put_peer(pid, peer);
                proof {
                    assert(pre.peers[pid] == s.peers[pid]);
                    assert(pv == terminating(s.peers[pid]));
                    assert(self@.peers =~= pre.peers.insert(pid, pv));
                }
            } else {
                proof {
                    assert(false);
                }
            }
            let ghost before = res@;
            res.push(Action::StopPeer(pid));
            proof {
                assert(res@ == before.push(Action::StopPeer(pid)));
                assert forall|i: int| 0 <= i < j implies #[trigger] res@[i]@ == stop_all(order@.take(j as int))[i] by {
                    assert(res@[i] == before[i]);
                    assert(actions_view(before)[i] == before[i]@);
                }
                assert(actions_view(res@) =~= stop_all(order@.take(j + 1)));
                let target = Map::new(
                    |k: u32| s.peers.contains_key(k),
                    |k: u32|
                        if order@.take(j + 1).contains(k) {
                            terminating(s.peers[k])
                        } else {
                            s.peers[k]
                        },
                );
                assert forall|k: u32| #[trigger] target.contains_key(k) implies self@.peers.contains_key(k)
                    && target[k] == self@.peers[k] by {
                    if k != pid {
                        assert(order@.take(j + 1).contains(k) == order@.take(j as int).contains(k)) by {
                            if order@.take(j + 1).contains(k) {
                                let i = choose|i: int| 0 <= i < j + 1 && #[trigger] order@.take(j + 1)[i] == k;
                                assert(order@.take(j as int)[i] == k);
                            }
                            if order@.take(j as int).contains(k) {
                                let i = choose|i: int| 0 <= i < j && #[trigger] order@.take(j as int)[i] == k;
                                assert(order@.take(j + 1)[i] == k);
                            }
                        }
                    } else {
                        assert(order@.take(j + 1)[j as int] == pid);
                    }
                }
                assert forall|k: u32| #[trigger] self@.peers.contains_key(k) implies target.contains_key(k) by {
                    if k != pid {
                        assert(pre.peers.contains_key(k));
                    }
                }
                assert(self@.peers =~= target);
                assert(self@ =~= (BusView {
                    peers: Map::new(
                        |k: u32| s.peers.contains_key(k),
                        |k: u32|
                            if order@.take(j + 1).contains(k) {
                                terminating(s.peers[k])
                            } else {
                                s.peers[k]
                            },
                    ),
                    ..s
                }));
            }
            j = j + 1;
        }
        proof {
            assert(order@.take(order@.len() as int) =~= order@);
            assert(self@ =~= (BusView {
                peers: s.peers.map_values(|p: PeerView| terminating(p)),
                ..s
            }));
        }
        res
    }

    /// Whether every pattern that a peer subscribed to compiles.
    pub fn all_patterns_compile(&self) -> (res: bool)
        ensures
            res == patterns_compile(self@),
    {
        let order = keys_of(&self.peers);
        let mut j: usize = 0;
        while j < order.len()
            invariant
                j <= order@.len(),
                forall|k: u32| self.peers@.contains_key(k) <==> order@.contains(k),
                forall|i: int, sid: u32|
                    #![trigger self@.peers[order@[i]].subscriptions[sid]]
                    0 <= i < j && self@.peers[order@[i]].subscriptions.contains_key(sid)
                        ==> pattern_compiles(self@.peers[order@[i]].subscriptions[sid]),
            decreases order@.len() - j,
        {
            let pid = order[j];
            proof {
                assert(order@.contains(pid));
            }
            match self.peers.get(&pid) {
                Some(peer) => {
                    let sids = keys_of(&peer.subscriptions);
                    let mut k: usize = 0;
                    while k < sids.len()
                        invariant
                            k <= sids@.len(),
                            self.peers@.contains_key(pid),
                            self.peers@[pid] == *peer,
                            forall|q: u32| peer.subscriptions@.contains_key(q) <==> sids@.contains(q),
                            forall|i: int| 0 <= i < k ==> pattern_compiles(
                                #[trigger] peer.subscriptions@[sids@[i]]@,
                            ),
                        decreases sids@.len() - k,
                    {
                        let sid = sids[k];
                        proof {
                            assert(sids@.contains(sid));
                        }
                        match peer.subscriptions.get(&sid) {
                            Some(regex) => {
                                if Matcher::compile(regex.as_str()).is_none() {
                                    proof {
                                        assert(self@.peers[pid] == peer@);
                                        assert(self@.peers[pid].subscriptions[sid] == regex@);
                                    }
                                    return false;
                                }
                            },
                            None => {
                                proof {
                                    assert(false);
                                }
                            },
                        }
                        k = k + 1;
                    }
                    proof {
                        assert(self@.peers[pid] == peer@);
                        assert forall|sid: u32|
                            #![trigger self@.peers[pid].subscriptions[sid]]
                            self@.peers[pid].subscriptions.contains_key(sid) implies pattern_compiles(
                                self@.peers[pid].subscriptions[sid],
                            ) by {
                            assert(sids@.contains(sid));
                            let i = choose|i: int| 0 <= i < sids@.len() && sids@[i] == sid;
                            assert(pattern_compiles(peer.subscriptions@[sids@[i]]@));
                        }
                    }
                },
                None => {
                    proof {
                        assert(false);
                    }
                },
            }
            j = j + 1;
        }
        proof {
            assert forall|pid: u32, sid: u32|
                #![trigger self@.peers[pid].subscriptions[sid]]
                self@.peers.contains_key(pid) && self@.peers[pid].subscriptions.contains_key(sid)
                    implies pattern_compiles(self@.peers[pid].subscriptions[sid]) by {
                assert(order@.contains(pid));
                let i = choose|i: int| 0 <= i < order@.len() && order@[i] == pid;
                assert(self@.peers[order@[i]].subscriptions.contains_key(sid));
            }
        }
        true
    }

    /// Handles command `cmd` from the application. Sending a text needs
    /// every pattern that a peer subscribed to to compile (the bus stops on
    /// one that does not).
    pub fn handle_command(&mut self, cmd: Command) -> (actions: Vec<Action>)
        requires
            cmd is SendMsg ==> patterns_compile(old(self)@),
        ensures
            final(self)@ == command_state(old(self)@, cmd),
            command_outcome(old(self)@, cmd, actions_view(actions@)),
    {
        let ghost s = self@;
        match cmd {
            Command::Sub(sub_id, regex) => {
                let order = keys_of(&self.peers);
                let actions = Self::broadcast(&order, &IvyMsg::Sub(sub_id, regex));
                assert(enumerates(order@, s.peers.dom()));
                actions
            },
            Command::SendMsg(message) => self.send_msg(&message),
            Command::SendDirectMsg(peer_id, id, msg) => {
                let mut actions: Vec<Action> = Vec::new();
                if self.peers.contains_key(&peer_id) {
                    actions.push(Action::Send(peer_id, IvyMsg::DirectMsg(id, msg)));
                }
                proof {
                    assert(actions_view(actions@) =~= (if s.peers.contains_key(peer_id) {
                        seq![ActionView::Send(peer_id, MsgView::DirectMsg(id, msg@))]
                    } else {
                        seq![]
                    }));
                }
                actions
            },
            Command::UnSub(sub_id) => {
                let order = keys_of(&self.peers);
                let actions = Self::broadcast(&order, &IvyMsg::DelSub(sub_id));
                assert(enumerates(order@, s.peers.dom()));
                actions
            },
            Command::Ping(peer_id, ping_id) => {
                let mut actions: Vec<Action> = Vec::new();
                if self.peers.contains_key(&peer_id) {
                    self.pending_pings.insert(peer_id);
                    actions.push(Action::PingStarted(peer_id));
                    actions.push(Action::Send(peer_id, IvyMsg::Ping(ping_id)));
                }
                proof {
                    assert(actions_view(actions@) =~= (if s.peers.contains_key(peer_id) {
                        seq![ActionView::PingStarted(peer_id), ActionView::Send(peer_id, MsgView::Ping(ping_id))]
                    } else {
                        seq![]
                    }));
                    assert(self@ =~= command_state(s, Command::Ping(peer_id, ping_id)));
                }
                actions
            },
            Command::Stop => {
                let order = keys_of(&self.peers);
                assert(enumerates(order@, s.peers.dom()));
                let mut actions = Self::broadcast(&order, &IvyMsg::Bye);
                let mut stops = self.stop_peers(&order);
                self.should_terminate = true;
                let ghost a1 = actions@;
                let ghost a2 = stops@;
                actions.append(&mut stops);
                actions.push(Action::StopListeners);
                proof {
                    assert(actions@ == (a1 + a2).push(Action::StopListeners));
                    assert(actions_view(actions@) =~= send_to_all(order@, MsgView::Bye) + stop_all(order@)
                        + seq![ActionView::StopListeners]);
                    assert(self@ =~= command_state(s, Command::Stop));
                }
                actions
            },
        }
    }

    /// Handles command `cmd`, where it can be handled: `None`, and no
    /// change, for a text to send while some pattern that a peer subscribed
    /// to does not compile.
    pub fn try_handle_command(&mut self, cmd: Command) -> (res: Option<Vec<Action>>)
        ensures
            res is None <==> (cmd is SendMsg && !patterns_compile(old(self)@)),
            res is None ==> final(self)@ == old(self)@,
            res matches Some(actions) ==> final(self)@ == command_state(old(self)@, cmd)
                && command_outcome(old(self)@, cmd, actions_view(actions@)),
    {
        if let Command::SendMsg(_) = &cmd {
            if !self.all_patterns_compile() {
                return None;
            }
        }
        Some(self.handle_command(cmd))
    }

    /// The messages that open a connection to a peer: the application's
    /// subscriptions, then the end of the subscriptions.
    pub fn initial_subscriptions(&self) -> (res: Vec<IvyMsg>)
        ensures
            exists|order: Seq<u32>|
                enumerates(order, self@.subscriptions.dom()) && msgs_view(res@) == initial_msgs(
                    self@.subscriptions,
                    order,
                ),
    {
        let order = keys_of(&self.subscriptions);
        let mut res: Vec<IvyMsg> = Vec::new();
        let mut j: usize = 0;
        while j < order.len()
            invariant
                j <= order@.len(),
                forall|k: u32| self.subscriptions@.contains_key(k) <==> order@.contains(k),
                res@.len() == j,
                forall|i: int|
                    0 <= i < j ==> (#[trigger] res@[i])@ == MsgView::Sub(
                        order@[i],
                        self@.subscriptions[order@[i]],
                    ),
            decreases order@.len() - j,
        {
            let sid = order[j];
            proof {
                assert(order@.contains(sid));
            }
            match self.subscriptions.get(&sid) {
                Some(regex) => {
                    res.push(IvyMsg::Sub(sid, regex.clone()));
                },
                None => {
                    proof {
                        assert(false);
                    }
                },
            }
            j = j + 1;
        }
        res.push(IvyMsg::EndSub);
        proof {
            assert(msgs_view(res@) =~= initial_msgs(self@.subscriptions, order@));
        }
        res
    }

    /// A peer connected to the bus: it gets the next thread id. Returns
    /// that id and the messages that open the connection.
    pub fn accept_connection(&mut self) -> (res: (u32, Vec<IvyMsg>))
        ensures
            (final(self)@, res.0) == connect_spec(old(self)@, Seq::empty()),
            exists|order: Seq<u32>|
                enumerates(order, old(self)@.subscriptions.dom()) && msgs_view(res.1@)
                    == initial_msgs(old(self)@.subscriptions, order),
    {
        let peer_id = self.add_peer(String::new());
        (peer_id, self.initial_subscriptions())
    }

    /// The bus connected to the peer named `peer_name` behind an announce:
    /// it gets the next thread id. Returns that id and the messages that
    /// open the connection: the bus's port and name, then the application's
    /// subscriptions.
    pub fn connect_announced_peer(&mut self, peer_name: String) -> (res: (u32, Vec<IvyMsg>))
        ensures
            (final(self)@, res.0) == connect_spec(old(self)@, peer_name@),
            exists|order: Seq<u32>|
                enumerates(order, old(self)@.subscriptions.dom()) && msgs_view(res.1@) == seq![
                    MsgView::PeerId(old(self)@.local_port, old(self)@.appname),
                ] + initial_msgs(old(self)@.subscriptions, order),
    {
        let peer_id = self.add_peer(peer_name);
        let mut msgs: Vec<IvyMsg> = Vec::new();
        msgs.push(IvyMsg::PeerId(self.local_port, self.appname.clone()));
        let mut subs = self.initial_subscriptions();
        let ghost first = msgs@;
        let ghost rest = subs@;
        msgs.append(&mut subs);
        proof {
            assert(msgs@ == first + rest);
            assert(msgs_view(msgs@) =~= msgs_view(first) + msgs_view(rest));
        }
        (peer_id, msgs)
    }

    /// Records a new peer named `name` under the next thread id.
    fn add_peer(&mut self, name: String) -> (peer_id: u32)
        ensures
            (final(self)@, peer_id) == connect_spec(old(self)@, name@),
    {
        let peer_id = self.next_thread_id;
        self.next_thread_id = following_id(peer_id);
        let mut peer = Peer::new(peer_id);
        peer.name = name;
        self.threads.insert(peer_id);
        self.put_peer(peer_id, peer);
        proof {
            assert(peer@ =~= (PeerView {
                name: name@,
                id: peer_id,
                subscriptions: Map::empty(),
                should_terminate: false,
            }));
            assert(self@ =~= connect_spec(old(self)@, name@).0);
        }
        peer_id
    }

    /// Puts back the peer `pid`, taken out of the map and updated.
    fn put_peer(&mut self, pid: u32, peer: Peer)
        ensures
            final(self)@ == with_peer(old(self)@, pid, peer@),
    {
        self.peers.insert(pid, peer);
        proof {
            assert(peers_view(self.peers@) =~= peers_view(old(self).peers@).insert(pid, peer@));
        }
    }

    /// Handles message `msg` from peer `peer_id` (an error message is not
    /// handled: the bus stops on one).
    pub fn handle_ivymsg(&mut self, peer_id: u32, msg: IvyMsg) -> (actions: Vec<Action>)
        requires
            !(msg is Error),
        ensures
            (final(self)@, actions_view(actions@)) == ivymsg_step(old(self)@, peer_id, msg@),
    {
        let ghost s = self@;
        let ghost m = msg@;
        let mut actions: Vec<Action> = Vec::new();
        match msg {
            IvyMsg::Bye => {
                if let Some(mut peer) = self.peers.remove(&peer_id) {
                    peer.should_terminate = true;
                    self.put_peer(peer_id, peer);
                    proof {
                        assert(self@ =~= ivymsg_step(s, peer_id, m).0);
                    }
                    actions.push(Action::StopPeer(peer_id));
                }
            },
            IvyMsg::Sub(sub_id, regex) => {
                if let Some(mut peer) = self.peers.remove(&peer_id) {
                    peer.subscriptions.insert(sub_id, regex);
                    proof {
                        assert(strings_map_view(peer.subscriptions@) =~= s.peers[peer_id].subscriptions.insert(sub_id, regex@));
                    }
                    self.put_peer(peer_id, peer);
                    proof {
                        assert(self@ =~= ivymsg_step(s, peer_id, m).0);
                    }
                }
            },
            IvyMsg::TextMsg(sub_id, params) => {
                if self.subscriptions.contains_key(&sub_id) && self.peers.contains_key(&peer_id) {
                    actions.push(Action::Deliver(sub_id, peer_id, params));
                }
            },
            IvyMsg::Error(_) => {},
            IvyMsg::DelSub(sub_id) => {
                if let Some(mut peer) = self.peers.remove(&peer_id) {
                    peer.subscriptions.remove(&sub_id);
                    proof {
                        assert(strings_map_view(peer.subscriptions@) =~= s.peers[peer_id].subscriptions.remove(sub_id));
                    }
                    self.put_peer(peer_id, peer);
                    proof {
                        assert(self@ =~= ivymsg_step(s, peer_id, m).0);
                    }
                }
            },
            IvyMsg::EndSub => {
                if self.peers.contains_key(&peer_id) {
                    actions.push(Action::PeerConnected(peer_id));
                }
            },
            IvyMsg::PeerId(_port, name) => {
                if let Some(mut peer) = self.peers.remove(&peer_id) {
                    peer.name = name;
                    self.put_peer(peer_id, peer);
                    proof {
                        assert(self@ =~= ivymsg_step(s, peer_id, m).0);
                    }
                }
            },
            IvyMsg::DirectMsg(id, text) => {
                if self.peers.contains_key(&peer_id) {
                    actions.push(Action::DirectMessage(peer_id, id, text));
                }
            },
            IvyMsg::Quit => {
                if self.peers.contains_key(&peer_id) {
                    actions.push(Action::QuitRequested(peer_id));
                }
            },
            IvyMsg::Ping(ping_id) => {
                if self.peers.contains_key(&peer_id) {
                    actions.push(Action::Send(peer_id, IvyMsg::Pong(ping_id)));
                }
            },
            IvyMsg::Pong(_pong_id) => {
                if self.pending_pings.remove(&peer_id) {
                    actions.push(Action::PingAnswered(peer_id));
                }
            },
        }
        proof {
            assert(actions_view(actions@) =~= ivymsg_step(s, peer_id, m).1);
            assert(self@ =~= ivymsg_step(s, peer_id, m).0);
        }
        actions
    }

}

/// Subscribing to a pattern and then unsubscribing with the id handed out
/// leaves the application's subscriptions as they were, where that id was
/// free.
pub proof fn law_subscribe_then_unsubscribe(s: BusView, regex: Seq<char>)
    requires
        !s.subscriptions.contains_key(s.next_sub_id),
    ensures
        remove_sub_spec(add_sub_spec(s, regex).0, add_sub_spec(s, regex).1).subscriptions
            == s.subscriptions,
{
    assert(s.subscriptions.insert(s.next_sub_id, regex).remove(s.next_sub_id) =~= s.subscriptions);
}

/// A peer's subscription followed by its cancellation leaves the bus as it
/// was, where the peer had no subscription under that id.
pub proof fn law_peer_subscribe_then_cancel(s: BusView, pid: u32, sub_id: u32, regex: Seq<char>)
    requires
        s.peers.contains_key(pid),
        !s.peers[pid].subscriptions.contains_key(sub_id),
    ensures
        ivymsg_step(ivymsg_step(s, pid, MsgView::Sub(sub_id, regex)).0, pid, MsgView::DelSub(sub_id)).0
            == s,
        ivymsg_step(s, pid, MsgView::Sub(sub_id, regex)).1 == Seq::<ActionView>::empty(),
        ivymsg_step(ivymsg_step(s, pid, MsgView::Sub(sub_id, regex)).0, pid, MsgView::DelSub(sub_id)).1
            == Seq::<ActionView>::empty(),
{
    let p = s.peers[pid];
    let s1 = ivymsg_step(s, pid, MsgView::Sub(sub_id, regex)).0;
    let s2 = ivymsg_step(s1, pid, MsgView::DelSub(sub_id)).0;
    assert(p.subscriptions.insert(sub_id, regex).remove(sub_id) =~= p.subscriptions);
    assert(s2.peers[pid] =~= p);
    assert(s2.peers =~= s.peers);
    assert(s2 =~= s);
}

/// A ping to a connected peer is answered by the first pong from that peer,
/// and only by that one.
pub proof fn law_ping_answered_once(s: BusView, pid: u32, ping_id: u32, pong_id: u32)
    requires
        s.peers.contains_key(pid),
    ensures
        command_state(s, Command::Ping(pid, ping_id)).pending_pings.contains(pid),
        ivymsg_step(command_state(s, Command::Ping(pid, ping_id)), pid, MsgView::Pong(pong_id)).1
            == seq![ActionView::PingAnswered(pid)],
        ivymsg_step(
            ivymsg_step(command_state(s, Command::Ping(pid, ping_id)), pid, MsgView::Pong(pong_id)).0,
            pid,
            MsgView::Pong(pong_id),
        ).1 == Seq::<ActionView>::empty(),
{
}

/// After a stop, every peer and the bus itself are stopping, and no peer
/// is lost.
pub proof fn law_stop_stops_everything(s: BusView)
    ensures
        command_state(s, Command::Stop).should_terminate,
        command_state(s, Command::Stop).peers.dom() == s.peers.dom(),
        forall|pid: u32| #[trigger]
            command_state(s, Command::Stop).peers.contains_key(pid) ==> command_state(
                s,
                Command::Stop,
            ).peers[pid].should_terminate,
{
    assert(command_state(s, Command::Stop).peers.dom() =~= s.peers.dom());
}

/// After a stop, the end of the last running thread lets the bus thread
/// stop, and the end of a thread while others run does not.
pub proof fn law_last_thread_ends_bus(s: BusView, thread_id: u32)
    ensures
        terminated_spec(command_state(s, Command::Stop), thread_id).1 <==> s.threads.remove(
            thread_id,
        ).is_empty(),
{
}

/// Messages from a peer that the bus does not know, and that has no ping
/// in flight, change nothing and call for nothing.
pub proof fn law_unknown_peer_ignored(s: BusView, pid: u32, m: MsgView)
    requires
        !s.peers.contains_key(pid),
        !s.pending_pings.contains(pid),
    ensures
        ivymsg_step(s, pid, m) == (s, Seq::<ActionView>::empty()),
{
    assert(ivymsg_step(s, pid, m).1 =~= Seq::<ActionView>::empty());
}

/// A text message from a known peer, for a subscription that the
/// application holds, calls that subscription's callback once, for that
/// peer, with the parameters exactly as they came, and changes nothing.
pub proof fn law_text_delivered_as_received(s: BusView, pid: u32, sub_id: u32, params: Seq<Seq<char>>)
    requires
        s.peers.contains_key(pid),
        s.subscriptions.contains_key(sub_id),
    ensures
        ivymsg_step(s, pid, MsgView::TextMsg(sub_id, params)).0 == s,
        ivymsg_step(s, pid, MsgView::TextMsg(sub_id, params)).1.len() == 1,
        ivymsg_step(s, pid, MsgView::TextMsg(sub_id, params)).1[0] == ActionView::Deliver(
            sub_id,
            pid,
            params,
        ),
{
}

/// The messages that open a connection end with the end of the
/// subscriptions, and each message before it announces a subscription that
/// the application holds, under its own id and with its own pattern; each
/// held subscription is announced, and no id twice.
pub proof fn law_opening_announces_held_subscriptions(subs: Map<u32, Seq<char>>, order: Seq<u32>)
    requires
        enumerates(order, subs.dom()),
    ensures
        initial_msgs(subs, order).len() >= 1,
        initial_msgs(subs, order).last() == MsgView::EndSub,
        forall|i: int|
            0 <= i < initial_msgs(subs, order).len() - 1 ==> ((#[trigger] initial_msgs(subs, order)[i]) matches MsgView::Sub(id, re)
                && subs.contains_key(id) && subs[id] == re),
        forall|id: u32|
            #[trigger] subs.contains_key(id) ==> exists|i: int|
                0 <= i < initial_msgs(subs, order).len() - 1 && initial_msgs(subs, order)[i]
                    == MsgView::Sub(id, subs[id]),
        forall|i: int, j: int|
            0 <= i < j < initial_msgs(subs, order).len() - 1 ==> (#[trigger] initial_msgs(subs, order)[i])->Sub_0
                != (#[trigger] initial_msgs(subs, order)[j])->Sub_0,
{
    let ms = initial_msgs(subs, order);
    assert(ms.len() == order.len() + 1);
    assert forall|i: int| 0 <= i < ms.len() - 1 implies ((#[trigger] ms[i]) matches MsgView::Sub(id, re)
        && subs.contains_key(id) && subs[id] == re) by {
        assert(order.contains(order[i]));
    }
    assert forall|id: u32| #[trigger] subs.contains_key(id) implies exists|i: int|
        0 <= i < ms.len() - 1 && ms[i] == MsgView::Sub(id, subs[id]) by {
        assert(order.contains(id));
        let i = choose|i: int| 0 <= i < order.len() && order[i] == id;
        assert(ms[i] == MsgView::Sub(id, subs[id]));
    }
    assert forall|i: int, j: int| 0 <= i < j < ms.len() - 1 implies (#[trigger] ms[i])->Sub_0
        != (#[trigger] ms[j])->Sub_0 by {
        assert(ms[i]->Sub_0 == order[i]);
        assert(ms[j]->Sub_0 == order[j]);
    }
}

/// Every known peer carries its own id and has a running reader thread.
pub open spec fn peers_consistent(s: BusView) -> bool {
    forall|pid: u32|
        #[trigger] s.peers.contains_key(pid) ==> s.peers[pid].id == pid && s.threads.contains(pid)
}

/// Every operation of the bus keeps each known peer under its own id and
/// with a running reader thread.
pub proof fn law_peers_stay_consistent(
    s: BusView,
    pid: u32,
    m: MsgView,
    cmd: Command,
    name: Seq<char>,
    regex: Seq<char>,
    sub_id: u32,
    thread_id: u32,
    port: u16,
)
    requires
        peers_consistent(s),
    ensures
        peers_consistent(initial_view(name)),
        peers_consistent(ivymsg_step(s, pid, m).0),
        peers_consistent(command_state(s, cmd)),
        peers_consistent(connect_spec(s, name).0),
        peers_consistent(terminated_spec(s, thread_id).0),
        peers_consistent(add_sub_spec(s, regex).0),
        peers_consistent(remove_sub_spec(s, sub_id)),
        peers_consistent(BusView { threads: s.threads.insert(thread_id), ..s }),
        peers_consistent(BusView { local_port: port, ..s }),
        peers_consistent(BusView { next_ping_id: next_id(s.next_ping_id), ..s }),
{
    let t = ivymsg_step(s, pid, m).0;
    assert forall|q: u32| #[trigger] t.peers.contains_key(q) implies t.peers[q].id == q
        && t.threads.contains(q) by {
        assert(s.peers.contains_key(q));
    }
    let c = command_state(s, cmd);
    assert forall|q: u32| #[trigger] c.peers.contains_key(q) implies c.peers[q].id == q
        && c.threads.contains(q) by {
        assert(s.peers.contains_key(q));
    }
}

/// Two peers that connect one after the other get different ids, and each
/// is known under its id afterwards.
pub proof fn law_connections_get_distinct_ids(s: BusView, a: Seq<char>, b: Seq<char>)
    ensures
        connect_spec(connect_spec(s, a).0, b).1 != connect_spec(s, a).1,
        connect_spec(connect_spec(s, a).0, b).0.peers.contains_key(connect_spec(s, a).1),
        connect_spec(connect_spec(s, a).0, b).0.peers.contains_key(connect_spec(connect_spec(s, a).0, b).1),
{
}

} // verus!
