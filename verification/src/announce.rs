//! The UDP announce by which a bus makes itself known on its domain, and
//! the decision to connect to the peer behind an announce.
use vstd::prelude::*;
use vstd::string::StringSliceAdditionalSpecFns;
use vstd::utf8::*;

use crate::ivy_messages::{announce_spec, lemma_ascii_valid, parse_udp_announce, Announce};
use crate::wire::{
    decimal, decimal_u16, decimal_u8, lemma_decimal_roundtrip, lemma_decimal_shape,
    lemma_split_four, push_decimal, str_from_utf8, is_digit,
};

verus! {

broadcast use vstd::seq::group_seq_axioms, vstd::utf8::group_utf8_lib;

/// The version of the Ivy protocol that this bus speaks.
pub const PROTOCOL_VERSION: u32 = 3u32;

/// The watcher id of a bus: its name, `_` and its TCP port.
pub open spec fn watcher_bytes(app: Seq<u8>, port: u16) -> Seq<u8> {
    app + seq![95u8] + decimal(port as nat)
}

/// The announce of a bus: `<protocol version> <TCP port> <watcher id>
/// <name>` and a newline.
pub open spec fn announce_bytes(app: Seq<u8>, port: u16) -> Seq<u8> {
    decimal(3).push(32u8) + decimal(port as nat).push(32u8) + watcher_bytes(app, port).push(32u8)
        + app.push(10u8)
}

/// What a bus whose watcher id is `mine` does with the announce `text`: the
/// TCP port and name of the peer to connect to, or `None` where the text is
/// no announce, speaks another protocol version, or is its own.
pub open spec fn accept_spec(text: Seq<u8>, mine: Seq<char>) -> Option<(u16, Seq<char>)> {
    match announce_spec(text) {
        Announce::Fields(version, port, watcher_id, name) => if version == 3 && watcher_id != mine {
            Some((port, name))
        } else {
            None
        },
        _ => None,
    }
}

proof fn lemma_decimal_plain(n: nat)
    ensures
        forall|i: int| 0 <= i < decimal(n).len() ==> #[trigger] decimal(n)[i] < 0x80,
        !decimal(n).contains(32),
{
    lemma_decimal_shape(n);
    assert forall|i: int| 0 <= i < decimal(n).len() implies #[trigger] decimal(n)[i] < 0x80 by {
        assert(is_digit(decimal(n)[i]));
    }
    assert(!decimal(n).contains(32)) by {
        if decimal(n).contains(32) {
            let i = choose|i: int| 0 <= i < decimal(n).len() && decimal(n)[i] == 32;
            assert(is_digit(decimal(n)[i]));
        }
    }
}

/// The watcher id of the bus named `appname` listening on `port`.
pub fn watcher_id(appname: &str, port: u16) -> (res: String)
    ensures
        res@ == decode_utf8(watcher_bytes(appname.spec_bytes(), port)),
        encode_utf8(res@) == watcher_bytes(appname.spec_bytes(), port),
{
    let mut buf: Vec<u8> = Vec::new();
    buf.extend_from_slice(appname.as_bytes());
    buf.push(95);
    push_decimal(&mut buf, port as u32);
    let ghost app = appname.spec_bytes();
    proof {
        assert(buf@ =~= watcher_bytes(app, port));
        lemma_decimal_plain(port as nat);
        let tail = seq![95u8] + decimal(port as nat);
        assert forall|i: int| 0 <= i < tail.len() implies #[trigger] tail[i] < 0x80 by {
            if i > 0 {
                assert(tail[i] == decimal(port as nat)[i - 1]);
            }
        }
        lemma_ascii_valid(tail);
        encode_utf8_valid_utf8(appname@);
        valid_utf8_concat(app, tail);
        assert(app + tail =~= buf@);
    }
    match str_from_utf8(buf.as_slice()) {
        Some(text) => {
            proof {
                encode_utf8_decode_utf8(text@);
            }
            text.to_owned()
        },
        None => String::new(),
    }
}

/// The announce that the bus named `appname` listening on `port` sends.
pub fn announce_message(appname: &str, port: u16) -> (res: Vec<u8>)
    ensures
        res@ == announce_bytes(appname.spec_bytes(), port),
{
    let mut buf: Vec<u8> = Vec::new();
    push_decimal(&mut buf, PROTOCOL_VERSION);
    buf.push(32);
    push_decimal(&mut buf, port as u32);
    buf.push(32);
    buf.extend_from_slice(appname.as_bytes());
    buf.push(95);
    push_decimal(&mut buf, port as u32);
    buf.push(32);
    buf.extend_from_slice(appname.as_bytes());
    buf.push(10);
    proof {
        assert(buf@ =~= announce_bytes(appname.spec_bytes(), port));
    }
    buf
}

/// What the bus whose watcher id is `my_watcher_id` does with an announce:
/// the TCP port and name of the peer behind it, or `None` where the text
/// is no announce, another protocol version, or the bus's own announce.
pub fn accept_announce(text: &str, my_watcher_id: &String) -> (res: Option<(u16, String)>)
    ensures
        match accept_spec(text.spec_bytes(), my_watcher_id@) {
            Some((port, name)) => res matches Some(r) && r.0 == port && r.1@ == name,
            None => res is None,
        },
{
    match parse_udp_announce(text) {
        Ok((protocol_version, port, watcher_id, peer_name)) => {
            if protocol_version as u32 != PROTOCOL_VERSION {
                return None;
            }
            if watcher_id == *my_watcher_id {
                return None;
            }
            Some((port, peer_name))
        },
        Err(_) => None,
    }
}

/// Reading the announce of a bus whose name holds no space gives back its
/// version, port, watcher id and name (with the newline that ends the
/// announce).
pub proof fn lemma_announce_roundtrip(app: Seq<u8>, port: u16)
    requires
        valid_utf8(app),
        !app.contains(32),
    ensures
        announce_spec(announce_bytes(app, port)) == Announce::Fields(
            3,
            port,
            decode_utf8(watcher_bytes(app, port)),
            decode_utf8(app.push(10u8)),
        ),
{
    lemma_decimal_plain(3);
    lemma_decimal_plain(port as nat);
    let w = watcher_bytes(app, port);
    assert(!w.contains(32)) by {
        if w.contains(32) {
            let i = choose|i: int| 0 <= i < w.len() && w[i] == 32;
            if i < app.len() {
                assert(app[i] == 32);
            } else if i > app.len() {
                assert(decimal(port as nat)[i - app.len() - 1] == 32);
            }
        }
    }
    assert(!app.push(10u8).contains(32)) by {
        if app.push(10u8).contains(32) {
            let i = choose|i: int| 0 <= i < app.len() + 1 && app.push(10u8)[i] == 32;
            if i < app.len() {
                assert(app[i] == 32);
            }
        }
    }
    lemma_split_four(decimal(3), decimal(port as nat), w, app.push(10u8), 32);
    lemma_decimal_roundtrip(3);
    lemma_decimal_roundtrip(port as nat);
    assert(decimal_u8(decimal(3)) == Some(3u8));
    assert(decimal_u16(decimal(port as nat)) == Some(port));
}

/// A bus ignores its own announce.
pub proof fn lemma_own_announce_ignored(app: Seq<u8>, port: u16)
    requires
        valid_utf8(app),
        !app.contains(32),
    ensures
        accept_spec(announce_bytes(app, port), decode_utf8(watcher_bytes(app, port))) is None,
{
    lemma_announce_roundtrip(app, port);
}

/// A bus connects to the peer behind another bus's announce: to its port,
/// under its name.
pub proof fn lemma_other_announce_accepted(app: Seq<u8>, port: u16, mine: Seq<char>)
    requires
        valid_utf8(app),
        !app.contains(32),
        mine != decode_utf8(watcher_bytes(app, port)),
    ensures
        accept_spec(announce_bytes(app, port), mine) == Some((port, decode_utf8(app.push(10u8)))),
{
    lemma_announce_roundtrip(app, port);
}

} // verus!
