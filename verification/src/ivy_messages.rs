//! Ivy messages and their text form on a peer connection, and the UDP
//! announce by which peers find each other.
use vstd::prelude::*;
use vstd::utf8::*;
use vstd::string::StringSliceAdditionalSpecFns;

use crate::ivyerror::IvyError;
use crate::wire::{
    all_digits, decimal, decimal_u16, decimal_u32, decimal_u8, decimal_value, find_field_sep, first_two_seps,
    is_digit, is_field_sep, is_piece_range, join_terminated, lemma_decimal_roundtrip,
    lemma_decimal_shape, lemma_piece_valid, lemma_split_fields_at, lemma_split_four, lemma_split_join_terminated,
    no_field_sep, parse_u16, parse_u32, parse_u8, piece, push_decimal, split_fields, split_on, split_ranges,
    str_from_utf8,
};

verus! {

broadcast use vstd::seq::group_seq_axioms, vstd::utf8::group_utf8_lib;

/// A message exchanged between two peers of the bus.
#[derive(Debug)]
pub enum IvyMsg {
    Bye,
    Sub(u32, String),
    TextMsg(u32, Vec<String>),
    Error(String),
    DelSub(u32),
    EndSub,
    PeerId(u16, String),
    DirectMsg(u32, String),
    Quit,
    Ping(u32),
    Pong(u32),
}

/// The mathematical content of an [`IvyMsg`]: its texts as sequences of
/// characters.
pub enum MsgView {
    Bye,
    Sub(u32, Seq<char>),
    TextMsg(u32, Seq<Seq<char>>),
    Error(Seq<char>),
    DelSub(u32),
    EndSub,
    PeerId(u16, Seq<char>),
    DirectMsg(u32, Seq<char>),
    Quit,
    Ping(u32),
    Pong(u32),
}

pub open spec fn strings_view(v: Seq<String>) -> Seq<Seq<char>> {
    v.map_values(|p: String| p@)
}

impl View for IvyMsg {
    type V = MsgView;

    open spec fn view(&self) -> MsgView {
        match self {
            IvyMsg::Bye => MsgView::Bye,
            IvyMsg::Sub(id, re) => MsgView::Sub(*id, re@),
            IvyMsg::TextMsg(id, ps) => MsgView::TextMsg(*id, strings_view(ps@)),
            IvyMsg::Error(t) => MsgView::Error(t@),
            IvyMsg::DelSub(id) => MsgView::DelSub(*id),
            IvyMsg::EndSub => MsgView::EndSub,
            IvyMsg::PeerId(port, name) => MsgView::PeerId(*port, name@),
            IvyMsg::DirectMsg(id, t) => MsgView::DirectMsg(*id, t@),
            IvyMsg::Quit => MsgView::Quit,
            IvyMsg::Ping(id) => MsgView::Ping(*id),
            IvyMsg::Pong(id) => MsgView::Pong(*id),
        }
    }
}

/// The message type number that starts the text form of `m`.
pub open spec fn msg_tag(m: MsgView) -> u8 {
    match m {
        MsgView::Bye => 0,
        MsgView::Sub(..) => 1,
        MsgView::TextMsg(..) => 2,
        MsgView::Error(..) => 3,
        MsgView::DelSub(..) => 4,
        MsgView::EndSub => 5,
        MsgView::PeerId(..) => 6,
        MsgView::DirectMsg(..) => 7,
        MsgView::Quit => 8,
        MsgView::Ping(..) => 9,
        MsgView::Pong(..) => 10,
    }
}

/// The number that follows the type in the text form of `m`.
pub open spec fn msg_ident(m: MsgView) -> u32 {
    match m {
        MsgView::Sub(id, _) => id,
        MsgView::TextMsg(id, _) => id,
        MsgView::DelSub(id) => id,
        MsgView::PeerId(port, _) => port as u32,
        MsgView::DirectMsg(id, _) => id,
        MsgView::Ping(id) => id,
        MsgView::Pong(id) => id,
        _ => 0,
    }
}

/// The UTF-8 bytes of each text.
pub open spec fn encode_all(ps: Seq<Seq<char>>) -> Seq<Seq<u8>> {
    ps.map_values(|p: Seq<char>| encode_utf8(p))
}

/// The parameters that end the text form of `m`: its text in UTF-8, or for
/// a text message each argument followed by the byte 3.
pub open spec fn msg_payload(m: MsgView) -> Seq<u8> {
    match m {
        MsgView::Sub(_, re) => encode_utf8(re),
        MsgView::TextMsg(_, ps) => join_terminated(encode_all(ps), 3),
        MsgView::Error(t) => encode_utf8(t),
        MsgView::PeerId(_, name) => encode_utf8(name),
        MsgView::DirectMsg(_, t) => encode_utf8(t),
        _ => Seq::empty(),
    }
}

/// A frame: `<type> <ident>`, the byte 2, the parameters and a newline.
pub open spec fn frame(t: u8, ident: u32, params: Seq<u8>) -> Seq<u8> {
    decimal(t as nat) + seq![32u8] + decimal(ident as nat) + seq![2u8] + params + seq![10u8]
}

/// The frame that carries `m`.
pub open spec fn frame_of(m: MsgView) -> Seq<u8> {
    frame(msg_tag(m), msg_ident(m), msg_payload(m))
}

/// A frame holds, in this order and with nothing else: the decimal digits
/// of the type, which read back as the type; one space; the decimal digits
/// of the ident, which read back as the ident; the byte 2; the parameters
/// as they are, whatever their length or content; a newline.
pub proof fn law_frame_layout(t: u8, ident: u32, params: Seq<u8>)
    ensures
        ({
            let f = frame(t, ident, params);
            let a = decimal(t as nat).len() as int;
            let b = decimal(ident as nat).len() as int;
            &&& a > 0 && b > 0
            &&& f.len() == a + b + params.len() + 3
            &&& all_digits(f.subrange(0, a))
            &&& decimal_value(f.subrange(0, a)) == Some(t as nat)
            &&& f[a] == 32
            &&& all_digits(f.subrange(a + 1, a + 1 + b))
            &&& decimal_value(f.subrange(a + 1, a + 1 + b)) == Some(ident as nat)
            &&& f[a + 1 + b] == 2
            &&& f.subrange(a + b + 2, a + b + 2 + params.len()) == params
            &&& f[f.len() - 1] == 10
        }),
{
    let f = frame(t, ident, params);
    let dt = decimal(t as nat);
    let di = decimal(ident as nat);
    let a = dt.len() as int;
    let b = di.len() as int;
    lemma_decimal_shape(t as nat);
    lemma_decimal_shape(ident as nat);
    lemma_decimal_roundtrip(t as nat);
    lemma_decimal_roundtrip(ident as nat);
    assert(f.subrange(0, a) =~= dt);
    assert(f.subrange(a + 1, a + 1 + b) =~= di);
    assert(f.subrange(a + b + 2, a + b + 2 + params.len()) =~= params);
}

/// The message of type `msg_id` that `ident` and `params` make, if
/// `msg_id` names a type. Texts are read as UTF-8; the parameters of a text
/// message are the pieces between the bytes 3.
pub open spec fn new_spec(msg_id: u32, ident: u32, params: Seq<u8>) -> Option<MsgView> {
    if msg_id == 0 {
        Some(MsgView::Bye)
    } else if msg_id == 1 {
        Some(MsgView::Sub(ident, decode_utf8(params)))
    } else if msg_id == 2 {
        Some(MsgView::TextMsg(ident, split_on(params, 3).map_values(|p: Seq<u8>| decode_utf8(p))))
    } else if msg_id == 3 {
        Some(MsgView::Error(decode_utf8(params)))
    } else if msg_id == 4 {
        Some(MsgView::DelSub(ident))
    } else if msg_id == 5 {
        Some(MsgView::EndSub)
    } else if msg_id == 6 {
        Some(MsgView::PeerId(ident as u16, decode_utf8(params)))
    } else if msg_id == 7 {
        Some(MsgView::DirectMsg(ident, decode_utf8(params)))
    } else if msg_id == 8 {
        Some(MsgView::Quit)
    } else if msg_id == 9 {
        Some(MsgView::Ping(ident))
    } else if msg_id == 10 {
        Some(MsgView::Pong(ident))
    } else {
        None
    }
}

/// The texts that building a message of type `msg_id` reads are valid UTF-8
/// (building one from other bytes stops the program).
pub open spec fn new_defined(msg_id: u32, params: Seq<u8>) -> bool {
    if msg_id == 1 || msg_id == 3 || msg_id == 6 || msg_id == 7 {
        valid_utf8(params)
    } else if msg_id == 2 {
        forall|j: int|
            0 <= j < split_on(params, 3).len() ==> valid_utf8(#[trigger] split_on(params, 3)[j])
    } else {
        true
    }
}

/// What reading a frame (without its newline) gives.
pub enum Parsed {
    Msg(MsgView),
    /// The type or the ident is not a decimal `u32`.
    BadNumber,
    /// There are fewer than three fields, or the type is unknown.
    BadFrame,
}

pub open spec fn parse_spec(buf: Seq<u8>) -> Parsed {
    match split_fields(buf) {
        None => Parsed::BadFrame,
        Some((a, b, c)) => match decimal_u32(a) {
            None => Parsed::BadNumber,
            Some(t) => match decimal_u32(b) {
                None => Parsed::BadNumber,
                Some(id) => match new_spec(t, id, c) {
                    Some(m) => Parsed::Msg(m),
                    None => Parsed::BadFrame,
                },
            },
        },
    }
}

/// Reading `buf` does not stop the program: every text that it decodes is
/// valid UTF-8.
pub open spec fn parse_defined(buf: Seq<u8>) -> bool {
    match split_fields(buf) {
        None => true,
        Some((a, b, c)) => {
            &&& valid_utf8(a)
            &&& decimal_u32(a) is Some ==> {
                &&& valid_utf8(b)
                &&& decimal_u32(b) is Some ==> new_defined(decimal_u32(a)->0, c)
            }
        },
    }
}

/// The text of `bytes`, which are valid UTF-8.
fn decode_text(bytes: &[u8]) -> (res: String)
    requires
        valid_utf8(bytes@),
    ensures
        res@ == decode_utf8(bytes@),
{
    match str_from_utf8(bytes) {
        Some(s) => {
            proof {
                encode_utf8_decode_utf8(s@);
            }
            s.to_owned()
        },
        None => String::new(),
    }
}

/// Whether `bytes` are valid UTF-8.
fn is_utf8(bytes: &[u8]) -> (res: bool)
    ensures
        res == valid_utf8(bytes@),
{
    str_from_utf8(bytes).is_some()
}

/// Whether building a message of type `msg_id` from `params` goes through.
fn new_is_defined(msg_id: u32, params: &[u8]) -> (res: bool)
    ensures
        res == new_defined(msg_id, params@),
{
    if msg_id == 1 || msg_id == 3 || msg_id == 6 || msg_id == 7 {
        is_utf8(params)
    } else if msg_id == 2 {
        let ranges = split_ranges(params, 3);
        let mut j: usize = 0;
        while j < ranges.len()
            invariant
                j <= ranges@.len(),
                ranges@.len() == split_on(params@, 3).len(),
                forall|i: int|
                    0 <= i < ranges@.len() ==> is_piece_range(params@, 3, #[trigger] ranges@[i]),
                forall|i: int|
                    0 <= i < ranges@.len() ==> piece(params@, #[trigger] ranges@[i]) == split_on(
                        params@,
                        3,
                    )[i],
                forall|i: int| 0 <= i < j ==> valid_utf8(#[trigger] split_on(params@, 3)[i]),
                msg_id == 2,
            decreases ranges@.len() - j,
        {
            let (lo, hi) = ranges[j];
            let p = &params[lo..hi];
            assert(p@ == split_on(params@, 3)[j as int]);
            if !is_utf8(p) {
                assert(!valid_utf8(split_on(params@, 3)[j as int]));
                return false;
            }
            j = j + 1;
        }
        true
    } else {
        true
    }
}

impl IvyMsg {
    /// Whether reading `buf` with [`IvyMsg::parse`] goes through: every text
    /// that it decodes is valid UTF-8 (reading other bytes stops the
    /// program).
    pub fn decodable(buf: &[u8]) -> (res: bool)
        ensures
            res == parse_defined(buf@),
    {
        let i = find_field_sep(buf, 0);
        if i < buf.len() {
            let k = find_field_sep(buf, i + 1);
            if k < buf.len() {
                proof {
                    lemma_split_fields_at(buf@, i as int, k as int);
                }
                let msg_id = &buf[0..i];
                let ident = &buf[i + 1..k];
                let params = &buf[k + 1..buf.len()];
                let msg_id = match str_from_utf8(msg_id) {
                    Some(text) => match parse_u32(text) {
                        Ok(v) => v,
                        Err(_) => return true,
                    },
                    None => return false,
                };
                return match str_from_utf8(ident) {
                    Some(text) => match parse_u32(text) {
                        Ok(_) => new_is_defined(msg_id, params),
                        Err(_) => true,
                    },
                    None => false,
                };
            } else {
                proof {
                    assert(!exists|i2: int, k2: int| first_two_seps(buf@, i2, k2)) by {
                        if exists|i2: int, k2: int| first_two_seps(buf@, i2, k2) {
                            let (i2, k2) = choose|i2: int, k2: int| first_two_seps(buf@, i2, k2);
                            if i2 < i {
                                assert(!is_field_sep(buf@[i2]));
                            } else if i < i2 {
                                assert(!is_field_sep(buf@[i as int]));
                            } else {
                                assert(!is_field_sep(buf@[k2]));
                            }
                        }
                    }
                }
            }
        } else {
            proof {
                assert(!exists|i2: int, k2: int| first_two_seps(buf@, i2, k2)) by {
                    if exists|i2: int, k2: int| first_two_seps(buf@, i2, k2) {
                        let (i2, k2) = choose|i2: int, k2: int| first_two_seps(buf@, i2, k2);
                        assert(!is_field_sep(buf@[i2]));
                    }
                }
            }
        }
        true
    }

    /// Builds the message of type `msg_id` from its ident and parameters;
    /// `None` for an unknown type.
    pub fn new(msg_id: u32, ident: u32, params: &[u8]) -> (res: Option<Self>)
        requires
            new_defined(msg_id, params@),
        ensures
            match res {
                Some(m) => new_spec(msg_id, ident, params@) == Some(m@),
                None => new_spec(msg_id, ident, params@) is None,
            },
    {
        match msg_id {
            0 => Some(Self::Bye),
            1 => Some(Self::Sub(ident, decode_text(params))),
            2 => {
                let ranges = split_ranges(params, 3);
                let mut out: Vec<String> = Vec::new();
                let mut j: usize = 0;
                while j < ranges.len()
                    invariant
                        j <= ranges@.len(),
                        ranges@.len() == split_on(params@, 3).len(),
                        forall|i: int|
                            0 <= i < ranges@.len() ==> is_piece_range(params@, 3, #[trigger] ranges@[i]),
                        forall|i: int|
                            0 <= i < ranges@.len() ==> piece(params@, #[trigger] ranges@[i]) == split_on(
                                params@,
                                3,
                            )[i],
                        new_defined(msg_id, params@),
                        msg_id == 2,
                        out@.len() == j,
                        forall|i: int|
                            0 <= i < j ==> (#[trigger] out@[i])@ == decode_utf8(
                                split_on(params@, 3)[i],
                            ),
                    decreases ranges@.len() - j,
                {
                    let (lo, hi) = ranges[j];
                    let p = &params[lo..hi];
                    proof {
                        assert(p@ == split_on(params@, 3)[j as int]);
                    }
                    out.push(decode_text(p));
                    j = j + 1;
                }
                proof {
                    assert(strings_view(out@) =~= split_on(params@, 3).map_values(
                        |p: Seq<u8>| decode_utf8(p),
                    ));
                }
                Some(Self::TextMsg(ident, out))
            },
            3 => Some(Self::Error(decode_text(params))),
            4 => Some(Self::DelSub(ident)),
            5 => Some(Self::EndSub),
            6 => Some(Self::PeerId(ident as u16, decode_text(params))),
            7 => Some(Self::DirectMsg(ident, decode_text(params))),
            8 => Some(Self::Quit),
            9 => Some(Self::Ping(ident)),
            10 => Some(Self::Pong(ident)),
            _ => None,
        }
    }

    /// Reads a frame without its final newline: `<type> <ident>` and the
    /// parameters, the three cut at the first two spaces or bytes 2.
    pub fn parse(buf: &[u8]) -> (res: Result<Self, IvyError>)
        requires
            parse_defined(buf@),
        ensures
            match parse_spec(buf@) {
                Parsed::Msg(m) => res matches Ok(r) && r@ == m,
                Parsed::BadNumber => res matches Err(IvyError::ParseError(_)),
                Parsed::BadFrame => res matches Err(IvyError::ParseFail),
            },
    {
        let i = find_field_sep(buf, 0);
        if i < buf.len() {
            let k = find_field_sep(buf, i + 1);
            if k < buf.len() {
                proof {
                    lemma_split_fields_at(buf@, i as int, k as int);
                }
                let msg_id = &buf[0..i];
                let ident = &buf[i + 1..k];
                let params = &buf[k + 1..buf.len()];
                let msg_id = match str_from_utf8(msg_id) {
                    Some(text) => match parse_u32(text) {
                        Ok(v) => v,
                        Err(e) => return Err(IvyError::from(e)),
                    },
                    None => return Err(IvyError::ParseFail),
                };
                let ident = match str_from_utf8(ident) {
                    Some(text) => match parse_u32(text) {
                        Ok(v) => v,
                        Err(e) => return Err(IvyError::from(e)),
                    },
                    None => return Err(IvyError::ParseFail),
                };
                let ivy_msg = Self::new(msg_id, ident, params);
                if let Some(ivy_msg) = ivy_msg {
                    return Ok(ivy_msg);
                }
            } else {
                proof {
                    assert(!exists|i2: int, k2: int| first_two_seps(buf@, i2, k2)) by {
                        if exists|i2: int, k2: int| first_two_seps(buf@, i2, k2) {
                            let (i2, k2) = choose|i2: int, k2: int| first_two_seps(buf@, i2, k2);
                            if i2 < i {
                                assert(!is_field_sep(buf@[i2]));
                            } else if i < i2 {
                                assert(!is_field_sep(buf@[i as int]));
                            } else {
                                assert(!is_field_sep(buf@[k2]));
                            }
                        }
                    }
                }
            }
        } else {
            proof {
                assert(!exists|i2: int, k2: int| first_two_seps(buf@, i2, k2)) by {
                    if exists|i2: int, k2: int| first_two_seps(buf@, i2, k2) {
                        let (i2, k2) = choose|i2: int, k2: int| first_two_seps(buf@, i2, k2);
                        assert(!is_field_sep(buf@[i2]));
                    }
                }
            }
        }
        Err(IvyError::ParseFail)
    }

    /// The frame `<t> <ident>`, the byte 2, `params` and a newline.
    pub fn format_ivy(t: u8, ident: u32, params: &[u8]) -> (res: Vec<u8>)
        ensures
            res@ == frame(t, ident, params@),
    {
        let mut buffer = Vec::<u8>::new();
        push_decimal(&mut buffer, t as u32);
        buffer.push(32);
        push_decimal(&mut buffer, ident);
        buffer.push(2);
        buffer.extend_from_slice(params);
        buffer.push(10);
        proof {
            assert(buffer@ =~= frame(t, ident, params@));
        }
        buffer
    }

    /// The frame that carries this message.
    pub fn to_ascii(&self) -> (res: Vec<u8>)
        ensures
            res@ == frame_of(self@),
    {
        match self {
            IvyMsg::Bye => IvyMsg::format_ivy(u8::from(self), 0, &[]),
            IvyMsg::Sub(ident, reg) => IvyMsg::format_ivy(u8::from(self), *ident, reg.as_str().as_bytes()),
            IvyMsg::TextMsg(ident, params) => {
                let mut acc: Vec<u8> = Vec::new();
                let mut j: usize = 0;
                while j < params.len()
                    invariant
                        j <= params@.len(),
                        acc@ == join_terminated(encode_all(strings_view(params@.take(j as int))), 3),
                    decreases params@.len() - j,
                {
                    let p = params[j].as_str().as_bytes();
                    acc.extend_from_slice(p);
                    acc.push(3);
                    proof {
                        let before = encode_all(strings_view(params@.take(j as int)));
                        let after = encode_all(strings_view(params@.take(j + 1)));
                        assert(after.drop_last() =~= before);
                        assert(after.last() == encode_utf8(params@[j as int]@));
                    }
                    j = j + 1;
                }
                proof {
                    assert(params@.take(params@.len() as int) =~= params@);
                }
                IvyMsg::format_ivy(u8::from(self), *ident, acc.as_slice())
            },
            IvyMsg::Error(txt) => IvyMsg::format_ivy(u8::from(self), 0, txt.as_str().as_bytes()),
            IvyMsg::DelSub(sub_id) => IvyMsg::format_ivy(u8::from(self), *sub_id, &[]),
            IvyMsg::EndSub => IvyMsg::format_ivy(u8::from(self), 0, &[]),
            IvyMsg::PeerId(port, app_name) => IvyMsg::format_ivy(
                u8::from(self),
                *port as u32,
                app_name.as_str().as_bytes(),
            ),
            IvyMsg::DirectMsg(ident, msg) => IvyMsg::format_ivy(u8::from(self), *ident, msg.as_str().as_bytes()),
            IvyMsg::Quit => IvyMsg::format_ivy(u8::from(self), 0, &[]),
            IvyMsg::Ping(ping_id) => IvyMsg::format_ivy(u8::from(self), *ping_id, &[]),
            IvyMsg::Pong(ping_id) => IvyMsg::format_ivy(u8::from(self), *ping_id, &[]),
        }
    }
}

/// What reading a UDP announce gives.
pub enum Announce {
    /// Protocol version, TCP port, watcher id and peer name.
    Fields(u8, u16, Seq<char>, Seq<char>),
    /// The text is not four pieces separated by spaces.
    BadShape,
    /// The version is not a decimal `u8`, or the port not a decimal `u16`.
    BadNumber,
}

pub open spec fn announce_spec(text: Seq<u8>) -> Announce {
    let ps = split_on(text, 32);
    if ps.len() != 4 {
        Announce::BadShape
    } else {
        match decimal_u8(ps[0]) {
            None => Announce::BadNumber,
            Some(version) => match decimal_u16(ps[1]) {
                None => Announce::BadNumber,
                Some(port) => Announce::Fields(version, port, decode_utf8(ps[2]), decode_utf8(ps[3])),
            },
        }
    }
}

/// Any text made of four pieces without a space, joined by single spaces,
/// whose first piece is a decimal `u8` and second a decimal `u16`, is an
/// announce of those two numbers and of the third and fourth pieces as they
/// are, whatever those two hold.
pub proof fn law_announce_fields_as_written(p0: Seq<u8>, p1: Seq<u8>, p2: Seq<u8>, p3: Seq<u8>)
    requires
        !p0.contains(32u8),
        !p1.contains(32u8),
        !p2.contains(32u8),
        !p3.contains(32u8),
        decimal_u8(p0) is Some,
        decimal_u16(p1) is Some,
    ensures
        announce_spec(p0.push(32u8) + p1.push(32u8) + p2.push(32u8) + p3) == Announce::Fields(
            decimal_u8(p0)->0,
            decimal_u16(p1)->0,
            decode_utf8(p2),
            decode_utf8(p3),
        ),
{
    lemma_split_four(p0, p1, p2, p3, 32u8);
}

/// The piece of `text` that `r` delimits, as text.
fn piece_text<'a>(text: &'a str, r: (usize, usize)) -> (res: &'a str)
    requires
        is_piece_range(text.spec_bytes(), 32, r),
    ensures
        res.spec_bytes() == piece(text.spec_bytes(), r),
        res@ == decode_utf8(piece(text.spec_bytes(), r)),
{
    let bytes = text.as_bytes();
    proof {
        encode_utf8_valid_utf8(text@);
        lemma_piece_valid(bytes@, 32, r);
    }
    let p = &bytes[r.0..r.1];
    match str_from_utf8(p) {
        Some(t) => {
            proof {
                encode_utf8_decode_utf8(t@);
            }
            t
        },
        None => "",
    }
}

/// Reads a UDP announce `<protocol version> <TCP port> <watcher id> <name>`:
/// four pieces separated by single spaces (the name keeps whatever follows
/// the last space, a final newline too). The protocol version is a `u8` and
/// the port a `u16`: a piece that is not a decimal number of that type gives
/// `ParseError`.
pub fn parse_udp_announce(annouce: &str) -> (res: Result<(u8, u16, String, String), IvyError>)
    ensures
        match announce_spec(annouce.spec_bytes()) {
            Announce::Fields(version, port, watcher_id, name) => res matches Ok(r) && r.0 == version
                && r.1 == port && r.2@ == watcher_id && r.3@ == name,
            Announce::BadShape => res matches Err(IvyError::ParseAnnounceError),
            Announce::BadNumber => res matches Err(IvyError::ParseError(_)),
        },
{
    let splitted = split_ranges(annouce.as_bytes(), 32);
    if splitted.len() != 4 {
        return Err(IvyError::ParseAnnounceError);
    }
    let protocol_version = match parse_u8(piece_text(annouce, splitted[0])) {
        Ok(v) => v,
        Err(e) => return Err(IvyError::from(e)),
    };
    let port = match parse_u16(piece_text(annouce, splitted[1])) {
        Ok(v) => v,
        Err(e) => return Err(IvyError::from(e)),
    };
    let watcher_id = piece_text(annouce, splitted[2]);
    let peer_name = piece_text(annouce, splitted[3]);
    Ok((protocol_version, port, watcher_id.to_owned(), peer_name.to_owned()))
}

/// Text made of ASCII bytes only is valid UTF-8.
pub proof fn lemma_ascii_valid(s: Seq<u8>)
    requires
        forall|i: int| 0 <= i < s.len() ==> #[trigger] s[i] < 0x80,
    ensures
        valid_utf8(s),
{
    assert(s.subrange(0, 0) =~= Seq::<u8>::empty());
    assert forall|i: int| 0 <= 0 <= i < s.len() <= s.len() implies #[trigger] is_leading_byte_width_1(
        s[i],
    ) by {}
    partial_valid_utf8_extend_ascii_block(s, 0, s.len() as int);
    assert(s.subrange(0, s.len() as int) =~= s);
}

proof fn lemma_decimal_ascii(n: nat)
    ensures
        valid_utf8(decimal(n)),
        no_field_sep(decimal(n), 0, decimal(n).len() as int),
        decimal_value(decimal(n)) == Some(n),
{
    lemma_decimal_roundtrip(n);
    lemma_decimal_shape(n);
    let d = decimal(n);
    assert(all_digits(d));
    assert forall|i: int| 0 <= i < d.len() implies #[trigger] d[i] < 0x80 by {
        assert(is_digit(d[i]));
    }
    lemma_ascii_valid(d);
    assert forall|j: int| 0 <= j < d.len() implies !is_field_sep(#[trigger] d[j]) by {
        assert(is_digit(d[j]));
    }
}

/// Reading back a frame (without its newline) gives the message that its
/// type, ident and parameters make: reading inverts `format_ivy`. Reading
/// it does not stop the program exactly where making that message does not.
pub proof fn lemma_parse_format(t: u8, ident: u32, params: Seq<u8>)
    ensures
        split_fields(frame(t, ident, params).drop_last()) == Some(
            (decimal(t as nat), decimal(ident as nat), params),
        ),
        parse_spec(frame(t, ident, params).drop_last()) == match new_spec(t as u32, ident, params) {
            Some(m) => Parsed::Msg(m),
            None => Parsed::BadFrame,
        },
        parse_defined(frame(t, ident, params).drop_last()) == new_defined(t as u32, params),
{
    let dt = decimal(t as nat);
    let di = decimal(ident as nat);
    let buf = frame(t, ident, params).drop_last();
    lemma_decimal_ascii(t as nat);
    lemma_decimal_ascii(ident as nat);
    assert(buf =~= dt + seq![32u8] + di + seq![2u8] + params);
    let i = dt.len() as int;
    let k = i + 1 + di.len();
    assert(buf[i] == 32);
    assert(buf[k] == 2);
    assert(no_field_sep(buf, 0, i)) by {
        assert forall|j: int| 0 <= j < i implies !is_field_sep(#[trigger] buf[j]) by {
            assert(buf[j] == dt[j]);
        }
    }
    assert(no_field_sep(buf, i + 1, k)) by {
        assert forall|j: int| i + 1 <= j < k implies !is_field_sep(#[trigger] buf[j]) by {
            assert(buf[j] == di[j - i - 1]);
        }
    }
    assert(first_two_seps(buf, i, k));
    lemma_split_fields_at(buf, i, k);
    assert(buf.subrange(0, i) =~= dt);
    assert(buf.subrange(i + 1, k) =~= di);
    assert(buf.subrange(k + 1, buf.len() as int) =~= params);
    assert(decimal_u32(dt) == Some(t as u32));
    assert(decimal_u32(di) == Some(ident));
}

/// The message that reading a frame gives back: the same, but for a text
/// message, whose arguments gain an empty last one (each argument is
/// written followed by the byte 3, and reading cuts at every byte 3).
pub open spec fn reread(m: MsgView) -> MsgView {
    match m {
        MsgView::TextMsg(id, ps) => MsgView::TextMsg(id, ps.push(Seq::empty())),
        _ => m,
    }
}

/// The arguments of a text message hold no byte 3 in UTF-8, so that they
/// survive the trip through a frame.
pub open spec fn args_free_of_separator(m: MsgView) -> bool {
    match m {
        MsgView::TextMsg(_, ps) => forall|j: int|
            0 <= j < ps.len() ==> !encode_utf8(#[trigger] ps[j]).contains(3),
        _ => true,
    }
}

/// Reading back the frame of a message (without its newline) gives the
/// message again, where a text message gains an empty last argument; and
/// reading it does not stop the program.
pub proof fn lemma_message_roundtrip(m: MsgView)
    requires
        args_free_of_separator(m),
    ensures
        parse_defined(frame_of(m).drop_last()),
        parse_spec(frame_of(m).drop_last()) == Parsed::Msg(reread(m)),
{
    let t = msg_tag(m);
    let id = msg_ident(m);
    let p = msg_payload(m);
    lemma_parse_format(t, id, p);
    match m {
        MsgView::TextMsg(id, ps) => {
            let enc = encode_all(ps);
            assert forall|j: int| 0 <= j < enc.len() implies !(#[trigger] enc[j]).contains(3) by {
                assert(enc[j] == encode_utf8(ps[j]));
            }
            lemma_split_join_terminated(enc, 3);
            let pieces = split_on(p, 3);
            assert(pieces == enc.push(Seq::empty()));
            assert forall|j: int| 0 <= j < pieces.len() implies valid_utf8(#[trigger] pieces[j]) by {
                if j < enc.len() {
                    assert(pieces[j] == encode_utf8(ps[j]));
                } else {
                    assert(pieces[j] =~= Seq::<u8>::empty());
                }
            }
            let decoded = pieces.map_values(|q: Seq<u8>| decode_utf8(q));
            assert(decoded =~= ps.push(Seq::empty())) by {
                assert forall|j: int| 0 <= j < decoded.len() implies decoded[j] == ps.push(
                    Seq::empty(),
                )[j] by {
                    if j < enc.len() {
                        assert(pieces[j] == encode_utf8(ps[j]));
                    } else {
                        assert(pieces[j] =~= Seq::<u8>::empty());
                        assert(decode_utf8(Seq::<u8>::empty()) =~= Seq::<char>::empty());
                    }
                }
            }
        },
        MsgView::PeerId(port, name) => {
            assert((port as u32) as u16 == port);
        },
        _ => {},
    }
}

impl<'a> From<&'a IvyMsg> for u8 {
    fn from(value: &'a IvyMsg) -> (res: u8) {
        match value {
            IvyMsg::Bye => 0,
            IvyMsg::Sub(_, _) => 1,
            IvyMsg::TextMsg(_, _) => 2,
            IvyMsg::Error(_) => 3,
            IvyMsg::DelSub(_) => 4,
            IvyMsg::EndSub => 5,
            IvyMsg::PeerId(_, _) => 6,
            IvyMsg::DirectMsg(_, _) => 7,
            IvyMsg::Quit => 8,
            IvyMsg::Ping(_) => 9,
            IvyMsg::Pong(_) => 10,
        }
    }
}

impl<'a> vstd::std_specs::convert::FromSpecImpl<&'a IvyMsg> for u8 {
    open spec fn obeys_from_spec() -> bool {
        true
    }

    open spec fn from_spec(value: &'a IvyMsg) -> u8 {
        msg_tag(value@)
    }
}

} // verus!
