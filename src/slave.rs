//! The slave: the units it describes, and what it makes of the master's
//! replies.

use vstd::prelude::*;
use crate::protocol::{
    decode_reply, encode_request, reply_of_frame, request_body, framed, ReplyModel, Reply,
    Request, RequestModel, UnitId,
};
use vstd::utf8::encode_utf8;

verus! {

/// A service the slave knows of: a name and the command line that runs it,
/// and the id the master gave it once registered (all zero before).
pub struct Unit {
    pub name: String,
    pub exec_start: String,
    pub uuid: UnitId,
}

impl Unit {
    /// A unit not yet registered.
    pub fn new(name: String, exec_start: String) -> (r: Unit)
        ensures
            r.name@ == name@,
            r.exec_start@ == exec_start@,
            r.uuid@ == seq![0u8; 16],
    {
        let r = Unit { name, exec_start, uuid: UnitId { bytes: [0u8; 16] } };
        assert(r.uuid@ =~= seq![0u8; 16]);
        r
    }
}

/// Takes the master's reply to `RegisterUnit`: a reply that gives an id
/// stores it on the unit and returns true; anything else leaves the unit as
/// it was and returns false.
pub fn register_unit(unit: &mut Unit, reply: &[u8]) -> (r: bool)
    ensures
        final(unit).name == old(unit).name,
        final(unit).exec_start == old(unit).exec_start,
        r == (reply_of_frame(reply@) matches Some(ReplyModel::UnitRegistered(_))),
        r ==> reply_of_frame(reply@) == Some(ReplyModel::UnitRegistered(final(unit).uuid@)),
        !r ==> final(unit).uuid == old(unit).uuid,
{
    match decode_reply(reply) {
        Some(Reply::UnitRegistered(id)) => {
            unit.uuid = id;
            true
        },
        _ => false,
    }
}

/// The master's version text in its reply to `Helo`; `None` when the frame
/// is not such a reply.
pub fn counterpart_version(reply: &[u8]) -> (r: Option<String>)
    ensures
        match r {
            Some(s) => reply_of_frame(reply@) == Some(ReplyModel::Helo(encode_utf8(s@))),
            None => !(reply_of_frame(reply@) matches Some(ReplyModel::Helo(_))),
        },
{
    match decode_reply(reply) {
        Some(Reply::Helo(s)) => Some(s),
        _ => None,
    }
}

/// The frame that asks the master for its version.
pub fn helo_request() -> (r: Vec<u8>)
    ensures
        r@ == framed(request_body(RequestModel::Helo)),
{
    let q = Request::Helo;
    proof {
        crate::protocol::lemma_le_bytes_len(0, 4);
    }
    match encode_request(&q) {
        Some(f) => f,
        None => Vec::new(),
    }
}

/// The frame that registers a unit with the master.
pub fn register_request() -> (r: Vec<u8>)
    ensures
        r@ == framed(request_body(RequestModel::RegisterUnit)),
{
    let q = Request::RegisterUnit;
    proof {
        crate::protocol::lemma_le_bytes_len(1, 4);
    }
    match encode_request(&q) {
        Some(f) => f,
        None => Vec::new(),
    }
}

} // verus!
