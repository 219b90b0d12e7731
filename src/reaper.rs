//! The reaper's line protocol: each request is one line of ASCII words, read
//! in two stages. Parsing turns a line into a [`RawQuery`]; validation turns
//! that into a [`Query`] once its path exists or its pid can be signalled.
//! Only a [`Query`] is ever acted on.

use vstd::prelude::*;
use vstd::slice::slice_subrange;
use crate::text::{
    append_bytes, byte_strings, decimal, is_word, joined, join_from, lemma_words_are_words,
    lemma_words_of_joined, parse_signed, push_decimal, push_signed, same_bytes, signed_decimal,
    signed_text, split_fields, split_words, utf8_text, words, fields,
};

verus! {

/// `HELO`, as bytes; the other request words follow.
pub open spec fn word_helo() -> Seq<u8> {
    seq![0x48u8, 0x45, 0x4c, 0x4f]
}

/// `BYE`
pub open spec fn word_bye() -> Seq<u8> {
    seq![0x42u8, 0x59, 0x45]
}

/// `MASTER`
pub open spec fn word_master() -> Seq<u8> {
    seq![0x4du8, 0x41, 0x53, 0x54, 0x45, 0x52]
}

/// `START`
pub open spec fn word_start() -> Seq<u8> {
    seq![0x53u8, 0x54, 0x41, 0x52, 0x54]
}

/// `STOP`
pub open spec fn word_stop() -> Seq<u8> {
    seq![0x53u8, 0x54, 0x4f, 0x50]
}

/// Every byte of `s` is ASCII.
pub open spec fn is_ascii_bytes(s: Seq<u8>) -> bool {
    forall|i: int| 0 <= i < s.len() ==> #[trigger] s[i] < 0x80u8
}

/// A request line after the first stage: the command is known, its argument
/// text is not yet checked.
pub enum RawQuery {
    Helo,
    Bye,
    Master,
    /// The argument words after `START`, joined by single spaces.
    Start(Vec<u8>),
    /// The single argument word after `STOP`.
    Stop(Vec<u8>),
    ProtocolError,
}

pub enum RawQueryModel {
    Helo,
    Bye,
    Master,
    Start(Seq<u8>),
    Stop(Seq<u8>),
    ProtocolError,
}

impl View for RawQuery {
    type V = RawQueryModel;

    open spec fn view(&self) -> RawQueryModel {
        match self {
            RawQuery::Helo => RawQueryModel::Helo,
            RawQuery::Bye => RawQueryModel::Bye,
            RawQuery::Master => RawQueryModel::Master,
            RawQuery::Start(x) => RawQueryModel::Start(x@),
            RawQuery::Stop(x) => RawQueryModel::Stop(x@),
            RawQuery::ProtocolError => RawQueryModel::ProtocolError,
        }
    }
}

/// The longest request line, in bytes.
pub const MAX_LINE: usize = 256;

/// What a request line reads as. `HELO`, `BYE` and `MASTER` take no argument,
/// `START` at least one and `STOP` exactly one; a line that is longer than
/// [`MAX_LINE`], is not ASCII, has no words or starts with another word is a
/// protocol error.
pub open spec fn raw_query_of(line: Seq<u8>) -> RawQueryModel {
    let ws = words(line);
    if line.len() > MAX_LINE || !is_ascii_bytes(line) || ws.len() == 0 {
        RawQueryModel::ProtocolError
    } else {
        let cmd = ws[0];
        let rest = ws.subrange(1, ws.len() as int);
        if cmd == word_helo() && rest.len() == 0 {
            RawQueryModel::Helo
        } else if cmd == word_bye() && rest.len() == 0 {
            RawQueryModel::Bye
        } else if cmd == word_master() && rest.len() == 0 {
            RawQueryModel::Master
        } else if cmd == word_start() && rest.len() > 0 {
            RawQueryModel::Start(joined(rest))
        } else if cmd == word_stop() && rest.len() == 1 {
            RawQueryModel::Stop(rest[0])
        } else {
            RawQueryModel::ProtocolError
        }
    }
}

fn ascii_only(s: &[u8]) -> (r: bool)
    ensures
        r == is_ascii_bytes(s@),
{
    let mut i: usize = 0;
    while i < s.len()
        invariant
            i <= s@.len(),
            forall|j: int| 0 <= j < i ==> #[trigger] s@[j] < 0x80u8,
        decreases s@.len() - i,
    {
        if s[i] >= 0x80u8 {
            return false;
        }
        i = i + 1;
    }
    true
}

/// Splits a request into its command word and the rest of its words joined
/// by single spaces; `None` when it holds no word.
pub fn parse_raw_query(s: &[u8]) -> (r: Option<(Vec<u8>, Vec<u8>)>)
    ensures
        words(s@).len() == 0 ==> r is None,
        words(s@).len() > 0 ==> (r matches Some((cmd, rest)) && cmd@ == words(s@)[0] && rest@
            == joined(words(s@).subrange(1, words(s@).len() as int))),
{
    let ws = split_words(s);
    if ws.len() == 0 {
        return None;
    }
    let rest = join_from(&ws, 1);
    let mut cmd: Vec<u8> = Vec::new();
    append_bytes(&mut cmd, ws[0].as_slice());
    assert(cmd@ =~= byte_strings(ws@)[0]);
    Some((cmd, rest))
}

impl RawQuery {
    /// Reads one request line (its newline, if any, counts as whitespace).
    pub fn from_line(line: &[u8]) -> (r: RawQuery)
        ensures
            r@ == raw_query_of(line@),
    {
        if line.len() > MAX_LINE || !ascii_only(line) {
            return RawQuery::ProtocolError;
        }
        let parsed = parse_raw_query(line);
        let ghost ws = words(line@);
        let ghost rest_words = ws.subrange(1, ws.len() as int);
        match parsed {
            None => RawQuery::ProtocolError,
            Some((cmd, rest)) => {
                proof {
                    lemma_words_are_words(line@);
                    assert forall|i: int| 0 <= i < rest_words.len() implies is_word(
                        #[trigger] rest_words[i],
                    ) by {
                        assert(rest_words[i] == ws[i + 1]);
                    }
                    lemma_words_of_joined(rest_words);
                }
                let nrest = split_words(rest.as_slice()).len();
                assert(nrest == rest_words.len());
                let helo: Vec<u8> = vec![0x48u8, 0x45, 0x4c, 0x4f];
                let bye: Vec<u8> = vec![0x42u8, 0x59, 0x45];
                let master: Vec<u8> = vec![0x4du8, 0x41, 0x53, 0x54, 0x45, 0x52];
                let start: Vec<u8> = vec![0x53u8, 0x54, 0x41, 0x52, 0x54];
                let stop: Vec<u8> = vec![0x53u8, 0x54, 0x4f, 0x50];
                assert(helo@ =~= word_helo());
                assert(bye@ =~= word_bye());
                assert(master@ =~= word_master());
                assert(start@ =~= word_start());
                assert(stop@ =~= word_stop());
                if same_bytes(cmd.as_slice(), helo.as_slice()) && nrest == 0 {
                    RawQuery::Helo
                } else if same_bytes(cmd.as_slice(), bye.as_slice()) && nrest == 0 {
                    RawQuery::Bye
                } else if same_bytes(cmd.as_slice(), master.as_slice()) && nrest == 0 {
                    RawQuery::Master
                } else if same_bytes(cmd.as_slice(), start.as_slice()) && nrest > 0 {
                    RawQuery::Start(rest)
                } else if same_bytes(cmd.as_slice(), stop.as_slice()) && nrest == 1 {
                    assert(joined(rest_words) == rest_words[0]);
                    RawQuery::Stop(rest)
                } else {
                    RawQuery::ProtocolError
                }
            },
        }
    }
}

/// A request that passed validation.
pub enum Query {
    Helo,
    Bye,
    Master,
    /// The absolute path of an existing file, and the arguments to run it with.
    Start(Vec<u8>, Vec<Vec<u8>>),
    /// A positive pid that can be signalled.
    Stop(i32),
    ProtocolError,
}

pub enum QueryModel {
    Helo,
    Bye,
    Master,
    Start(Seq<u8>, Seq<Seq<u8>>),
    Stop(int),
    ProtocolError,
}

impl View for Query {
    type V = QueryModel;

    open spec fn view(&self) -> QueryModel {
        match self {
            Query::Helo => QueryModel::Helo,
            Query::Bye => QueryModel::Bye,
            Query::Master => QueryModel::Master,
            Query::Start(p, a) => QueryModel::Start(p@, byte_strings(a@)),
            Query::Stop(p) => QueryModel::Stop(*p as int),
            Query::ProtocolError => QueryModel::ProtocolError,
        }
    }
}

pub open spec fn query_view(q: Option<Query>) -> Option<QueryModel> {
    match q {
        Some(x) => Some(x@),
        None => None,
    }
}

/// The pid that the text `x` names: a decimal between 1 and `i32::MAX`.
pub open spec fn pid_of(x: Seq<u8>) -> Option<int> {
    match signed_text(x) {
        Some(v) => if 0 < v <= i32::MAX {
            Some(v)
        } else {
            None
        },
        None => None,
    }
}

/// What validation makes of a raw request, given the answer `found` of the
/// system probe: whether the path of a `START` exists, or whether the pid of a
/// `STOP` can be signalled. The path of a `START` must be absolute.
pub open spec fn checked_query(rq: RawQueryModel, found: bool) -> Option<QueryModel> {
    match rq {
        RawQueryModel::Helo => Some(QueryModel::Helo),
        RawQueryModel::Bye => Some(QueryModel::Bye),
        RawQueryModel::Master => Some(QueryModel::Master),
        RawQueryModel::ProtocolError => Some(QueryModel::ProtocolError),
        RawQueryModel::Start(x) => {
            let ws = words(x);
            if ws.len() > 0 && ws[0][0] == 0x2fu8 && found {
                Some(QueryModel::Start(ws[0], ws.subrange(1, ws.len() as int)))
            } else {
                None
            }
        },
        RawQueryModel::Stop(x) => match pid_of(x) {
            Some(p) => if found {
                Some(QueryModel::Stop(p))
            } else {
                None
            },
            None => None,
        },
    }
}

/// Reads a pid: a decimal between 1 and `i32::MAX`.
pub fn parse_pid(x: &[u8]) -> (r: Option<i32>)
    ensures
        match r {
            Some(p) => pid_of(x@) == Some(p as int),
            None => pid_of(x@) is None,
        },
{
    match parse_signed(x) {
        Some(v) => {
            if 0 < v && v <= 0x7fff_ffffi64 {
                Some(v as i32)
            } else {
                None
            }
        },
        None => None,
    }
}

/// Relies on std::path::Path::exists: whether the file system holds an entry
/// at `path` at the time of the call. Nothing is promised of the answer.
#[verifier::external_body]
fn path_exists(path: &str) -> bool {
    std::path::Path::new(path).exists()
}

/// Relies on nix::sys::signal::kill called with no signal: the kernel only
/// checks whether `pid` could be signalled, and nothing is delivered. Nothing
/// is promised of the answer.
#[verifier::external_body]
fn pid_signalable(pid: i32) -> bool {
    nix::sys::signal::kill(nix::unistd::Pid::from_raw(pid), None).is_ok()
}

/// The second stage for a given probe answer `found`; see [`checked_query`].
pub fn check_raw_query(rq: RawQuery, found: bool) -> (r: Option<Query>)
    ensures
        query_view(r) == checked_query(rq@, found),
{
    match rq {
        RawQuery::Helo => Some(Query::Helo),
        RawQuery::Bye => Some(Query::Bye),
        RawQuery::Master => Some(Query::Master),
        RawQuery::ProtocolError => Some(Query::ProtocolError),
        RawQuery::Start(x) => {
            let mut ws = split_words(x.as_slice());
            proof {
                lemma_words_are_words(x@);
                if ws@.len() > 0 {
                    assert(byte_strings(ws@)[0] == ws@[0]@);
                    assert(is_word(words(x@)[0]));
                }
            }
            if ws.len() > 0 && ws[0].len() > 0 && ws[0][0] == 0x2fu8 && found {
                let ghost all = byte_strings(ws@);
                let path = ws.remove(0);
                assert(path@ == all[0]);
                assert(byte_strings(ws@) =~= all.subrange(1, all.len() as int));
                Some(Query::Start(path, ws))
            } else {
                None
            }
        },
        RawQuery::Stop(x) => match parse_pid(x.as_slice()) {
            Some(p) => if found {
                Some(Query::Stop(p))
            } else {
                None
            },
            None => None,
        },
    }
}

/// The second stage: probes the system for the path of a `START` or the pid
/// of a `STOP`, then checks the request as [`checked_query`] says for the
/// answer it got.
pub fn validate_raw_query(rq: RawQuery) -> (r: Option<Query>)
    ensures
        query_view(r) == checked_query(rq@, true) || query_view(r) == checked_query(rq@, false),
{
    let found = match &rq {
        RawQuery::Start(x) => {
            let ws = split_words(x.as_slice());
            if ws.len() > 0 {
                match utf8_text(ws[0].as_slice()) {
                    Some(p) => path_exists(p),
                    None => false,
                }
            } else {
                false
            }
        },
        RawQuery::Stop(x) => match parse_pid(x.as_slice()) {
            Some(p) => pid_signalable(p),
            None => false,
        },
        _ => true,
    };
    check_raw_query(rq, found)
}

/// The version of the reaper, as its `HELO` reply gives it.
pub const VERSION_MAJOR: u64 = 0;

pub const VERSION_MINOR: u64 = 0;

pub const VERSION_PATCH: u64 = 1;

/// The error number of a `MASTER` request while another connection holds
/// the mastering slot.
pub const EBUSY: i64 = 16;

/// `Aeterno`, the first word of the `HELO` reply.
pub open spec fn banner_name() -> Seq<u8> {
    seq![0x41u8, 0x65, 0x74, 0x65, 0x72, 0x6e, 0x6f]
}

/// ` - November 2018` and the newline, which end the `HELO` reply.
pub open spec fn banner_tail() -> Seq<u8> {
    seq![
        0x20u8, 0x2d, 0x20, 0x4e, 0x6f, 0x76, 0x65, 0x6d, 0x62, 0x65, 0x72, 0x20, 0x32, 0x30,
        0x31, 0x38, 0x0a,
    ]
}

/// The `HELO` reply: `Aeterno <major>.<minor>.<patch> - November 2018`.
pub open spec fn helo_banner() -> Seq<u8> {
    banner_name() + seq![0x20u8] + decimal(VERSION_MAJOR as nat) + seq![0x2eu8] + decimal(
        VERSION_MINOR as nat,
    ) + seq![0x2eu8] + decimal(VERSION_PATCH as nat) + banner_tail()
}

/// `OK <n>` and a newline.
pub open spec fn ok_reply(n: nat) -> Seq<u8> {
    seq![0x4fu8, 0x4b, 0x20] + decimal(n) + seq![0x0au8]
}

/// `ERR <e>` and a newline.
pub open spec fn err_reply(e: int) -> Seq<u8> {
    seq![0x45u8, 0x52, 0x52, 0x20] + signed_decimal(e) + seq![0x0au8]
}

pub fn helo_reply() -> (r: Vec<u8>)
    ensures
        r@ == helo_banner(),
{
    let mut out: Vec<u8> = vec![0x41u8, 0x65, 0x74, 0x65, 0x72, 0x6e, 0x6f, 0x20];
    push_decimal(&mut out, VERSION_MAJOR);
    out.push(0x2eu8);
    push_decimal(&mut out, VERSION_MINOR);
    out.push(0x2eu8);
    push_decimal(&mut out, VERSION_PATCH);
    let tail: Vec<u8> = vec![
        0x20u8, 0x2d, 0x20, 0x4e, 0x6f, 0x76, 0x65, 0x6d, 0x62, 0x65, 0x72, 0x20, 0x32, 0x30,
        0x31, 0x38, 0x0a,
    ];
    append_bytes(&mut out, tail.as_slice());
    assert(out@ =~= helo_banner());
    out
}

pub fn ok_line(n: u64) -> (r: Vec<u8>)
    ensures
        r@ == ok_reply(n as nat),
{
    let mut out: Vec<u8> = vec![0x4fu8, 0x4b, 0x20];
    push_decimal(&mut out, n);
    out.push(0x0au8);
    assert(out@ =~= ok_reply(n as nat));
    out
}

pub fn err_line(e: i64) -> (r: Vec<u8>)
    ensures
        r@ == err_reply(e as int),
{
    let mut out: Vec<u8> = vec![0x45u8, 0x52, 0x52, 0x20];
    push_signed(&mut out, e);
    out.push(0x0au8);
    assert(out@ =~= err_reply(e as int));
    out
}

pub open spec fn start_reply_text(outcome: Result<u32, Option<i32>>) -> Seq<u8> {
    match outcome {
        Ok(pid) => ok_reply(pid as nat),
        Err(Some(e)) => err_reply(e as int),
        Err(None) => err_reply(-1),
    }
}

/// The reply to a `START` once the spawn was tried: the child's pid, or the
/// error number the system gave (-1 when it gave none).
pub fn start_reply(outcome: Result<u32, Option<i32>>) -> (r: Vec<u8>)
    ensures
        r@ == start_reply_text(outcome),
{
    match outcome {
        Ok(pid) => ok_line(pid as u64),
        Err(Some(e)) => err_line(e as i64),
        Err(None) => err_line(-1),
    }
}

/// The slot `slot` after `fd` is offered it: taken when empty, else unchanged.
pub open spec fn promoted(slot: Option<int>, fd: int) -> Option<int> {
    if slot is None {
        Some(fd)
    } else {
        slot
    }
}

/// The slot `slot` after `fd` is closed: emptied when `fd` held it.
pub open spec fn released(slot: Option<int>, fd: int) -> Option<int> {
    if slot == Some(fd) {
        None
    } else {
        slot
    }
}

/// The descriptors that the slot `slot` holds.
pub open spec fn holders(slot: Option<int>) -> Set<int> {
    match slot {
        Some(fd) => set![fd],
        None => Set::empty(),
    }
}

/// The mastering slot: the one connection, if any, to which wait events are
/// relayed.
pub struct MasterSlot {
    holder: Option<i32>,
}

impl View for MasterSlot {
    type V = Option<int>;

    closed spec fn view(&self) -> Option<int> {
        match self.holder {
            Some(fd) => Some(fd as int),
            None => None,
        }
    }
}

impl MasterSlot {
    pub fn new() -> (r: MasterSlot)
        ensures
            r@ is None,
    {
        MasterSlot { holder: None }
    }

    /// Offers the slot to `fd`; true when `fd` holds it afterwards.
    pub fn promote(&mut self, fd: i32) -> (r: bool)
        ensures
            final(self)@ == promoted(old(self)@, fd as int),
            r == (final(self)@ == Some(fd as int)),
    {
        if self.holder.is_none() {
            self.holder = Some(fd);
        }
        match self.holder {
            Some(h) => h == fd,
            None => false,
        }
    }

    /// Empties the slot when `fd` holds it.
    pub fn release(&mut self, fd: i32)
        ensures
            final(self)@ == released(old(self)@, fd as int),
    {
        if let Some(h) = self.holder {
            if h == fd {
                self.holder = None;
            }
        }
    }

    pub fn holder(&self) -> (r: Option<i32>)
        ensures
            match r {
                Some(fd) => self@ == Some(fd as int),
                None => self@ is None,
            },
    {
        self.holder
    }
}

/// What a connection's worker does next.
pub enum Action {
    /// Write these bytes to the connection.
    Send(Vec<u8>),
    /// Spawn the program at this path with these arguments, then write
    /// [`start_reply`] of the outcome to the connection.
    Spawn(Vec<u8>, Vec<Vec<u8>>),
    /// Close the connection.
    Close,
}

pub enum ActionModel {
    Send(Seq<u8>),
    Spawn(Seq<u8>, Seq<Seq<u8>>),
    Close,
}

impl View for Action {
    type V = ActionModel;

    open spec fn view(&self) -> ActionModel {
        match self {
            Action::Send(b) => ActionModel::Send(b@),
            Action::Spawn(p, a) => ActionModel::Spawn(p@, byte_strings(a@)),
            Action::Close => ActionModel::Close,
        }
    }
}

pub open spec fn action_view(a: Option<Action>) -> Option<ActionModel> {
    match a {
        Some(x) => Some(x@),
        None => None,
    }
}

/// How the connection `fd` answers `q` (`None`: a request that failed
/// validation), given the slot `slot`: the slot afterwards, whether the
/// connection stays open, and the action. `MASTER` takes an empty slot and
/// succeeds when the connection holds it; `STOP` only confirms that the pid
/// can be signalled, and sends no signal.
pub open spec fn answer(q: Option<QueryModel>, fd: int, slot: Option<int>) -> (
    Option<int>,
    bool,
    ActionModel,
) {
    match q {
        None => (slot, true, ActionModel::Send(err_reply(-1))),
        Some(QueryModel::Helo) => (slot, true, ActionModel::Send(helo_banner())),
        Some(QueryModel::Bye) => (released(slot, fd), false, ActionModel::Close),
        Some(QueryModel::Master) => if promoted(slot, fd) == Some(fd) {
            (promoted(slot, fd), true, ActionModel::Send(ok_reply(0)))
        } else {
            (slot, true, ActionModel::Send(err_reply(EBUSY as int)))
        },
        Some(QueryModel::Start(p, a)) => (slot, true, ActionModel::Spawn(p, a)),
        Some(QueryModel::Stop(_)) => (slot, true, ActionModel::Send(ok_reply(0))),
        Some(QueryModel::ProtocolError) => (slot, true, ActionModel::Send(err_reply(-1))),
    }
}

pub struct SessionModel {
    pub fd: int,
    pub open: bool,
}

/// One step of a connection on a request line, given the probe answer
/// `found` (see [`checked_query`]): a closed connection does nothing.
pub open spec fn line_step(st: SessionModel, slot: Option<int>, line: Seq<u8>, found: bool) -> (
    SessionModel,
    Option<int>,
    Option<ActionModel>,
) {
    if !st.open {
        (st, slot, None)
    } else {
        let (slot2, open2, act) = answer(
            checked_query(raw_query_of(line), found),
            st.fd,
            slot,
        );
        (SessionModel { fd: st.fd, open: open2 }, slot2, Some(act))
    }
}

/// One step of a connection when its peer is gone (a read of zero bytes or a
/// failed read): an open connection closes.
pub open spec fn end_step(st: SessionModel, slot: Option<int>) -> (
    SessionModel,
    Option<int>,
    Option<ActionModel>,
) {
    if !st.open {
        (st, slot, None)
    } else {
        (SessionModel { fd: st.fd, open: false }, released(slot, st.fd), Some(ActionModel::Close))
    }
}

/// The decisions of one accepted connection of the reaper. Its worker reads,
/// hands each request line or the end of input here, and carries out the
/// action it gets back.
pub struct Session {
    fd: i32,
    open: bool,
}

impl View for Session {
    type V = SessionModel;

    closed spec fn view(&self) -> SessionModel {
        SessionModel { fd: self.fd as int, open: self.open }
    }
}

impl Session {
    /// A connection just accepted on `fd`; it takes the mastering slot when
    /// that is empty.
    pub fn accept(fd: i32, slot: &mut MasterSlot) -> (r: Session)
        ensures
            r@ == (SessionModel { fd: fd as int, open: true }),
            final(slot)@ == promoted(old(slot)@, fd as int),
    {
        slot.promote(fd);
        Session { fd, open: true }
    }

    pub fn fd(&self) -> (r: i32)
        ensures
            r as int == self@.fd,
    {
        self.fd
    }

    pub fn is_open(&self) -> (r: bool)
        ensures
            r == self@.open,
    {
        self.open
    }

    /// Answers a validated request (`None`: one that failed validation).
    pub fn reply_query(&mut self, slot: &mut MasterSlot, q: Option<Query>) -> (r: Action)
        requires
            old(self)@.open,
        ensures
            answer(query_view(q), old(self)@.fd, old(slot)@) == (
                final(slot)@,
                final(self)@.open,
                r@,
            ),
            final(self)@.fd == old(self)@.fd,
    {
        match q {
            None => Action::Send(err_line(-1)),
            Some(Query::Helo) => Action::Send(helo_reply()),
            Some(Query::Bye) => {
                slot.release(self.fd);
                self.open = false;
                Action::Close
            },
            Some(Query::Master) => {
                if slot.promote(self.fd) {
                    Action::Send(ok_line(0))
                } else {
                    Action::Send(err_line(EBUSY))
                }
            },
            Some(Query::Start(p, a)) => Action::Spawn(p, a),
            Some(Query::Stop(_)) => Action::Send(ok_line(0)),
            Some(Query::ProtocolError) => Action::Send(err_line(-1)),
        }
    }

    /// Reads, validates and answers one request line.
    pub fn on_line(&mut self, slot: &mut MasterSlot, line: &[u8]) -> (r: Option<Action>)
        ensures
            line_step(old(self)@, old(slot)@, line@, true) == (
                final(self)@,
                final(slot)@,
                action_view(r),
            ) || line_step(old(self)@, old(slot)@, line@, false) == (
                final(self)@,
                final(slot)@,
                action_view(r),
            ),
    {
        if !self.open {
            return None;
        }
        let rq = RawQuery::from_line(line);
        let q = validate_raw_query(rq);
        Some(self.reply_query(slot, q))
    }

    /// The peer is gone: an open connection closes, and leaves the mastering
    /// slot if it held it.
    pub fn on_end(&mut self, slot: &mut MasterSlot) -> (r: Option<Action>)
        ensures
            end_step(old(self)@, old(slot)@) == (final(self)@, final(slot)@, action_view(r)),
    {
        if !self.open {
            return None;
        }
        slot.release(self.fd);
        self.open = false;
        Some(Action::Close)
    }
}

/// What is left of an unfinished line: all of it, or its first
/// `MAX_LINE + 1` bytes when it is longer, which is enough to refuse it.
pub open spec fn kept(rest: Seq<u8>) -> Seq<u8> {
    if rest.len() > MAX_LINE {
        rest.subrange(0, MAX_LINE + 1)
    } else {
        rest
    }
}

/// The lines that `chunk` completes after the unfinished line `pending`, and
/// what is left unfinished.
pub open spec fn feed_lines(pending: Seq<u8>, chunk: Seq<u8>) -> (Seq<Seq<u8>>, Seq<u8>) {
    let f = fields(pending + chunk, seq![0x0au8]);
    (f.drop_last(), kept(f.last()))
}

/// Cuts the bytes read from a connection into request lines, holding an
/// unfinished line until its newline comes.
pub struct LineBuffer {
    pending: Vec<u8>,
}

impl View for LineBuffer {
    type V = Seq<u8>;

    closed spec fn view(&self) -> Seq<u8> {
        self.pending@
    }
}

impl LineBuffer {
    pub fn new() -> (r: LineBuffer)
        ensures
            r@ == Seq::<u8>::empty(),
    {
        LineBuffer { pending: Vec::new() }
    }

    /// Takes a chunk; returns the lines it completes, without their newlines.
    pub fn feed(&mut self, chunk: &[u8]) -> (r: Vec<Vec<u8>>)
        ensures
            (byte_strings(r@), final(self)@) == feed_lines(old(self)@, chunk@),
    {
        let ghost all = self.pending@ + chunk@;
        append_bytes(&mut self.pending, chunk);
        let nl: Vec<u8> = vec![0x0au8];
        assert(nl@ =~= seq![0x0au8]);
        let mut f = split_fields(self.pending.as_slice(), nl.as_slice());
        proof {
            crate::text::lemma_fields_nonempty(all, nl@);
        }
        let ghost views = byte_strings(f@);
        let last = f.pop().unwrap();
        assert(byte_strings(f@) =~= views.drop_last());
        assert(last@ == views.last());
        let mut rest: Vec<u8> = Vec::new();
        if last.len() > MAX_LINE {
            append_bytes(&mut rest, slice_subrange(last.as_slice(), 0, MAX_LINE + 1));
        } else {
            append_bytes(&mut rest, last.as_slice());
        }
        assert(rest@ =~= kept(last@));
        self.pending = rest;
        f
    }
}

/// A change in a child's state, as the system reports it to a wait.
pub enum WaitEvent {
    /// The child exited with this status.
    Exited(i32, i32),
    /// The child was killed by this signal, dumping core or not.
    Signaled(i32, i32, bool),
    /// The child was stopped by this signal.
    Stopped(i32, i32),
    /// A traced child stopped at this ptrace event.
    PtraceEvent(i32, i32, i32),
    /// A traced child stopped at a system call.
    PtraceSyscall(i32),
    /// The child was resumed.
    Continued(i32),
    /// No child has changed state.
    StillAlive,
}

pub open spec fn comma() -> Seq<u8> {
    seq![0x2cu8, 0x20]
}

pub open spec fn bool_text(b: bool) -> Seq<u8> {
    if b {
        seq![0x74u8, 0x72, 0x75, 0x65]
    } else {
        seq![0x66u8, 0x61, 0x6c, 0x73, 0x65]
    }
}

/// The line relayed to the mastering peer for `ev`: the kind of event, then
/// its numbers in parentheses, as in `Exited(1234, 0)`.
pub open spec fn event_line(ev: WaitEvent) -> Seq<u8> {
    let open_p = seq![0x28u8];
    let close_p = seq![0x29u8, 0x0a];
    match ev {
        WaitEvent::Exited(pid, code) => seq![0x45u8, 0x78, 0x69, 0x74, 0x65, 0x64] + open_p
            + signed_decimal(pid as int) + comma() + signed_decimal(code as int) + close_p,
        WaitEvent::Signaled(pid, sig, core) => seq![
            0x53u8,
            0x69,
            0x67,
            0x6e,
            0x61,
            0x6c,
            0x65,
            0x64,
        ] + open_p + signed_decimal(pid as int) + comma() + signed_decimal(sig as int) + comma()
            + bool_text(core) + close_p,
        WaitEvent::Stopped(pid, sig) => seq![0x53u8, 0x74, 0x6f, 0x70, 0x70, 0x65, 0x64] + open_p
            + signed_decimal(pid as int) + comma() + signed_decimal(sig as int) + close_p,
        WaitEvent::PtraceEvent(pid, sig, event) => seq![
            0x50u8,
            0x74,
            0x72,
            0x61,
            0x63,
            0x65,
            0x45,
            0x76,
            0x65,
            0x6e,
            0x74,
        ] + open_p + signed_decimal(pid as int) + comma() + signed_decimal(sig as int) + comma()
            + signed_decimal(event as int) + close_p,
        WaitEvent::PtraceSyscall(pid) => seq![
            0x50u8,
            0x74,
            0x72,
            0x61,
            0x63,
            0x65,
            0x53,
            0x79,
            0x73,
            0x63,
            0x61,
            0x6c,
            0x6c,
        ] + open_p + signed_decimal(pid as int) + close_p,
        WaitEvent::Continued(pid) => seq![0x43u8, 0x6f, 0x6e, 0x74, 0x69, 0x6e, 0x75, 0x65, 0x64]
            + open_p + signed_decimal(pid as int) + close_p,
        WaitEvent::StillAlive => seq![
            0x53u8,
            0x74,
            0x69,
            0x6c,
            0x6c,
            0x41,
            0x6c,
            0x69,
            0x76,
            0x65,
            0x0a,
        ],
    }
}

fn push_comma(out: &mut Vec<u8>)
    ensures
        final(out)@ == old(out)@ + comma(),
{
    out.push(0x2cu8);
    out.push(0x20u8);
    assert(final(out)@ =~= old(out)@ + comma());
}

/// Formats `ev` as the line relayed to the mastering peer.
pub fn format_wait_event(ev: &WaitEvent) -> (r: Vec<u8>)
    ensures
        r@ == event_line(*ev),
{
    let mut out: Vec<u8>;
    match *ev {
        WaitEvent::Exited(pid, code) => {
            out = vec![0x45u8, 0x78, 0x69, 0x74, 0x65, 0x64, 0x28];
            push_signed(&mut out, pid as i64);
            push_comma(&mut out);
            push_signed(&mut out, code as i64);
        },
        WaitEvent::Signaled(pid, sig, core) => {
            out = vec![0x53u8, 0x69, 0x67, 0x6e, 0x61, 0x6c, 0x65, 0x64, 0x28];
            push_signed(&mut out, pid as i64);
            push_comma(&mut out);
            push_signed(&mut out, sig as i64);
            push_comma(&mut out);
            let t: Vec<u8> = if core {
                vec![0x74u8, 0x72, 0x75, 0x65]
            } else {
                vec![0x66u8, 0x61, 0x6c, 0x73, 0x65]
            };
            assert(t@ =~= bool_text(core));
            append_bytes(&mut out, t.as_slice());
        },
        WaitEvent::Stopped(pid, sig) => {
            out = vec![0x53u8, 0x74, 0x6f, 0x70, 0x70, 0x65, 0x64, 0x28];
            push_signed(&mut out, pid as i64);
            push_comma(&mut out);
            push_signed(&mut out, sig as i64);
        },
        WaitEvent::PtraceEvent(pid, sig, event) => {
            out = vec![0x50u8, 0x74, 0x72, 0x61, 0x63, 0x65, 0x45, 0x76, 0x65, 0x6e, 0x74, 0x28];
            push_signed(&mut out, pid as i64);
            push_comma(&mut out);
            push_signed(&mut out, sig as i64);
            push_comma(&mut out);
            push_signed(&mut out, event as i64);
        },
        WaitEvent::PtraceSyscall(pid) => {
            out = vec![
                0x50u8, 0x74, 0x72, 0x61, 0x63, 0x65, 0x53, 0x79, 0x73, 0x63, 0x61, 0x6c, 0x6c,
                0x28,
            ];
            push_signed(&mut out, pid as i64);
        },
        WaitEvent::Continued(pid) => {
            out = vec![0x43u8, 0x6f, 0x6e, 0x74, 0x69, 0x6e, 0x75, 0x65, 0x64, 0x28];
            push_signed(&mut out, pid as i64);
        },
        WaitEvent::StillAlive => {
            out = vec![0x53u8, 0x74, 0x69, 0x6c, 0x6c, 0x41, 0x6c, 0x69, 0x76, 0x65, 0x0a];
            assert(out@ =~= event_line(*ev));
            return out;
        },
    }
    out.push(0x29u8);
    out.push(0x0au8);
    assert(out@ =~= event_line(*ev));
    out
}

/// Where a wait event goes: to the mastering peer, as its line; `None` when
/// no connection holds the slot, and the event is dropped.
pub fn process_wait_event(slot: &MasterSlot, ev: &WaitEvent) -> (r: Option<(i32, Vec<u8>)>)
    ensures
        match r {
            Some((fd, line)) => slot@ == Some(fd as int) && line@ == event_line(*ev),
            None => slot@ is None,
        },
{
    match slot.holder() {
        Some(fd) => Some((fd, format_wait_event(ev))),
        None => None,
    }
}

/// What happens on a connection: a request line with the answer its probe
/// gave, or the end of input.
pub enum ConnEvent {
    Line(Seq<u8>, bool),
    End,
}

/// One step of a connection on `ev`.
pub open spec fn event_step(st: SessionModel, slot: Option<int>, ev: ConnEvent) -> (
    SessionModel,
    Option<int>,
    Option<ActionModel>,
) {
    match ev {
        ConnEvent::Line(line, found) => line_step(st, slot, line, found),
        ConnEvent::End => end_step(st, slot),
    }
}

/// A connection run over the events `evs`: its state, the slot, and the
/// actions it took, in order.
pub open spec fn run(st: SessionModel, slot: Option<int>, evs: Seq<ConnEvent>) -> (
    SessionModel,
    Option<int>,
    Seq<ActionModel>,
)
    decreases evs.len(),
{
    if evs.len() == 0 {
        (st, slot, Seq::empty())
    } else {
        let (st1, slot1, acts) = run(st, slot, evs.drop_last());
        let (st2, slot2, a) = event_step(st1, slot1, evs.last());
        (
            st2,
            slot2,
            match a {
                Some(x) => acts.push(x),
                None => acts,
            },
        )
    }
}

/// How many of `acts` close the connection.
pub open spec fn close_count(acts: Seq<ActionModel>) -> nat
    decreases acts.len(),
{
    if acts.len() == 0 {
        0
    } else {
        close_count(acts.drop_last()) + if acts.last() is Close {
            1nat
        } else {
            0nat
        }
    }
}

/// An accepted connection is closed exactly once: whatever requests come,
/// it has closed once if it is closed and never if it is open, and the end
/// of input closes it.
pub proof fn lemma_close_exactly_once(fd: int, slot: Option<int>, evs: Seq<ConnEvent>)
    ensures
        ({
            let (st, _, acts) = run(SessionModel { fd, open: true }, slot, evs);
            &&& st.fd == fd
            &&& close_count(acts) == if st.open {
                0nat
            } else {
                1nat
            }
            &&& (evs.len() > 0 && evs.last() is End) ==> !st.open
        }),
    decreases evs.len(),
{
    if evs.len() > 0 {
        lemma_close_exactly_once(fd, slot, evs.drop_last());
        let (st1, slot1, acts) = run(SessionModel { fd, open: true }, slot, evs.drop_last());
        let (st2, slot2, a) = event_step(st1, slot1, evs.last());
        if let Some(x) = a {
            assert(acts.push(x).drop_last() =~= acts);
            assert(st1.open);
            match evs.last() {
                ConnEvent::Line(line, found) => {
                    let q = checked_query(raw_query_of(line), found);
                    let (sl, op, act) = answer(q, st1.fd, slot1);
                    assert(act is Close <==> !op);
                },
                ConnEvent::End => {},
            }
        }
    }
}

/// The mastering slot holds at most one descriptor, and a connection never
/// takes or empties a slot that another connection holds.
pub proof fn lemma_single_master(
    slot: Option<int>,
    st: SessionModel,
    line: Seq<u8>,
    found: bool,
    fd: int,
)
    ensures
        holders(slot).len() <= 1,
        slot matches Some(h) && h != st.fd ==> line_step(st, slot, line, found).1 == slot
            && end_step(st, slot).1 == slot,
        slot matches Some(h) && h != fd ==> promoted(slot, fd) == slot,
{
    if let Some(h) = slot {
        assert(holders(slot) =~= set![h]);
        assert(set![h].len() == 1) by {
            assert(set![h] =~= Set::<int>::empty().insert(h));
        }
    } else {
        assert(holders(slot) =~= Set::<int>::empty());
    }
}

/// A `START` whose path passed validation is answered on its connection by
/// exactly one spawn, and the reply to that spawn is `OK` with the child's
/// pid or `ERR` with the system's error number, both positive. (An error
/// that carries no number is answered `ERR -1`, and a pid of zero is never
/// handed out; neither is covered here.)
pub proof fn lemma_start_answered(
    st: SessionModel,
    slot: Option<int>,
    line: Seq<u8>,
    path: Seq<u8>,
    args: Seq<Seq<u8>>,
    outcome: Result<u32, Option<i32>>,
)
    requires
        st.open,
        checked_query(raw_query_of(line), true) == Some(QueryModel::Start(path, args)),
        outcome matches Ok(pid) ==> pid > 0,
        outcome matches Err(e) ==> (e matches Some(n) && n > 0),
    ensures
        line_step(st, slot, line, true) == (st, slot, Some(ActionModel::Spawn(path, args))),
        exists|n: nat|
            n > 0 && (#[trigger] start_reply_text(outcome) == ok_reply(n) || start_reply_text(
                outcome,
            ) == err_reply(n as int)),
{
    match outcome {
        Ok(pid) => {
            assert(start_reply_text(outcome) == ok_reply(pid as nat));
        },
        Err(e) => {
            let n = e->Some_0;
            assert(start_reply_text(outcome) == err_reply(n as int));
            assert(n as nat > 0 && start_reply_text(outcome) == err_reply((n as nat) as int));
        },
    }
}

/// A `STOP` whose pid can be signalled is answered `OK 0` and nothing else.
pub proof fn lemma_stop_answered(st: SessionModel, slot: Option<int>, line: Seq<u8>, x: Seq<u8>)
    requires
        st.open,
        raw_query_of(line) == RawQueryModel::Stop(x),
        pid_of(x) is Some,
    ensures
        line_step(st, slot, line, true) == (st, slot, Some(ActionModel::Send(ok_reply(0)))),
{
}

/// A malformed request is answered `ERR -1` and leaves the connection and
/// the slot as they were, so the next request is served as if it had not
/// come.
pub proof fn lemma_malformed_tolerated(
    st: SessionModel,
    slot: Option<int>,
    bad: Seq<u8>,
    found: bool,
    next: Seq<u8>,
    next_found: bool,
)
    requires
        st.open,
        raw_query_of(bad) is ProtocolError,
    ensures
        line_step(st, slot, bad, found) == (st, slot, Some(ActionModel::Send(err_reply(-1)))),
        ({
            let (st1, slot1, _) = line_step(st, slot, bad, found);
            line_step(st1, slot1, next, next_found) == line_step(st, slot, next, next_found)
        }),
{
}

} // verus!
