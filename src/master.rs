//! The master: what it makes of the reaper's replies, the slaves it spawned,
//! the units it registered, and how it answers each request of a slave.

use vstd::prelude::*;
use crate::protocol::{
    framed, le_bytes, lemma_le_bytes_len, lemma_le_bytes_value, lemma_pow256_8, push_le, reply_body,
    encode_reply, frame, Reply, ReplyModel, Request, RequestModel, UnitId,
};
use crate::reaper::{banner_name, word_start};
use vstd::utf8::encode_utf8;
use crate::text::{
    append_bytes, byte_strings, contains_byte, fields, parse_signed, parse_unsigned,
    same_bytes, signed_text, split_fields, split_words, unsigned_text, words,
};

verus! {

/// The version the reaper reports in its `HELO` reply.
pub struct SysVersion {
    pub major: u64,
    pub minor: u64,
    pub patch: u64,
}

/// A reply of the reaper: `OK <n>` or `ERR <n>`.
pub enum SysReply {
    Okay(u64),
    Error(i64),
}

/// Why a reply of the reaper was refused.
pub enum SysError {
    /// The peer did not introduce itself as the reaper.
    NotAeterno,
    /// The reply does not have the expected shape.
    Malformed,
}

/// The separators of a reply of the reaper: space, dot and newline.
pub open spec fn reply_separators() -> Seq<u8> {
    seq![0x20u8, 0x2e, 0x0a]
}

/// An unsigned decimal that fits in a `u64`.
pub open spec fn u64_text(s: Seq<u8>) -> Option<u64> {
    match unsigned_text(s) {
        Some(v) => if v <= u64::MAX {
            Some(v as u64)
        } else {
            None
        },
        None => None,
    }
}

/// A signed decimal that fits in an `i64`.
pub open spec fn i64_text(s: Seq<u8>) -> Option<i64> {
    match signed_text(s) {
        Some(v) => if i64::MIN <= v <= i64::MAX {
            Some(v as i64)
        } else {
            None
        },
        None => None,
    }
}

/// What the reply to `HELO` says: its first field must be `Aeterno`, and
/// the next three the major, minor and patch numbers.
pub open spec fn version_of(reply: Seq<u8>) -> Result<(u64, u64, u64), SysError> {
    let fs = fields(reply, reply_separators());
    if fs.len() < 4 || fs[0] != banner_name() {
        Err(SysError::NotAeterno)
    } else {
        match (u64_text(fs[1]), u64_text(fs[2]), u64_text(fs[3])) {
            (Some(a), Some(b), Some(c)) => Ok((a, b, c)),
            _ => Err(SysError::Malformed),
        }
    }
}

/// What a reply to `MASTER`, `START` or `STOP` says.
pub open spec fn sys_reply_of(reply: Seq<u8>) -> Result<SysReply, SysError> {
    let fs = fields(reply, reply_separators());
    if fs.len() < 2 {
        Err(SysError::Malformed)
    } else if fs[0] == seq![0x4fu8, 0x4b] {
        match u64_text(fs[1]) {
            Some(v) => Ok(SysReply::Okay(v)),
            None => Err(SysError::Malformed),
        }
    } else if fs[0] == seq![0x45u8, 0x52, 0x52] {
        match i64_text(fs[1]) {
            Some(v) => Ok(SysReply::Error(v)),
            None => Err(SysError::Malformed),
        }
    } else {
        Err(SysError::Malformed)
    }
}

fn reply_fields(reply: &[u8]) -> (r: Vec<Vec<u8>>)
    ensures
        byte_strings(r@) == fields(reply@, reply_separators()),
{
    let seps: Vec<u8> = vec![0x20u8, 0x2e, 0x0a];
    assert(seps@ =~= reply_separators());
    split_fields(reply, seps.as_slice())
}

/// Reads the reaper's reply to `HELO`.
pub fn parse_sys_version(reply: &[u8]) -> (r: Result<SysVersion, SysError>)
    ensures
        match (r, version_of(reply@)) {
            (Ok(v), Ok((a, b, c))) => v.major == a && v.minor == b && v.patch == c,
            (Err(SysError::NotAeterno), Err(SysError::NotAeterno)) => true,
            (Err(SysError::Malformed), Err(SysError::Malformed)) => true,
            _ => false,
        },
{
    let fs = reply_fields(reply);
    let name: Vec<u8> = vec![0x41u8, 0x65, 0x74, 0x65, 0x72, 0x6e, 0x6f];
    assert(name@ =~= banner_name());
    let ghost views = byte_strings(fs@);
    if fs.len() < 4 {
        return Err(SysError::NotAeterno);
    }
    assert(views[0] == fs@[0]@ && views[1] == fs@[1]@ && views[2] == fs@[2]@ && views[3]
        == fs@[3]@);
    if !same_bytes(fs[0].as_slice(), name.as_slice()) {
        return Err(SysError::NotAeterno);
    }
    match (
        parse_unsigned(fs[1].as_slice()),
        parse_unsigned(fs[2].as_slice()),
        parse_unsigned(fs[3].as_slice()),
    ) {
        (Some(major), Some(minor), Some(patch)) => Ok(SysVersion { major, minor, patch }),
        _ => Err(SysError::Malformed),
    }
}

/// Reads a reply of the reaper to `MASTER`, `START` or `STOP`.
pub fn parse_sys_reply(reply: &[u8]) -> (r: Result<SysReply, SysError>)
    ensures
        r == sys_reply_of(reply@),
{
    let fs = reply_fields(reply);
    let ghost views = byte_strings(fs@);
    if fs.len() < 2 {
        return Err(SysError::Malformed);
    }
    assert(views[0] == fs@[0]@ && views[1] == fs@[1]@);
    let ok: Vec<u8> = vec![0x4fu8, 0x4b];
    let err: Vec<u8> = vec![0x45u8, 0x52, 0x52];
    assert(ok@ =~= seq![0x4fu8, 0x4b]);
    assert(err@ =~= seq![0x45u8, 0x52, 0x52]);
    if same_bytes(fs[0].as_slice(), ok.as_slice()) {
        match parse_unsigned(fs[1].as_slice()) {
            Some(v) => Ok(SysReply::Okay(v)),
            None => Err(SysError::Malformed),
        }
    } else if same_bytes(fs[0].as_slice(), err.as_slice()) {
        match parse_signed(fs[1].as_slice()) {
            Some(v) => Ok(SysReply::Error(v)),
            None => Err(SysError::Malformed),
        }
    } else {
        Err(SysError::Malformed)
    }
}

/// Whether the reply to `MASTER` grants mastering: an `OK` reply.
pub fn mastering_granted(reply: &[u8]) -> (r: bool)
    ensures
        r == (sys_reply_of(reply@) matches Ok(SysReply::Okay(_))),
{
    match parse_sys_reply(reply) {
        Ok(SysReply::Okay(_)) => true,
        _ => false,
    }
}

/// The master's configuration: the paths of the slave binaries it spawns.
pub struct MasterConfiguration {
    pub slaves: Vec<String>,
}

/// A slave binary the master spawned.
pub struct Slave {
    pub pid: u64,
}

/// The slaves the master spawned, in the order it spawned them. Entries are
/// only ever added.
pub struct SlaveRegistry {
    slaves: Vec<Slave>,
}

impl View for SlaveRegistry {
    type V = Seq<u64>;

    closed spec fn view(&self) -> Seq<u64> {
        self.slaves@.map_values(|s: Slave| s.pid)
    }
}

impl SlaveRegistry {
    pub fn new() -> (r: SlaveRegistry)
        ensures
            r@ == Seq::<u64>::empty(),
    {
        let r = SlaveRegistry { slaves: Vec::new() };
        assert(r@ =~= Seq::<u64>::empty());
        r
    }

    pub fn len(&self) -> (r: usize)
        ensures
            r == self@.len(),
    {
        self.slaves.len()
    }

    pub fn pid_at(&self, i: usize) -> (r: u64)
        requires
            i < self@.len(),
        ensures
            r == self@[i as int],
    {
        self.slaves[i].pid
    }
}

/// Records a slave that was spawned with the process id `slave_id`.
pub fn register_slave(registry: &mut SlaveRegistry, slave_id: u64)
    ensures
        final(registry)@ == old(registry)@.push(slave_id),
{
    let ghost before = registry.slaves@;
    registry.slaves.push(Slave { pid: slave_id });
    assert(registry.slaves@.map_values(|s: Slave| s.pid) =~= before.map_values(|s: Slave| s.pid).push(
        slave_id,
    ));
}

/// The pids of the spawns that succeeded, in order.
pub open spec fn spawned_pids(outcomes: Seq<Option<u64>>) -> Seq<u64>
    decreases outcomes.len(),
{
    if outcomes.len() == 0 {
        Seq::empty()
    } else {
        let pre = spawned_pids(outcomes.drop_last());
        match outcomes.last() {
            Some(pid) => pre.push(pid),
            None => pre,
        }
    }
}

/// Records the slaves of the configuration once their spawns were tried,
/// given the pid of each spawn that succeeded: only those are recorded.
pub fn start_slaves(registry: &mut SlaveRegistry, outcomes: &Vec<Option<u64>>)
    ensures
        final(registry)@ == old(registry)@ + spawned_pids(outcomes@),
{
    let ghost start = registry@;
    let mut i: usize = 0;
    assert(outcomes@.subrange(0, 0) =~= Seq::<Option<u64>>::empty());
    assert(start + Seq::<u64>::empty() =~= start);
    while i < outcomes.len()
        invariant
            i <= outcomes@.len(),
            registry@ == start + spawned_pids(outcomes@.subrange(0, i as int)),
        decreases outcomes@.len() - i,
    {
        assert(outcomes@.subrange(0, i + 1).drop_last() =~= outcomes@.subrange(0, i as int));
        if let Some(pid) = outcomes[i] {
            register_slave(registry, pid);
            assert(registry@ =~= start + spawned_pids(outcomes@.subrange(0, i + 1)));
        }
        i = i + 1;
    }
    assert(outcomes@.subrange(0, i as int) =~= outcomes@);
}

/// Relies on uuid::Uuid::new_v4: sixteen random bytes, with the version
/// nibble set to 4 and the variant bits to those of RFC 4122. Nothing else is
/// promised of them.
#[verifier::external_body]
fn new_unit_id() -> (r: UnitId)
    ensures
        r.bytes[6] & 0xf0u8 == 0x40u8,
        r.bytes[8] & 0xc0u8 == 0x80u8,
{
    UnitId { bytes: uuid::Uuid::new_v4().into_bytes() }
}

/// The `k`-th id tried when a drawn id is already taken: the first 8 bytes
/// of the drawn id, then `k` in 8 little-endian bytes.
pub open spec fn fallback_id(drawn: Seq<u8>, k: nat) -> Seq<u8> {
    drawn.subrange(0, 8) + le_bytes(k, 8)
}

/// The units the master registered, by id. No id is in it twice.
pub struct UnitRegistry {
    ids: Vec<UnitId>,
}

impl View for UnitRegistry {
    type V = Seq<Seq<u8>>;

    closed spec fn view(&self) -> Seq<Seq<u8>> {
        self.ids@.map_values(|u: UnitId| u@)
    }
}

proof fn lemma_fallback_distinct(drawn: Seq<u8>, i: nat, j: nat)
    requires
        drawn.len() == 16,
        i < 0x1_0000_0000_0000_0000,
        j < 0x1_0000_0000_0000_0000,
        fallback_id(drawn, i) == fallback_id(drawn, j),
    ensures
        i == j,
{
    lemma_pow256_8();
    lemma_le_bytes_value(i, 8);
    lemma_le_bytes_value(j, 8);
    assert(fallback_id(drawn, i).subrange(8, 16) =~= le_bytes(i, 8));
    assert(fallback_id(drawn, j).subrange(8, 16) =~= le_bytes(j, 8));
}

/// A sequence that holds the first `n + 1` fallback ids, which are all
/// distinct, is longer than `n`.
proof fn lemma_no_room(held: Seq<Seq<u8>>, drawn: Seq<u8>, n: nat)
    requires
        drawn.len() == 16,
        n < 0x1_0000_0000_0000_0000,
        forall|k: nat| k <= n ==> held.contains(#[trigger] fallback_id(drawn, k)),
    ensures
        held.len() > n,
{
    let cands = Seq::new(n + 1, |k: int| fallback_id(drawn, k as nat));
    assert(cands.no_duplicates()) by {
        assert forall|a: int, b: int| 0 <= a < cands.len() && 0 <= b < cands.len() && a != b
            implies cands[a] != cands[b] by {
            if cands[a] == cands[b] {
                lemma_fallback_distinct(drawn, a as nat, b as nat);
            }
        }
    }
    cands.unique_seq_to_set();
    held.lemma_cardinality_of_set();
    assert(cands.to_set().subset_of(held.to_set())) by {
        assert forall|x: Seq<u8>| cands.to_set().contains(x) implies held.to_set().contains(x) by {
            let k = choose|k: int| 0 <= k < cands.len() && cands[k] == x;
            assert(held.contains(fallback_id(drawn, k as nat)));
        }
    }
    vstd::set_lib::lemma_len_subset(cands.to_set(), held.to_set());
}

impl UnitRegistry {
    /// No id is registered twice.
    pub open spec fn wf(&self) -> bool {
        self@.no_duplicates()
    }

    pub fn new() -> (r: UnitRegistry)
        ensures
            r.wf(),
            r@ == Seq::<Seq<u8>>::empty(),
    {
        let r = UnitRegistry { ids: Vec::new() };
        assert(r@ =~= Seq::<Seq<u8>>::empty());
        r
    }

    pub fn contains(&self, id: &UnitId) -> (r: bool)
        ensures
            r == self@.contains(id@),
    {
        let mut i: usize = 0;
        while i < self.ids.len()
            invariant
                i <= self.ids@.len(),
                forall|j: int| 0 <= j < i ==> self@[j] != id@,
            decreases self.ids@.len() - i,
        {
            if self.ids[i].same(id) {
                assert(self@[i as int] == id@);
                return true;
            }
            i = i + 1;
        }
        false
    }

    fn fallback(drawn: &UnitId, k: u64) -> (r: UnitId)
        ensures
            r@ == fallback_id(drawn@, k as nat),
    {
        let mut tail: Vec<u8> = Vec::new();
        push_le(&mut tail, k, 8);
        proof {
            lemma_le_bytes_len(k as nat, 8);
        }
        let mut bytes = drawn.bytes;
        let mut i: usize = 8;
        while i < 16
            invariant
                8 <= i <= 16,
                bytes@.len() == 16,
                tail@ == le_bytes(k as nat, 8),
                tail@.len() == 8,
                forall|j: int| 0 <= j < 8 ==> bytes@[j] == drawn@[j],
                forall|j: int| 8 <= j < i ==> bytes@[j] == tail@[j - 8],
            decreases 16 - i,
        {
            bytes[i] = tail[i - 8];
            i = i + 1;
        }
        let r = UnitId { bytes };
        assert(r@ =~= fallback_id(drawn@, k as nat));
        r
    }

    /// Registers a new unit under `drawn`, or, when `drawn` is taken, under
    /// the first [`fallback_id`] of it that is free; returns the id given.
    pub fn issue(&mut self, drawn: UnitId) -> (r: UnitId)
        requires
            old(self).wf(),
        ensures
            final(self).wf(),
            !old(self)@.contains(r@),
            final(self)@ == old(self)@.push(r@),
            !old(self)@.contains(drawn@) ==> r@ == drawn@,
    {
        let mut id = drawn;
        if self.contains(&drawn) {
            let n: u64 = self.ids.len() as u64;
            let mut k: u64 = 0;
            loop
                invariant
                    k <= n,
                    n == self@.len(),
                    drawn@.len() == 16,
                    forall|j: nat| j < k ==> self@.contains(#[trigger] fallback_id(drawn@, j)),
                ensures
                    !self@.contains(id@),
                decreases n - k,
            {
                let c = Self::fallback(&drawn, k);
                if !self.contains(&c) {
                    id = c;
                    break;
                }
                if k == n {
                    proof {
                        lemma_no_room(self@, drawn@, n as nat);
                    }
                }
                k = k + 1;
            }
        }
        let ghost before = self.ids@;
        self.ids.push(id);
        assert(self@ =~= before.map_values(|u: UnitId| u@).push(id@));
        id
    }
}

/// The master's version text: `aeterno-master 0.0.1 - November 2018`.
pub open spec fn master_version() -> Seq<u8> {
    seq![
        0x61u8, 0x65, 0x74, 0x65, 0x72, 0x6e, 0x6f, 0x2d, 0x6d, 0x61, 0x73, 0x74, 0x65, 0x72,
        0x20, 0x30, 0x2e, 0x30, 0x2e, 0x31, 0x20, 0x2d, 0x20, 0x4e, 0x6f, 0x76, 0x65, 0x6d,
        0x62, 0x65, 0x72, 0x20, 0x32, 0x30, 0x31, 0x38,
    ]
}

/// The frame of the reply to `Helo`.
pub open spec fn helo_frame() -> Seq<u8> {
    framed(reply_body(ReplyModel::Helo(master_version())))
}

/// The frame of the reply to `RegisterUnit` that gives `id`.
pub open spec fn registered_frame(id: Seq<u8>) -> Seq<u8> {
    framed(reply_body(ReplyModel::UnitRegistered(id)))
}

/// A command line the master passes on to the reaper: at least one word,
/// and a single line.
pub open spec fn forwardable(t: Seq<u8>) -> bool {
    words(t).len() > 0 && !t.contains(0x0au8)
}

/// The `START` request line for the command line `t`.
pub open spec fn start_line(t: Seq<u8>) -> Seq<u8> {
    word_start() + seq![0x20u8] + t + seq![0x0au8]
}

/// What the worker of a slave connection does after a request.
pub enum MasterAction {
    /// Send this frame to the slave.
    Reply(Vec<u8>),
    /// Send this line to the reaper and read back its reply; the slave gets
    /// no answer.
    Forward(Vec<u8>),
    /// Nothing.
    Ignore,
    /// Close the connection to the slave.
    Close,
}

pub enum MasterActionModel {
    Reply(Seq<u8>),
    Forward(Seq<u8>),
    Ignore,
    Close,
}

impl View for MasterAction {
    type V = MasterActionModel;

    open spec fn view(&self) -> MasterActionModel {
        match self {
            MasterAction::Reply(f) => MasterActionModel::Reply(f@),
            MasterAction::Forward(l) => MasterActionModel::Forward(l@),
            MasterAction::Ignore => MasterActionModel::Ignore,
            MasterAction::Close => MasterActionModel::Close,
        }
    }
}

fn helo_reply_frame() -> (r: Vec<u8>)
    ensures
        r@ == helo_frame(),
{
    let version: Vec<u8> = vec![
        0x61u8, 0x65, 0x74, 0x65, 0x72, 0x6e, 0x6f, 0x2d, 0x6d, 0x61, 0x73, 0x74, 0x65, 0x72,
        0x20, 0x30, 0x2e, 0x30, 0x2e, 0x31, 0x20, 0x2d, 0x20, 0x4e, 0x6f, 0x76, 0x65, 0x6d,
        0x62, 0x65, 0x72, 0x20, 0x32, 0x30, 0x31, 0x38,
    ];
    assert(version@ =~= master_version());
    let mut body: Vec<u8> = Vec::new();
    push_le(&mut body, 0, 4);
    push_le(&mut body, version.len() as u64, 8);
    append_bytes(&mut body, version.as_slice());
    proof {
        lemma_le_bytes_len(0, 4);
        lemma_le_bytes_len(36, 8);
    }
    assert(body@ =~= reply_body(ReplyModel::Helo(master_version())));
    match frame(body) {
        Some(f) => f,
        None => Vec::new(),
    }
}

/// The `START` line for the command line `s`, when it can be passed on.
pub fn start_command(s: &String) -> (r: Option<Vec<u8>>)
    ensures
        match r {
            Some(l) => forwardable(encode_utf8(s@)) && l@ == start_line(encode_utf8(s@)),
            None => !forwardable(encode_utf8(s@)),
        },
{
    let b = s.as_str().as_bytes();
    if split_words(b).len() == 0 || contains_byte(b, 0x0au8) {
        return None;
    }
    let mut out: Vec<u8> = vec![0x53u8, 0x54, 0x41, 0x52, 0x54, 0x20];
    append_bytes(&mut out, b);
    out.push(0x0au8);
    assert(out@ =~= start_line(encode_utf8(s@)));
    Some(out)
}

/// Answers one request of a slave. `Helo` gets the master's version;
/// `RegisterUnit` registers a unit under a fresh id and gets that id;
/// `UnitStartExecutable` is passed on to the reaper as `START` when its
/// command line is forwardable, else ignored; a `ProtocolError` closes the
/// connection.
pub fn handle_request(units: &mut UnitRegistry, req: Request) -> (r: MasterAction)
    requires
        old(units).wf(),
    ensures
        final(units).wf(),
        match req@ {
            RequestModel::Helo => final(units)@ == old(units)@ && r@ == MasterActionModel::Reply(
                helo_frame(),
            ),
            RequestModel::RegisterUnit => {
                let id = final(units)@.last();
                &&& final(units)@ == old(units)@.push(id)
                &&& !old(units)@.contains(id)
                &&& r@ == MasterActionModel::Reply(registered_frame(id))
            },
            RequestModel::UnitStartExecutable(_, t) => final(units)@ == old(units)@ && r@
                == if forwardable(t) {
                MasterActionModel::Forward(start_line(t))
            } else {
                MasterActionModel::Ignore
            },
            RequestModel::ProtocolError => final(units)@ == old(units)@ && r@
                == MasterActionModel::Close,
        },
{
    match req {
        Request::Helo => MasterAction::Reply(helo_reply_frame()),
        Request::RegisterUnit => {
            let id = units.issue(new_unit_id());
            let rep = Reply::UnitRegistered(id);
            proof {
                lemma_le_bytes_len(1, 4);
            }
            assert(reply_body(rep@).len() == 20);
            match encode_reply(&rep) {
                Some(f) => MasterAction::Reply(f),
                None => MasterAction::Close,
            }
        },
        Request::UnitStartExecutable(_, s) => match start_command(&s) {
            Some(l) => MasterAction::Forward(l),
            None => MasterAction::Ignore,
        },
        Request::ProtocolError => MasterAction::Close,
    }
}

/// The units a master registers keep distinct ids: registering a unit in a
/// registry without repeated ids leaves it without repeated ids, and the id
/// given was not given before.
pub proof fn lemma_registered_ids_distinct(before: Seq<Seq<u8>>, id: Seq<u8>)
    requires
        before.no_duplicates(),
        !before.contains(id),
    ensures
        before.push(id).no_duplicates(),
        forall|i: int| 0 <= i < before.len() ==> before.push(id)[i] != id,
{
    assert forall|i: int, j: int|
        0 <= i < before.push(id).len() && 0 <= j < before.push(id).len() && i != j implies before.push(
        id,
    )[i] != before.push(id)[j] by {
        if i == before.len() {
            assert(before.contains(before[j]));
        } else if j == before.len() {
            assert(before.contains(before[i]));
        }
    }
}

} // verus!
