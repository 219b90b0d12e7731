//! The framed protocol between the master and its slaves.
//!
//! A frame is a 4-byte little-endian length, then that many bytes of body.
//! A body is a 4-byte little-endian tag naming the variant, then its fields:
//! a unit id as its 16 bytes, a text as an 8-byte little-endian length and
//! its UTF-8 bytes. Each frame decodes on its own, and decoding is exact: a
//! frame decodes only if it is the encoding of what it decodes to.

use vstd::prelude::*;
use vstd::utf8::{encode_utf8, valid_utf8};
use vstd::slice::slice_subrange;
use crate::text::{append_bytes, utf8_text};

verus! {

/// The largest body a frame may carry, in bytes.
pub const MAX_BODY: usize = 65536;

/// The 128-bit identifier of a unit, as its 16 bytes in network order.
#[derive(Clone, Copy)]
pub struct UnitId {
    pub bytes: [u8; 16],
}

impl View for UnitId {
    type V = Seq<u8>;

    open spec fn view(&self) -> Seq<u8> {
        self.bytes@
    }
}

impl UnitId {
    pub fn same(&self, other: &UnitId) -> (r: bool)
        ensures
            r == (self@ == other@),
    {
        let mut i: usize = 0;
        while i < 16
            invariant
                i <= 16,
                self@.len() == 16,
                other@.len() == 16,
                forall|j: int| 0 <= j < i ==> self@[j] == other@[j],
            decreases 16 - i,
        {
            if self.bytes[i] != other.bytes[i] {
                return false;
            }
            i = i + 1;
        }
        assert(self@ =~= other@);
        true
    }
}

/// A request from a slave to the master.
pub enum Request {
    Helo,
    RegisterUnit,
    /// Run the command line of this unit.
    UnitStartExecutable(UnitId, String),
    /// Stands for a frame that did not decode.
    ProtocolError,
}

/// A reply from the master to a slave.
pub enum Reply {
    /// The master's version text.
    Helo(String),
    /// The id given to a newly registered unit.
    UnitRegistered(UnitId),
}

/// A request with its text as UTF-8 bytes.
pub enum RequestModel {
    Helo,
    RegisterUnit,
    UnitStartExecutable(Seq<u8>, Seq<u8>),
    ProtocolError,
}

/// A reply with its text as UTF-8 bytes.
pub enum ReplyModel {
    Helo(Seq<u8>),
    UnitRegistered(Seq<u8>),
}

impl View for Request {
    type V = RequestModel;

    open spec fn view(&self) -> RequestModel {
        match self {
            Request::Helo => RequestModel::Helo,
            Request::RegisterUnit => RequestModel::RegisterUnit,
            Request::UnitStartExecutable(id, s) => RequestModel::UnitStartExecutable(
                id@,
                encode_utf8(s@),
            ),
            Request::ProtocolError => RequestModel::ProtocolError,
        }
    }
}

impl View for Reply {
    type V = ReplyModel;

    open spec fn view(&self) -> ReplyModel {
        match self {
            Reply::Helo(s) => ReplyModel::Helo(encode_utf8(s@)),
            Reply::UnitRegistered(id) => ReplyModel::UnitRegistered(id@),
        }
    }
}

pub open spec fn pow256(k: nat) -> nat
    decreases k,
{
    if k == 0 {
        1
    } else {
        256 * pow256((k - 1) as nat)
    }
}

/// The `k` low bytes of `n`, least significant first.
pub open spec fn le_bytes(n: nat, k: nat) -> Seq<u8>
    decreases k,
{
    if k == 0 {
        Seq::empty()
    } else {
        seq![(n % 256) as u8] + le_bytes(n / 256, (k - 1) as nat)
    }
}

/// The number that the bytes `s` denote, least significant first.
pub open spec fn le_value(s: Seq<u8>) -> nat
    decreases s.len(),
{
    if s.len() == 0 {
        0
    } else {
        s[0] as nat + 256 * le_value(s.subrange(1, s.len() as int))
    }
}

pub proof fn lemma_le_bytes_len(n: nat, k: nat)
    ensures
        le_bytes(n, k).len() == k,
    decreases k,
{
    if k > 0 {
        lemma_le_bytes_len(n / 256, (k - 1) as nat);
    }
}

pub proof fn lemma_pow256_8()
    ensures
        pow256(4) == 0x1_0000_0000,
        pow256(8) == 0x1_0000_0000_0000_0000,
{
    reveal_with_fuel(pow256, 9);
}

pub proof fn lemma_le_bytes_value(n: nat, k: nat)
    requires
        n < pow256(k),
    ensures
        le_bytes(n, k).len() == k,
        le_value(le_bytes(n, k)) == n,
    decreases k,
{
    if k > 0 {
        let p = pow256((k - 1) as nat);
        assert(n / 256 < p) by (nonlinear_arith)
            requires
                n < 256 * p,
        ;
        lemma_le_bytes_value(n / 256, (k - 1) as nat);
        let s = le_bytes(n, k);
        assert(s.subrange(1, s.len() as int) =~= le_bytes(n / 256, (k - 1) as nat));
        assert(n % 256 + 256 * (n / 256) == n) by (nonlinear_arith);
    }
}

pub proof fn lemma_le_value_bytes(s: Seq<u8>)
    ensures
        le_value(s) < pow256(s.len()),
        le_bytes(le_value(s), s.len()) == s,
    decreases s.len(),
{
    if s.len() > 0 {
        let rest = s.subrange(1, s.len() as int);
        lemma_le_value_bytes(rest);
        let v = le_value(s);
        let w = le_value(rest);
        let b = s[0] as nat;
        let p = pow256(rest.len());
        assert(v == b + 256 * w);
        assert(v % 256 == b && v / 256 == w) by (nonlinear_arith)
            requires
                v == b + 256 * w,
                b < 256,
        ;
        assert(v < 256 * p) by (nonlinear_arith)
            requires
                v == b + 256 * w,
                b < 256,
                w < p,
        ;
        assert(le_bytes(v, s.len()) =~= s);
    }
}

/// Appends the `k` low bytes of `n`, least significant first.
pub(crate) fn push_le(out: &mut Vec<u8>, n: u64, k: u64)
    ensures
        final(out)@ == old(out)@ + le_bytes(n as nat, k as nat),
    decreases k,
{
    let ghost start = out@;
    if k > 0 {
        out.push((n % 256) as u8);
        push_le(out, n / 256, k - 1);
        assert(out@ =~= start + le_bytes(n as nat, k as nat));
    } else {
        assert(out@ =~= start + le_bytes(n as nat, k as nat));
    }
}

/// Reads `k` bytes of `b` from `from` as a little-endian number.
fn read_le(b: &[u8], from: usize, k: usize) -> (r: u64)
    requires
        k <= 8,
        from + k <= b@.len(),
    ensures
        r as nat == le_value(b@.subrange(from as int, from + k)),
    decreases k,
{
    if k == 0 {
        0
    } else {
        let len = b.len();
        assert(from < len);
        let rest = read_le(b, from + 1, k - 1);
        let ghost s = b@.subrange(from as int, from + k);
        assert(s.subrange(1, s.len() as int) =~= b@.subrange(from + 1, from + k));
        proof {
            lemma_le_value_bytes(s.subrange(1, s.len() as int));
            lemma_pow256_8();
            let p = pow256((k - 1) as nat);
            if k - 1 < 8 {
                assert(pow256((k - 1) as nat) <= pow256(7)) by {
                    reveal_with_fuel(pow256, 9);
                }
            }
            assert(rest as nat * 256 + 255 < 0x1_0000_0000_0000_0000) by {
                reveal_with_fuel(pow256, 9);
            }
        }
        b[from] as u64 + 256 * rest
    }
}

/// A text field: its length in 8 bytes, then its bytes.
pub open spec fn text_field(t: Seq<u8>) -> Seq<u8> {
    le_bytes(t.len(), 8) + t
}

pub open spec fn tag(n: nat) -> Seq<u8> {
    le_bytes(n, 4)
}

pub open spec fn request_body(m: RequestModel) -> Seq<u8> {
    match m {
        RequestModel::Helo => tag(0),
        RequestModel::RegisterUnit => tag(1),
        RequestModel::UnitStartExecutable(id, t) => tag(2) + id + text_field(t),
        RequestModel::ProtocolError => tag(3),
    }
}

pub open spec fn reply_body(m: ReplyModel) -> Seq<u8> {
    match m {
        ReplyModel::Helo(t) => tag(0) + text_field(t),
        ReplyModel::UnitRegistered(id) => tag(1) + id,
    }
}

/// A body with its length in front.
pub open spec fn framed(body: Seq<u8>) -> Seq<u8> {
    le_bytes(body.len(), 4) + body
}

/// The body that the frame `f` carries: present when its length is no more
/// than [`MAX_BODY`] and agrees with the header.
pub open spec fn frame_body(f: Seq<u8>) -> Option<Seq<u8>> {
    if f.len() >= 4 && le_value(f.subrange(0, 4)) == f.len() - 4 && f.len() - 4 <= MAX_BODY {
        Some(f.subrange(4, f.len() as int))
    } else {
        None
    }
}

/// A text field at the front of `s` that is all of `s`, with valid UTF-8.
pub open spec fn text_of(s: Seq<u8>) -> Option<Seq<u8>> {
    if s.len() >= 8 && le_value(s.subrange(0, 8)) == s.len() - 8 && valid_utf8(
        s.subrange(8, s.len() as int),
    ) {
        Some(s.subrange(8, s.len() as int))
    } else {
        None
    }
}

pub open spec fn request_of_body(b: Seq<u8>) -> Option<RequestModel> {
    if b.len() < 4 {
        None
    } else {
        let t = le_value(b.subrange(0, 4));
        let rest = b.subrange(4, b.len() as int);
        if t == 0 && rest.len() == 0 {
            Some(RequestModel::Helo)
        } else if t == 1 && rest.len() == 0 {
            Some(RequestModel::RegisterUnit)
        } else if t == 3 && rest.len() == 0 {
            Some(RequestModel::ProtocolError)
        } else if t == 2 && rest.len() >= 16 {
            match text_of(rest.subrange(16, rest.len() as int)) {
                Some(x) => Some(RequestModel::UnitStartExecutable(rest.subrange(0, 16), x)),
                None => None,
            }
        } else {
            None
        }
    }
}

pub open spec fn reply_of_body(b: Seq<u8>) -> Option<ReplyModel> {
    if b.len() < 4 {
        None
    } else {
        let t = le_value(b.subrange(0, 4));
        let rest = b.subrange(4, b.len() as int);
        if t == 0 {
            match text_of(rest) {
                Some(x) => Some(ReplyModel::Helo(x)),
                None => None,
            }
        } else if t == 1 && rest.len() == 16 {
            Some(ReplyModel::UnitRegistered(rest))
        } else {
            None
        }
    }
}

/// The request that the frame `f` holds, if it holds one.
pub open spec fn request_of_frame(f: Seq<u8>) -> Option<RequestModel> {
    match frame_body(f) {
        Some(b) => request_of_body(b),
        None => None,
    }
}

/// The reply that the frame `f` holds, if it holds one.
pub open spec fn reply_of_frame(f: Seq<u8>) -> Option<ReplyModel> {
    match frame_body(f) {
        Some(b) => reply_of_body(b),
        None => None,
    }
}

/// The frame of a request, when its body fits.
pub open spec fn request_frame(m: RequestModel) -> Option<Seq<u8>> {
    if request_body(m).len() <= MAX_BODY {
        Some(framed(request_body(m)))
    } else {
        None
    }
}

/// The frame of a reply, when its body fits.
pub open spec fn reply_frame(m: ReplyModel) -> Option<Seq<u8>> {
    if reply_body(m).len() <= MAX_BODY {
        Some(framed(reply_body(m)))
    } else {
        None
    }
}

fn push_id(out: &mut Vec<u8>, id: &UnitId)
    ensures
        final(out)@ == old(out)@ + id@,
{
    let ghost start = out@;
    let mut i: usize = 0;
    while i < 16
        invariant
            i <= 16,
            id@.len() == 16,
            out@ == start + id@.subrange(0, i as int),
        decreases 16 - i,
    {
        out.push(id.bytes[i]);
        i = i + 1;
        assert(out@ =~= start + id@.subrange(0, i as int));
    }
    assert(id@.subrange(0, 16) =~= id@);
}

fn push_text(out: &mut Vec<u8>, s: &String)
    ensures
        final(out)@ == old(out)@ + text_field(encode_utf8(s@)),
{
    let ghost start = out@;
    let b = s.as_str().as_bytes();
    push_le(out, b.len() as u64, 8);
    append_bytes(out, b);
    assert(out@ =~= start + text_field(encode_utf8(s@)));
}

/// Puts the length header in front of `body`, unless it is too long.
pub(crate) fn frame(body: Vec<u8>) -> (r: Option<Vec<u8>>)
    ensures
        body@.len() <= MAX_BODY ==> (r matches Some(f) && f@ == framed(body@)),
        body@.len() > MAX_BODY ==> r is None,
{
    if body.len() > MAX_BODY {
        return None;
    }
    let mut out: Vec<u8> = Vec::new();
    push_le(&mut out, body.len() as u64, 4);
    append_bytes(&mut out, body.as_slice());
    Some(out)
}

/// Encodes a request as a frame; `None` when its body would be longer than
/// [`MAX_BODY`].
pub fn encode_request(req: &Request) -> (r: Option<Vec<u8>>)
    ensures
        match r {
            Some(f) => request_frame(req@) == Some(f@),
            None => request_frame(req@) is None,
        },
{
    let mut body: Vec<u8> = Vec::new();
    match req {
        Request::Helo => push_le(&mut body, 0, 4),
        Request::RegisterUnit => push_le(&mut body, 1, 4),
        Request::UnitStartExecutable(id, s) => {
            push_le(&mut body, 2, 4);
            push_id(&mut body, id);
            push_text(&mut body, s);
        },
        Request::ProtocolError => push_le(&mut body, 3, 4),
    }
    assert(body@ =~= request_body(req@));
    frame(body)
}

/// Encodes a reply as a frame; `None` when its body would be longer than
/// [`MAX_BODY`].
pub fn encode_reply(rep: &Reply) -> (r: Option<Vec<u8>>)
    ensures
        match r {
            Some(f) => reply_frame(rep@) == Some(f@),
            None => reply_frame(rep@) is None,
        },
{
    let mut body: Vec<u8> = Vec::new();
    match rep {
        Reply::Helo(s) => {
            push_le(&mut body, 0, 4);
            push_text(&mut body, s);
        },
        Reply::UnitRegistered(id) => {
            push_le(&mut body, 1, 4);
            push_id(&mut body, id);
        },
    }
    assert(body@ =~= reply_body(rep@));
    frame(body)
}

/// Whether `f` is a whole frame; its body then starts after the header.
fn check_frame(f: &[u8]) -> (r: bool)
    ensures
        r == (frame_body(f@) is Some),
        r ==> frame_body(f@) == Some(f@.subrange(4, f@.len() as int)),
{
    if f.len() < 4 {
        return false;
    }
    let n = read_le(f, 0, 4);
    n == (f.len() - 4) as u64 && f.len() - 4 <= MAX_BODY
}

/// Reads 16 bytes of `f` from `from` as a unit id.
fn read_id(f: &[u8], from: usize) -> (r: UnitId)
    requires
        from + 16 <= f@.len(),
    ensures
        r@ == f@.subrange(from as int, from + 16),
{
    let mut bytes: [u8; 16] = [0u8; 16];
    let mut i: usize = 0;
    let len = f.len();
    while i < 16
        invariant
            i <= 16,
            len == f@.len(),
            from + 16 <= f@.len(),
            bytes@.len() == 16,
            forall|j: int| 0 <= j < i ==> bytes@[j] == f@[from + j],
        decreases 16 - i,
    {
        bytes[i] = f[from + i];
        i = i + 1;
    }
    let r = UnitId { bytes };
    assert(r@ =~= f@.subrange(from as int, from + 16));
    r
}

/// Reads the text field that runs from `from` to the end of `f`.
fn read_text(f: &[u8], from: usize) -> (r: Option<String>)
    requires
        from <= f@.len(),
    ensures
        match r {
            Some(s) => text_of(f@.subrange(from as int, f@.len() as int)) == Some(
                encode_utf8(s@),
            ),
            None => text_of(f@.subrange(from as int, f@.len() as int)) is None,
        },
{
    let ghost s = f@.subrange(from as int, f@.len() as int);
    if f.len() - from < 8 {
        return None;
    }
    let n = read_le(f, from, 8);
    assert(s.subrange(0, 8) =~= f@.subrange(from as int, from + 8));
    if n != (f.len() - from - 8) as u64 {
        return None;
    }
    let t = slice_subrange(f, from + 8, f.len());
    assert(t@ =~= s.subrange(8, s.len() as int));
    match utf8_text(t) {
        Some(x) => Some(x.to_owned()),
        None => None,
    }
}

/// Decodes a frame that holds a request; `None` when it holds none.
pub fn decode_request_frame(f: &[u8]) -> (r: Option<Request>)
    ensures
        match r {
            Some(q) => request_of_frame(f@) == Some(q@),
            None => request_of_frame(f@) is None,
        },
{
    if !check_frame(f) {
        return None;
    }
    let ghost b = f@.subrange(4, f@.len() as int);
    if f.len() < 8 {
        return None;
    }
    let t = read_le(f, 4, 4);
    assert(b.subrange(0, 4) =~= f@.subrange(4, 8));
    let ghost rest = b.subrange(4, b.len() as int);
    assert(rest =~= f@.subrange(8, f@.len() as int));
    let rest_len = f.len() - 8;
    if t == 0 && rest_len == 0 {
        Some(Request::Helo)
    } else if t == 1 && rest_len == 0 {
        Some(Request::RegisterUnit)
    } else if t == 3 && rest_len == 0 {
        Some(Request::ProtocolError)
    } else if t == 2 && rest_len >= 16 {
        let id = read_id(f, 8);
        assert(rest.subrange(0, 16) =~= f@.subrange(8, 24));
        assert(rest.subrange(16, rest.len() as int) =~= f@.subrange(24, f@.len() as int));
        match read_text(f, 24) {
            Some(s) => Some(Request::UnitStartExecutable(id, s)),
            None => None,
        }
    } else {
        None
    }
}

/// Decodes a frame from a slave: a frame that holds no request reads as
/// [`Request::ProtocolError`].
pub fn decode_request(f: &[u8]) -> (r: Request)
    ensures
        r@ == match request_of_frame(f@) {
            Some(m) => m,
            None => RequestModel::ProtocolError,
        },
{
    match decode_request_frame(f) {
        Some(q) => q,
        None => Request::ProtocolError,
    }
}

/// Decodes a frame that holds a reply; `None` when it holds none.
pub fn decode_reply(f: &[u8]) -> (r: Option<Reply>)
    ensures
        match r {
            Some(q) => reply_of_frame(f@) == Some(q@),
            None => reply_of_frame(f@) is None,
        },
{
    if !check_frame(f) {
        return None;
    }
    let ghost b = f@.subrange(4, f@.len() as int);
    if f.len() < 8 {
        return None;
    }
    let t = read_le(f, 4, 4);
    assert(b.subrange(0, 4) =~= f@.subrange(4, 8));
    let ghost rest = b.subrange(4, b.len() as int);
    assert(rest =~= f@.subrange(8, f@.len() as int));
    if t == 0 {
        match read_text(f, 8) {
            Some(s) => Some(Reply::Helo(s)),
            None => None,
        }
    } else if t == 1 && f.len() - 8 == 16 {
        let id = read_id(f, 8);
        Some(Reply::UnitRegistered(id))
    } else {
        None
    }
}

/// The body length that a frame header announces; `None` when it is over
/// [`MAX_BODY`]. A reader takes the 4 header bytes, then that many more.
pub fn body_length(header: &[u8]) -> (r: Option<usize>)
    requires
        header@.len() == 4,
    ensures
        match r {
            Some(n) => n == le_value(header@) && n <= MAX_BODY,
            None => le_value(header@) > MAX_BODY,
        },
{
    let n = read_le(header, 0, 4);
    assert(header@.subrange(0, 4) =~= header@);
    if n > MAX_BODY as u64 {
        None
    } else {
        Some(n as usize)
    }
}

/// The model of a request that a `Request` value can have: unit ids of 16
/// bytes and texts of valid UTF-8.
pub open spec fn request_well_formed(m: RequestModel) -> bool {
    m matches RequestModel::UnitStartExecutable(id, t) ==> id.len() == 16 && valid_utf8(t)
}

pub open spec fn reply_well_formed(m: ReplyModel) -> bool {
    &&& m matches ReplyModel::Helo(t) ==> valid_utf8(t)
    &&& m matches ReplyModel::UnitRegistered(id) ==> id.len() == 16
}

proof fn lemma_frame_parts(f: Seq<u8>)
    requires
        frame_body(f) is Some,
    ensures
        f =~= framed(f.subrange(4, f.len() as int)),
{
    lemma_le_value_bytes(f.subrange(0, 4));
}

proof fn lemma_text_parts(s: Seq<u8>)
    requires
        text_of(s) is Some,
    ensures
        s =~= text_field(text_of(s)->Some_0),
{
    lemma_le_value_bytes(s.subrange(0, 8));
}

proof fn lemma_framed_parts(body: Seq<u8>)
    requires
        body.len() <= MAX_BODY,
    ensures
        frame_body(framed(body)) == Some(body),
{
    lemma_pow256_8();
    lemma_le_bytes_value(body.len(), 4);
    let f = framed(body);
    assert(f.subrange(0, 4) =~= le_bytes(body.len(), 4));
    assert(f.subrange(4, f.len() as int) =~= body);
}

proof fn lemma_text_field_parts(t: Seq<u8>)
    requires
        t.len() <= MAX_BODY,
        valid_utf8(t),
    ensures
        text_of(text_field(t)) == Some(t),
{
    lemma_pow256_8();
    lemma_le_bytes_value(t.len(), 8);
    let s = text_field(t);
    assert(s.subrange(0, 8) =~= le_bytes(t.len(), 8));
    assert(s.subrange(8, s.len() as int) =~= t);
}

proof fn lemma_tag(n: nat)
    requires
        n < 4,
    ensures
        tag(n).len() == 4,
        le_value(tag(n)) == n,
{
    lemma_pow256_8();
    lemma_le_bytes_value(n, 4);
}

/// Re-encoding what a frame decodes to as a request gives back the same
/// frame, byte for byte.
pub proof fn lemma_request_frame_round_trip(f: Seq<u8>)
    requires
        request_of_frame(f) is Some,
    ensures
        request_frame(request_of_frame(f)->Some_0) == Some(f),
{
    let b = f.subrange(4, f.len() as int);
    lemma_frame_parts(f);
    lemma_le_value_bytes(b.subrange(0, 4));
    let m = request_of_frame(f)->Some_0;
    let rest = b.subrange(4, b.len() as int);
    assert(b =~= b.subrange(0, 4) + rest);
    match m {
        RequestModel::UnitStartExecutable(id, x) => {
            let s = rest.subrange(16, rest.len() as int);
            lemma_text_parts(s);
            assert(rest =~= id + s);
            assert(request_body(m) =~= b);
        },
        _ => {
            assert(request_body(m) =~= b);
        },
    }
}

/// Decoding the frame of a well-formed request gives back that request.
pub proof fn lemma_request_encode_decode(m: RequestModel)
    requires
        request_well_formed(m),
        request_frame(m) is Some,
    ensures
        request_of_frame(request_frame(m)->Some_0) == Some(m),
{
    let body = request_body(m);
    lemma_framed_parts(body);
    let rest = body.subrange(4, body.len() as int);
    match m {
        RequestModel::Helo => {
            lemma_tag(0);
            assert(body.subrange(0, 4) =~= body);
        },
        RequestModel::RegisterUnit => {
            lemma_tag(1);
            assert(body.subrange(0, 4) =~= body);
        },
        RequestModel::ProtocolError => {
            lemma_tag(3);
            assert(body.subrange(0, 4) =~= body);
        },
        RequestModel::UnitStartExecutable(id, t) => {
            lemma_tag(2);
            assert(body.subrange(0, 4) =~= tag(2));
            assert(rest =~= id + text_field(t));
            assert(rest.subrange(0, 16) =~= id);
            assert(rest.subrange(16, rest.len() as int) =~= text_field(t));
            lemma_text_field_parts(t);
        },
    }
}

/// Re-encoding what a frame decodes to as a reply gives back the same frame.
pub proof fn lemma_reply_frame_round_trip(f: Seq<u8>)
    requires
        reply_of_frame(f) is Some,
    ensures
        reply_frame(reply_of_frame(f)->Some_0) == Some(f),
{
    let b = f.subrange(4, f.len() as int);
    lemma_frame_parts(f);
    lemma_le_value_bytes(b.subrange(0, 4));
    let m = reply_of_frame(f)->Some_0;
    let rest = b.subrange(4, b.len() as int);
    assert(b =~= b.subrange(0, 4) + rest);
    match m {
        ReplyModel::Helo(x) => {
            lemma_text_parts(rest);
            assert(reply_body(m) =~= b);
        },
        ReplyModel::UnitRegistered(id) => {
            assert(reply_body(m) =~= b);
        },
    }
}

/// Decoding the frame of a well-formed reply gives back that reply.
pub proof fn lemma_reply_encode_decode(m: ReplyModel)
    requires
        reply_well_formed(m),
        reply_frame(m) is Some,
    ensures
        reply_of_frame(reply_frame(m)->Some_0) == Some(m),
{
    let body = reply_body(m);
    lemma_framed_parts(body);
    let rest = body.subrange(4, body.len() as int);
    match m {
        ReplyModel::Helo(t) => {
            lemma_tag(0);
            assert(body.subrange(0, 4) =~= tag(0));
            assert(rest =~= text_field(t));
            lemma_text_field_parts(t);
        },
        ReplyModel::UnitRegistered(id) => {
            lemma_tag(1);
            assert(body.subrange(0, 4) =~= tag(1));
            assert(rest =~= id);
        },
    }
}

} // verus!
