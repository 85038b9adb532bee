//! One peer's protocol state: buffered input, the pending response, and the
//! Reading / Responding / End lifecycle. The socket itself is driven by the
//! caller, which hands over the bytes it read and reports the bytes it sent.
use vstd::prelude::*;
use vstd::string::StringSliceAdditionalSpecFns;
use vstd::utf8::encode_utf8;
use crate::store::{apply_args, dispatch, failure_text, KvStore};
use crate::wire::{
    code_value, is_command, le_bytes, le_u32_at, lemma_parsed_args_fit, parse_spec, push_u32_le,
    read_u32_le, response_payload, to_cmd, ParseError, ResponseCode, HEADER_LEN, LEN_SIZE, MAX_MSG_SIZE,
};

verus! {

/// Capacity of each connection buffer: one header and one largest payload.
pub const BUF_CAP: usize = HEADER_LEN + MAX_MSG_SIZE;

/// Longest value, in bytes, that a response frame can carry.
pub const MAX_VALUE_LEN: usize = MAX_MSG_SIZE - LEN_SIZE;

#[derive(Debug, Clone, Copy, PartialEq, Eq, Structural)]
pub enum ConnectionState {
    Reading,
    Responding,
    End,
}

/// The payload length that the header at the front of `buf` declares.
pub open spec fn declared_len(buf: Seq<u8>) -> int {
    le_u32_at(buf, 0)
}

/// The header at the front of `buf` declares more than the largest payload.
pub open spec fn frame_oversized(buf: Seq<u8>) -> bool {
    buf.len() >= HEADER_LEN && declared_len(buf) > MAX_MSG_SIZE
}

/// A whole frame of acceptable size stands at the front of `buf`.
pub open spec fn frame_complete(buf: Seq<u8>) -> bool {
    &&& buf.len() >= HEADER_LEN
    &&& declared_len(buf) <= MAX_MSG_SIZE
    &&& HEADER_LEN + declared_len(buf) <= buf.len()
}

/// The payload of the frame at the front of `buf`.
pub open spec fn frame_payload(buf: Seq<u8>) -> Seq<u8> {
    buf.subrange(HEADER_LEN as int, HEADER_LEN + declared_len(buf))
}

/// What follows the frame at the front of `buf`.
pub open spec fn after_frame(buf: Seq<u8>) -> Seq<u8> {
    buf.subrange(HEADER_LEN + declared_len(buf), buf.len() as int)
}

/// The answer to one request payload on the map `m`: code, text and new map.
/// A payload that does not decode to a command is answered with an error.
pub open spec fn serve(payload: Seq<u8>, m: Map<Seq<char>, Seq<char>>) -> (
    ResponseCode,
    Seq<char>,
    Map<Seq<char>, Seq<char>>,
) {
    match parse_spec(payload, payload.len() as int) {
        Ok(args) => apply_args(args, m),
        Err(_) => (ResponseCode::Error, failure_text(), m),
    }
}

/// The response frame: the payload's length, then the payload.
pub open spec fn response_frame(code: ResponseCode, text: Seq<char>) -> Seq<u8> {
    le_bytes(response_payload(code, text).len() as u32) + response_payload(code, text)
}

/// Every value fits in one response frame.
pub open spec fn values_fit(m: Map<Seq<char>, Seq<char>>) -> bool {
    forall|k: Seq<char>| #[trigger] m.contains_key(k) ==> encode_utf8(m[k]).len() <= MAX_VALUE_LEN
}

/// A UTF-8 encoding takes at most four bytes per character.
pub proof fn lemma_encode_utf8_len(s: Seq<char>)
    ensures
        encode_utf8(s).len() <= 4 * s.len(),
    decreases s.len(),
{
    if s.len() > 0 {
        lemma_encode_utf8_len(s.drop_first());
        assert(vstd::utf8::encode_scalar(s[0] as u32).len() <= 4);
    }
}

/// Serving a payload of acceptable size keeps every value, and the answer's
/// text, small enough for one response frame.
pub proof fn lemma_serve_keeps_values_fit(payload: Seq<u8>, m: Map<Seq<char>, Seq<char>>)
    requires
        values_fit(m),
        payload.len() <= MAX_MSG_SIZE,
    ensures
        values_fit(serve(payload, m).2),
        encode_utf8(serve(payload, m).1).len() <= MAX_VALUE_LEN,
{
    reveal_strlit("Cannot parse command!");
    lemma_encode_utf8_len(failure_text());
    crate::store::lemma_command_words_differ();
    let total = payload.len() as int;
    if let Ok(args) = parse_spec(payload, total) {
        lemma_parsed_args_fit(payload, total, LEN_SIZE as int, le_u32_at(payload, 0) as nat);
        if args.len() == 3 && args[0] == "set"@ {
            assert(encode_utf8(args[2]).len() + LEN_SIZE <= total - LEN_SIZE);
            let m2 = m.insert(args[1], args[2]);
            assert forall|k: Seq<char>| #[trigger] m2.contains_key(k) implies encode_utf8(m2[k]).len()
                <= MAX_VALUE_LEN by {
                if k != args[1] {
                    assert(m.contains_key(k));
                }
            }
        }
        if args.len() == 2 && args[0] == "del"@ {
            let m2 = m.remove(args[1]);
            assert forall|k: Seq<char>| #[trigger] m2.contains_key(k) implies encode_utf8(m2[k]).len()
                <= MAX_VALUE_LEN by {
                assert(m.contains_key(k));
            }
        }
    }
}

/// `f` is exactly one frame of acceptable size.
pub open spec fn is_frame(f: Seq<u8>) -> bool {
    frame_complete(f) && f.len() == HEADER_LEN + declared_len(f)
}

/// Two whole frames that arrive together are taken one at a time and in
/// order: the first is taken off the front, leaving exactly the second.
pub proof fn lemma_pipelined_frames(f1: Seq<u8>, f2: Seq<u8>)
    requires
        is_frame(f1),
        is_frame(f2),
    ensures
        frame_complete(f1 + f2),
        frame_payload(f1 + f2) == frame_payload(f1),
        after_frame(f1 + f2) == f2,
        frame_complete(f2),
        after_frame(f2) == Seq::<u8>::empty(),
{
    let b = f1 + f2;
    assert(le_u32_at(b, 0) == le_u32_at(f1, 0));
    assert(frame_payload(b) =~= frame_payload(f1));
    assert(after_frame(b) =~= f2);
    assert(after_frame(f2) =~= Seq::<u8>::empty());
}

/// A frame that arrives in pieces is taken only once all of it is there:
/// no proper prefix of it holds a whole frame or ends the connection, and
/// the whole holds exactly one.
pub proof fn lemma_fragmented_frame(f: Seq<u8>, k: int)
    requires
        is_frame(f),
        0 <= k < f.len(),
    ensures
        !frame_complete(f.subrange(0, k)),
        !frame_oversized(f.subrange(0, k)),
        frame_complete(f),
        frame_payload(f) == f.subrange(HEADER_LEN as int, f.len() as int),
        after_frame(f) == Seq::<u8>::empty(),
{
    let p = f.subrange(0, k);
    if k >= HEADER_LEN {
        assert(le_u32_at(p, 0) == le_u32_at(f, 0));
    }
    assert(after_frame(f) =~= Seq::<u8>::empty());
}

pub struct Connection {
    state: ConnectionState,
    read_buf: Vec<u8>,
    write_buf: Vec<u8>,
    write_buf_sent: usize,
}

impl Connection {
    /// The lifecycle state.
    pub closed spec fn state_spec(&self) -> ConnectionState {
        self.state
    }

    /// Bytes received and not yet consumed as a request.
    pub closed spec fn input(&self) -> Seq<u8> {
        self.read_buf@
    }

    /// Bytes of the current response not yet sent.
    pub closed spec fn output(&self) -> Seq<u8> {
        self.write_buf@.subrange(self.write_buf_sent as int, self.write_buf@.len() as int)
    }

    pub closed spec fn wf(&self) -> bool {
        &&& self.read_buf@.len() <= BUF_CAP
        &&& self.write_buf_sent <= self.write_buf@.len()
        &&& self.write_buf@.len() <= BUF_CAP
        &&& self.state == ConnectionState::Reading ==> self.write_buf@.len() == 0
            && self.write_buf_sent == 0
        &&& self.state == ConnectionState::Responding ==> self.write_buf_sent
            < self.write_buf@.len()
    }

    /// A fresh connection: Reading, with both buffers empty.
    pub fn new() -> (r: Connection)
        ensures
            r.wf(),
            r.state_spec() == ConnectionState::Reading,
            r.input() == Seq::<u8>::empty(),
            r.output() == Seq::<u8>::empty(),
    {
        let r = Connection {
            state: ConnectionState::Reading,
            read_buf: Vec::new(),
            write_buf: Vec::new(),
            write_buf_sent: 0,
        };
        assert(r.output() =~= Seq::<u8>::empty());
        r
    }

    pub fn state(&self) -> (r: ConnectionState)
        ensures
            r == self.state_spec(),
    {
        self.state
    }

    /// How many more bytes the input buffer can take.
    pub fn read_capacity(&self) -> (r: usize)
        requires
            self.wf(),
        ensures
            r == BUF_CAP - self.input().len(),
    {
        BUF_CAP - self.read_buf.len()
    }

    /// Number of bytes received and not yet consumed.
    pub fn read_buf_size(&self) -> (r: usize)
        ensures
            r == self.input().len(),
    {
        self.read_buf.len()
    }

    /// Takes in the result of one read: the bytes read, or none at all when
    /// the peer has closed, which ends the connection.
    pub fn receive(&mut self, bytes: &[u8])
        requires
            old(self).wf(),
            old(self).state_spec() == ConnectionState::Reading,
            bytes@.len() <= BUF_CAP - old(self).input().len(),
        ensures
            final(self).wf(),
            final(self).output() == old(self).output(),
            bytes@.len() == 0 ==> final(self).state_spec() == ConnectionState::End
                && final(self).input() == old(self).input(),
            bytes@.len() > 0 ==> final(self).state_spec() == ConnectionState::Reading
                && final(self).input() == old(self).input() + bytes@,
    {
        if bytes.len() == 0 {
            self.state = ConnectionState::End;
            return;
        }
        let mut i: usize = 0;
        while i < bytes.len()
            invariant
                i <= bytes@.len(),
                self.read_buf@ == old(self).read_buf@ + bytes@.subrange(0, i as int),
                self.state == old(self).state,
                self.write_buf == old(self).write_buf,
                self.write_buf_sent == old(self).write_buf_sent,
            decreases bytes@.len() - i,
        {
            self.read_buf.push(bytes[i]);
            assert(bytes@.subrange(0, i + 1) =~= bytes@.subrange(0, i as int).push(bytes@[i as int]));
            i = i + 1;
        }
        assert(bytes@.subrange(0, i as int) =~= bytes@);
    }

    /// Takes one request off the front of the input, if a whole one is there,
    /// runs it on the store and makes its response the pending output.
    ///
    /// Returns whether a request was taken. A header that declares more than
    /// the largest payload ends the connection, as nothing after it can be
    /// framed; an incomplete frame leaves everything as it was.
    pub fn try_one_request(&mut self, kv: &mut KvStore) -> (r: bool)
        requires
            old(self).wf(),
            old(kv).wf(),
            values_fit(old(kv)@),
        ensures
            final(self).wf(),
            final(kv).wf(),
            values_fit(final(kv)@),
            r == (old(self).state_spec() == ConnectionState::Reading && frame_complete(
                old(self).input(),
            )),
            r ==> ({
                let (code, text, m) = serve(frame_payload(old(self).input()), old(kv)@);
                &&& final(kv)@ == m
                &&& final(self).state_spec() == ConnectionState::Responding
                &&& final(self).input() == after_frame(old(self).input())
                &&& final(self).output() == response_frame(code, text)
            }),
            !r ==> final(kv)@ == old(kv)@ && final(self).input() == old(self).input()
                && final(self).output() == old(self).output(),
            !r && old(self).state_spec() == ConnectionState::Reading && frame_oversized(
                old(self).input(),
            ) ==> final(self).state_spec() == ConnectionState::End,
            !r && !(old(self).state_spec() == ConnectionState::Reading && frame_oversized(
                old(self).input(),
            )) ==> final(self).state_spec() == old(self).state_spec(),
    {
        match self.state {
            ConnectionState::Reading => {},
            _ => return false,
        }
        let len = match read_u32_le(self.read_buf.as_slice(), 0) {
            Some(v) => v,
            None => return false,
        };
        if len as usize > MAX_MSG_SIZE {
            self.state = ConnectionState::End;
            return false;
        }
        let len = len as usize;
        if HEADER_LEN + len > self.read_buf.len() {
            return false;
        }
        let ghost input = self.read_buf@;
        let ghost payload = frame_payload(input);
        let (code, text) = {
            let frame = &self.read_buf.as_slice()[HEADER_LEN..HEADER_LEN + len];
            assert(frame@ =~= payload);
            match to_cmd(frame, len) {
                Ok(cmd) => dispatch(&cmd, kv),
                Err(_) => {
                    proof {
                        if let Ok(args) = parse_spec(payload, len as int) {
                            crate::store::lemma_command_words_differ();
                            assert(!is_command(args));
                        }
                    }
                    (ResponseCode::Error, "Cannot parse command!".to_owned())
                },
            }
        };
        proof {
            lemma_serve_keeps_values_fit(payload, old(kv)@);
        }
        let body = text.as_str().as_bytes();
        let mut out: Vec<u8> = Vec::new();
        push_u32_le(&mut out, (body.len() + LEN_SIZE) as u32);
        push_u32_le(&mut out, code.to_u32());
        let mut i: usize = 0;
        while i < body.len()
            invariant
                i <= body@.len(),
                out@ == le_bytes((body@.len() + LEN_SIZE) as u32) + le_bytes(code_value(code))
                    + body@.subrange(0, i as int),
            decreases body@.len() - i,
        {
            out.push(body[i]);
            assert(body@.subrange(0, i + 1) =~= body@.subrange(0, i as int).push(body@[i as int]));
            i = i + 1;
        }
        assert(body@.subrange(0, i as int) =~= body@);
        self.write_buf = out;
        self.write_buf_sent = 0;
        let rest = self.read_buf.split_off(HEADER_LEN + len);
        self.read_buf = rest;
        self.state = ConnectionState::Responding;
        assert(self.output() =~= self.write_buf@);
        assert(self.write_buf@ =~= response_frame(code, text@));
        true
    }

    /// The bytes of the current response that remain to be sent.
    pub fn pending_output(&self) -> (r: &[u8])
        requires
            self.wf(),
        ensures
            r@ == self.output(),
    {
        &self.write_buf.as_slice()[self.write_buf_sent..self.write_buf.len()]
    }

    /// Records that the first `n` pending bytes were sent. Once all are sent
    /// the connection goes back to Reading.
    pub fn on_sent(&mut self, n: usize)
        requires
            old(self).wf(),
            old(self).state_spec() == ConnectionState::Responding,
            n <= old(self).output().len(),
        ensures
            final(self).wf(),
            final(self).input() == old(self).input(),
            n == old(self).output().len() ==> final(self).state_spec() == ConnectionState::Reading
                && final(self).output() == Seq::<u8>::empty(),
            n < old(self).output().len() ==> final(self).state_spec()
                == ConnectionState::Responding && final(self).output() == old(
                self,
            ).output().subrange(n as int, old(self).output().len() as int),
    {
        self.write_buf_sent = self.write_buf_sent + n;
        if self.write_buf_sent == self.write_buf.len() {
            self.state = ConnectionState::Reading;
            self.write_buf_sent = 0;
            self.write_buf = Vec::new();
            assert(self.output() =~= Seq::<u8>::empty());
        } else {
            assert(self.output() =~= old(self).output().subrange(n as int, old(self).output().len() as int));
        }
    }

    /// Ends the connection, as after a transport fault.
    pub fn close(&mut self)
        ensures
            final(self).state_spec() == ConnectionState::End,
            final(self).input() == old(self).input(),
            final(self).output() == old(self).output(),
            old(self).wf() ==> final(self).wf(),
    {
        self.state = ConnectionState::End;
    }
}

} // verus!
