//! The wire format: frames, request argument vectors and response frames.
//!
//! All integers are four-byte little-endian unsigned values.
use vstd::prelude::*;
use vstd::utf8::{decode_utf8, encode_utf8, valid_utf8};
use vstd::string::StringSliceAdditionalSpecFns;

verus! {

/// Largest payload a frame may declare.
pub const MAX_MSG_SIZE: usize = 4096;

/// Size of the length header in front of every frame.
pub const HEADER_LEN: usize = 4;

/// Largest number of arguments a request may carry.
pub const MAX_ARGS: usize = 1024;

/// Size of every fixed-width integer field.
pub const LEN_SIZE: usize = 4;

/// The little-endian value of the four bytes of `d` starting at `pos`.
pub open spec fn le_u32_at(d: Seq<u8>, pos: int) -> int {
    d[pos] as int + d[pos + 1] as int * 256 + d[pos + 2] as int * 65536 + d[pos + 3] as int
        * 16777216
}

/// The four little-endian bytes of `v`.
pub open spec fn le_bytes(v: u32) -> Seq<u8> {
    seq![
        (v % 256) as u8,
        ((v / 256) % 256) as u8,
        ((v / 65536) % 256) as u8,
        ((v / 16777216) % 256) as u8,
    ]
}

/// Reading back the four bytes of `v` gives `v`.
pub proof fn lemma_le_bytes_round_trip(v: u32)
    ensures
        le_bytes(v).len() == 4,
        le_u32_at(le_bytes(v), 0) == v,
{
    let b = le_bytes(v);
    assert(b[0] as int == v % 256);
    assert(b[1] as int == (v / 256) % 256);
    assert(b[2] as int == (v / 65536) % 256);
    assert(b[3] as int == (v / 16777216) % 256);
    assert((v % 256) + ((v / 256) % 256) * 256 + ((v / 65536) % 256) * 65536 + ((v / 16777216)
        % 256) * 16777216 == v) by (nonlinear_arith)
        requires
            v <= 0xffff_ffff,
    ;
}

/// Reads the little-endian integer at `pos`, or `None` when fewer than four
/// bytes are left there.
pub fn read_u32_le(data: &[u8], pos: usize) -> (r: Option<u32>)
    ensures
        r.is_some() <==> pos + LEN_SIZE <= data@.len(),
        r.is_some() ==> r.unwrap() as int == le_u32_at(data@, pos as int),
{
    if pos > data.len() || data.len() - pos < LEN_SIZE {
        return None;
    }
    let v: u32 = data[pos] as u32 + (data[pos + 1] as u32) * 256 + (data[pos + 2] as u32) * 65536
        + (data[pos + 3] as u32) * 16777216;
    Some(v)
}

/// Appends the four little-endian bytes of `v` to `out`.
pub fn push_u32_le(out: &mut Vec<u8>, v: u32)
    ensures
        final(out)@ == old(out)@ + le_bytes(v),
{
    out.push((v % 256) as u8);
    out.push(((v / 256) % 256) as u8);
    out.push(((v / 65536) % 256) as u8);
    out.push(((v / 16777216) % 256) as u8);
    assert(final(out)@ =~= old(out)@ + le_bytes(v));
}

/// The declared argument count exceeds `MAX_ARGS`.
#[derive(Debug, Clone, Copy, PartialEq, Eq, Structural)]
pub struct TooManyArgsError;

/// Bytes remain after the declared number of arguments.
#[derive(Debug, Clone, Copy, PartialEq, Eq, Structural)]
pub struct TrailingGarbageError;

/// An argument would end at `last_position`, past the declared `given_len`.
#[derive(Debug, Clone, Copy, PartialEq, Eq, Structural)]
pub struct ExcessiveDataError {
    pub last_position: u64,
    pub given_len: u64,
}

/// A well-formed argument vector that names no known command.
#[derive(Debug, Clone, Copy, PartialEq, Eq, Structural)]
pub struct InvalidCmd;

/// Why a request payload was refused.
#[derive(Debug, Clone, Copy, PartialEq, Eq, Structural)]
pub enum ParseError {
    /// A fixed-width integer field, or an argument's bytes, lie past the end
    /// of the available data.
    FramingError,
    TooManyArgsError(TooManyArgsError),
    TrailingGarbageError(TrailingGarbageError),
    ExcessiveDataError(ExcessiveDataError),
    /// An argument's bytes are not UTF-8.
    InvalidUtf8,
    InvalidCmd(InvalidCmd),
}

/// Relies on `std::str::from_utf8`: it accepts exactly the UTF-8 byte
/// sequences, and views the same bytes as a string.
#[verifier::external_body]
fn str_from_utf8<'a>(b: &'a [u8]) -> (r: Option<&'a str>)
    ensures
        r.is_some() ==> r.unwrap().spec_bytes() == b@,
        r.is_none() ==> !valid_utf8(b@),
{
    std::str::from_utf8(b).ok()
}

/// Equality of two strings, by their bytes.
pub fn str_eq(a: &str, b: &str) -> (r: bool)
    ensures
        r == (a@ == b@),
{
    let x = a.as_bytes();
    let y = b.as_bytes();
    proof {
        vstd::utf8::encode_utf8_decode_utf8(a@);
        vstd::utf8::encode_utf8_decode_utf8(b@);
    }
    if x.len() != y.len() {
        return false;
    }
    let mut i: usize = 0;
    while i < x.len()
        invariant
            x@ == a.spec_bytes(),
            y@ == b.spec_bytes(),
            x@.len() == y@.len(),
            i <= x@.len(),
            forall|j: int| 0 <= j < i ==> x@[j] == y@[j],
        decreases x@.len() - i,
    {
        if x[i] != y[i] {
            return false;
        }
        i = i + 1;
    }
    assert(x@ =~= y@);
    true
}

/// The arguments from the `n` entries starting at `pos`, each one
/// `[length][bytes]`, within a frame of declared length `total`.
pub open spec fn parse_entries(d: Seq<u8>, total: int, pos: int, n: nat) -> Result<
    Seq<Seq<char>>,
    ParseError,
>
    decreases n,
{
    if n == 0 {
        if pos == total {
            Ok(seq![])
        } else {
            Err(ParseError::TrailingGarbageError(TrailingGarbageError))
        }
    } else if pos + LEN_SIZE > d.len() {
        Err(ParseError::FramingError)
    } else {
        let end = pos + LEN_SIZE + le_u32_at(d, pos);
        if end > total {
            Err(
                ParseError::ExcessiveDataError(
                    ExcessiveDataError { last_position: end as u64, given_len: total as u64 },
                ),
            )
        } else if end > d.len() {
            Err(ParseError::FramingError)
        } else if !valid_utf8(d.subrange(pos + LEN_SIZE, end)) {
            Err(ParseError::InvalidUtf8)
        } else {
            match parse_entries(d, total, end, (n - 1) as nat) {
                Ok(rest) => Ok(seq![decode_utf8(d.subrange(pos + LEN_SIZE, end))] + rest),
                Err(e) => Err(e),
            }
        }
    }
}

/// The argument vector of a request payload `d` whose frame declared
/// `total` bytes: a count, then that many entries.
pub open spec fn parse_spec(d: Seq<u8>, total: int) -> Result<Seq<Seq<char>>, ParseError> {
    if d.len() < LEN_SIZE {
        Err(ParseError::FramingError)
    } else if le_u32_at(d, 0) > MAX_ARGS {
        Err(ParseError::TooManyArgsError(TooManyArgsError))
    } else {
        parse_entries(d, total, LEN_SIZE as int, le_u32_at(d, 0) as nat)
    }
}

/// `r` with `done` in front of its arguments, when it holds any.
pub open spec fn prepend_args(done: Seq<Seq<char>>, r: Result<Seq<Seq<char>>, ParseError>) -> Result<
    Seq<Seq<char>>,
    ParseError,
> {
    match r {
        Ok(rest) => Ok(done + rest),
        Err(e) => Err(e),
    }
}

/// The string views of a sequence of borrowed strings.
pub open spec fn views(s: Seq<&str>) -> Seq<Seq<char>> {
    s.map_values(|x: &str| x@)
}

/// Decodes the argument vector of a request payload, appending each argument,
/// borrowed from `data`, to `out`.
pub fn parse_request<'a>(data: &'a [u8], total_len: usize, out: &mut Vec<&'a str>) -> (r: Result<
    (),
    ParseError,
>)
    requires
        total_len <= u32::MAX,
    ensures
        match parse_spec(data@, total_len as int) {
            Ok(args) => r is Ok && views(final(out)@) == views(old(out)@) + args,
            Err(e) => r == Err::<(), ParseError>(e),
        },
        old(out)@.is_prefix_of(final(out)@),
{
    let nstr = match read_u32_le(data, 0) {
        Some(v) => v,
        None => return Err(ParseError::FramingError),
    };
    if nstr as usize > MAX_ARGS {
        return Err(ParseError::TooManyArgsError(TooManyArgsError));
    }
    let ghost start = out@;
    let mut pos: usize = LEN_SIZE;
    let mut i: u32 = 0;
    while i < nstr
        invariant
            i <= nstr,
            nstr <= MAX_ARGS,
            nstr as int == le_u32_at(data@, 0),
            data@.len() >= LEN_SIZE,
            total_len <= u32::MAX,
            pos <= data@.len(),
            pos == LEN_SIZE || pos <= total_len,
            start == old(out)@,
            start.is_prefix_of(out@),
            parse_spec(data@, total_len as int) == prepend_args(
                views(out@).subrange(start.len() as int, out@.len() as int),
                parse_entries(data@, total_len as int, pos as int, (nstr - i) as nat),
            ),
            views(out@).subrange(0, start.len() as int) == views(start),
        decreases nstr - i,
    {
        let ghost n = (nstr - i) as nat;
        assert(n > 0);
        let len = match read_u32_le(data, pos) {
            Some(v) => v,
            None => return Err(ParseError::FramingError),
        };
        let end: u64 = pos as u64 + LEN_SIZE as u64 + len as u64;
        if end > total_len as u64 {
            return Err(
                ParseError::ExcessiveDataError(
                    ExcessiveDataError { last_position: end, given_len: total_len as u64 },
                ),
            );
        }
        let end = end as usize;
        if end > data.len() {
            return Err(ParseError::FramingError);
        }
        let piece = &data[pos + LEN_SIZE..end];
        let s = match str_from_utf8(piece) {
            Some(s) => s,
            None => return Err(ParseError::InvalidUtf8),
        };
        proof {
            vstd::utf8::encode_utf8_decode_utf8(s@);
            vstd::utf8::encode_utf8_valid_utf8(s@);
        }
        assert(piece@ =~= data@.subrange(pos + LEN_SIZE, end as int));
        let ghost prev = out@;
        out.push(s);
        proof {
            assert(views(out@) =~= views(prev).push(s@));
            assert(views(out@).subrange(0, start.len() as int) =~= views(prev).subrange(
                0,
                start.len() as int,
            ));
            assert(views(out@).subrange(start.len() as int, out@.len() as int) =~= views(
                prev,
            ).subrange(start.len() as int, prev.len() as int).push(s@));
            let done = views(prev).subrange(start.len() as int, prev.len() as int);
            let x = decode_utf8(data@.subrange(pos + LEN_SIZE, end as int));
            assert(s@ == x);
            let rest = parse_entries(data@, total_len as int, end as int, (n - 1) as nat);
            assert(parse_entries(data@, total_len as int, pos as int, n) == match rest {
                Ok(r) => Ok(seq![x] + r),
                Err(e) => Err(e),
            });
            if let Ok(r) = rest {
                assert(done + (seq![x] + r) =~= done.push(x) + r);
            }
            assert(prev.is_prefix_of(out@));
        }
        pos = end;
        i = i + 1;
    }
    if pos != total_len {
        return Err(ParseError::TrailingGarbageError(TrailingGarbageError));
    }
    proof {
        assert(views(out@) =~= views(out@).subrange(0, start.len() as int) + views(out@).subrange(
            start.len() as int,
            out@.len() as int,
        ));
        assert(views(out@).subrange(start.len() as int, out@.len() as int) + seq![] =~= views(
            out@,
        ).subrange(start.len() as int, out@.len() as int));
    }
    Ok(())
}

/// The status carried by every response frame.
#[derive(Debug, Clone, Copy, PartialEq, Eq, Structural)]
pub enum ResponseCode {
    Success,
    Error,
    Nonexistent,
}

/// The integer that encodes each response code on the wire.
pub open spec fn code_value(c: ResponseCode) -> u32 {
    match c {
        ResponseCode::Success => 0,
        ResponseCode::Error => 1,
        ResponseCode::Nonexistent => 2,
    }
}

impl ResponseCode {
    /// The wire encoding: `Success` is 0, `Error` is 1, `Nonexistent` is 2.
    pub fn to_u32(&self) -> (r: u32)
        ensures
            r == code_value(*self),
    {
        match self {
            ResponseCode::Success => 0,
            ResponseCode::Error => 1,
            ResponseCode::Nonexistent => 2,
        }
    }

    /// The response code that `v` encodes, if any.
    pub fn from_u32(v: u32) -> (r: Option<ResponseCode>)
        ensures
            r.is_some() <==> v <= 2,
            r.is_some() ==> code_value(r.unwrap()) == v,
    {
        if v == 0 {
            Some(ResponseCode::Success)
        } else if v == 1 {
            Some(ResponseCode::Error)
        } else if v == 2 {
            Some(ResponseCode::Nonexistent)
        } else {
            None
        }
    }
}

pub struct GetCmd<'a> {
    pub key: &'a str,
}

pub struct SetCmd<'a> {
    pub key: &'a str,
    pub value: &'a str,
}

pub struct DelCmd<'a> {
    pub key: &'a str,
}

/// A request, its strings borrowed from the request payload.
pub enum Command<'a> {
    Get(GetCmd<'a>),
    Put(SetCmd<'a>),
    Del(DelCmd<'a>),
}

impl<'a> Command<'a> {
    /// The argument vector that names this command.
    pub open spec fn args(&self) -> Seq<Seq<char>> {
        match self {
            Command::Get(c) => seq!["get"@, c.key@],
            Command::Put(c) => seq!["set"@, c.key@, c.value@],
            Command::Del(c) => seq!["del"@, c.key@],
        }
    }
}

/// Whether an argument vector names a command: `get key`, `set key value`
/// or `del key`.
pub open spec fn is_command(args: Seq<Seq<char>>) -> bool {
    ||| args.len() == 2 && args[0] == "get"@
    ||| args.len() == 3 && args[0] == "set"@
    ||| args.len() == 2 && args[0] == "del"@
}

/// Decodes a request payload and classifies it as a command.
pub fn to_cmd<'a>(data: &'a [u8], total_len: usize) -> (r: Result<Command<'a>, ParseError>)
    requires
        total_len <= u32::MAX,
    ensures
        match parse_spec(data@, total_len as int) {
            Ok(args) => if is_command(args) {
                r is Ok && r->Ok_0.args() == args
            } else {
                r == Err::<Command, ParseError>(ParseError::InvalidCmd(InvalidCmd))
            },
            Err(e) => r == Err::<Command, ParseError>(e),
        },
{
    let mut parsed: Vec<&'a str> = Vec::new();
    match parse_request(data, total_len, &mut parsed) {
        Ok(()) => {},
        Err(e) => return Err(e),
    }
    assert(views(parsed@) =~= views(Seq::<&str>::empty()) + views(parsed@));
    let ghost args = views(parsed@);
    assert(parsed@.len() == args.len());
    if parsed.len() == 2 && str_eq(parsed[0], "get") {
        let cmd = Command::Get(GetCmd { key: parsed[1] });
        assert(cmd.args() =~= args);
        Ok(cmd)
    } else if parsed.len() == 3 && str_eq(parsed[0], "set") {
        let cmd = Command::Put(SetCmd { key: parsed[1], value: parsed[2] });
        assert(cmd.args() =~= args);
        Ok(cmd)
    } else if parsed.len() == 2 && str_eq(parsed[0], "del") {
        let cmd = Command::Del(DelCmd { key: parsed[1] });
        assert(cmd.args() =~= args);
        Ok(cmd)
    } else {
        Err(ParseError::InvalidCmd(InvalidCmd))
    }
}

/// Every argument decoded from entries that start at `pos` takes at most the
/// bytes between `pos` and the declared end.
pub proof fn lemma_parsed_args_fit(d: Seq<u8>, total: int, pos: int, n: nat)
    requires
        0 <= pos,
        parse_entries(d, total, pos, n) is Ok,
    ensures
        forall|i: int|
            0 <= i < parse_entries(d, total, pos, n)->Ok_0.len() ==> #[trigger] encode_utf8(
                parse_entries(d, total, pos, n)->Ok_0[i],
            ).len() + LEN_SIZE <= total - pos,
    decreases n,
{
    if n > 0 {
        let end = pos + LEN_SIZE + le_u32_at(d, pos);
        assert(pos + LEN_SIZE <= d.len() && end <= d.len() && end <= total);
        let b = d.subrange(pos + LEN_SIZE, end);
        vstd::utf8::decode_utf8_encode_utf8(b);
        lemma_parsed_args_fit(d, total, end, (n - 1) as nat);
        let rest = parse_entries(d, total, end, (n - 1) as nat)->Ok_0;
        let all = parse_entries(d, total, pos, n)->Ok_0;
        assert(all == seq![decode_utf8(b)] + rest);
        assert forall|i: int| 0 <= i < all.len() implies #[trigger] encode_utf8(all[i]).len()
            + LEN_SIZE <= total - pos by {
            if i > 0 {
                assert(all[i] == rest[i - 1]);
                assert(encode_utf8(rest[i - 1]).len() + LEN_SIZE <= total - end);
            } else {
                assert(all[0] == decode_utf8(b));
                assert(b.len() == end - pos - LEN_SIZE);
            }
        }
    }
}

/// One request entry: the length of the argument's bytes, then the bytes.
pub open spec fn entry_bytes(a: Seq<char>) -> Seq<u8> {
    le_bytes(encode_utf8(a).len() as u32) + encode_utf8(a)
}

/// The entries of an argument vector, in order.
pub open spec fn encode_entries(args: Seq<Seq<char>>) -> Seq<u8>
    decreases args.len(),
{
    if args.len() == 0 {
        seq![]
    } else {
        encode_entries(args.drop_last()) + entry_bytes(args.last())
    }
}

/// The request payload for an argument vector: its count, then its entries.
pub open spec fn request_payload(args: Seq<Seq<char>>) -> Seq<u8> {
    le_bytes(args.len() as u32) + encode_entries(args)
}

/// The request frame: the payload's length, then the payload.
pub open spec fn request_frame(args: Seq<Seq<char>>) -> Seq<u8> {
    le_bytes(request_payload(args).len() as u32) + request_payload(args)
}

/// The entries of a non-empty vector start with the first argument's entry.
pub proof fn lemma_entries_front(args: Seq<Seq<char>>)
    requires
        args.len() > 0,
    ensures
        encode_entries(args) == entry_bytes(args[0]) + encode_entries(args.drop_first()),
    decreases args.len(),
{
    if args.len() > 1 {
        lemma_entries_front(args.drop_last());
        assert(args.drop_last().drop_first() =~= args.drop_first().drop_last());
        assert(args.drop_first().last() == args.last());
        assert(args.drop_last()[0] == args[0]);
    } else {
        assert(args.drop_last() =~= Seq::<Seq<char>>::empty());
        assert(args.drop_first() =~= Seq::<Seq<char>>::empty());
    }
}

/// The entries of a prefix of a vector are no longer than the vector's.
pub proof fn lemma_entries_prefix_len(args: Seq<Seq<char>>, i: int)
    requires
        0 <= i <= args.len(),
    ensures
        encode_entries(args.subrange(0, i)).len() <= encode_entries(args).len(),
    decreases args.len() - i,
{
    if i < args.len() {
        lemma_entries_prefix_len(args, i + 1);
        assert(args.subrange(0, i + 1).drop_last() =~= args.subrange(0, i));
    } else {
        assert(args.subrange(0, i) =~= args);
    }
}

/// Entries that follow `p` decode back to the arguments they encode, when
/// the declared length ends with them; bytes `q` after them are refused.
#[verifier::rlimit(40)]
pub proof fn lemma_parse_encoded_entries(p: Seq<u8>, a: Seq<Seq<char>>, q: Seq<u8>)
    requires
        (p + encode_entries(a) + q).len() <= u32::MAX,
    ensures
        parse_entries(
            p + encode_entries(a) + q,
            (p + encode_entries(a) + q).len() as int,
            p.len() as int,
            a.len(),
        ) == if q.len() == 0 {
            Ok::<Seq<Seq<char>>, ParseError>(a)
        } else {
            Err(ParseError::TrailingGarbageError(TrailingGarbageError))
        },
    decreases a.len(),
{
    let d = p + encode_entries(a) + q;
    let pos = p.len() as int;
    if a.len() == 0 {
        assert(d =~= p + q);
        assert(a =~= seq![]);
    } else {
        lemma_entries_front(a);
        let e0 = encode_utf8(a[0]);
        let l = e0.len();
        let rest = a.drop_first();
        let p2 = p + le_bytes(l as u32) + e0;
        assert(d =~= p2 + encode_entries(rest) + q);
        lemma_le_bytes_round_trip(l as u32);
        assert(d.subrange(pos, pos + 4) =~= le_bytes(l as u32));
        assert(le_u32_at(d, pos) == le_u32_at(le_bytes(l as u32), 0));
        let end = pos + LEN_SIZE + l;
        assert(d.subrange(pos + LEN_SIZE, end) =~= e0);
        vstd::utf8::encode_utf8_valid_utf8(a[0]);
        vstd::utf8::encode_utf8_decode_utf8(a[0]);
        lemma_parse_encoded_entries(p2, rest, q);
        assert(p2.len() == end);
        assert(seq![a[0]] + rest =~= a);
    }
}

/// Encoding an argument vector and decoding the payload gives back the same
/// arguments, in the same order.
pub proof fn lemma_request_round_trip(args: Seq<Seq<char>>)
    requires
        args.len() <= MAX_ARGS,
        request_payload(args).len() <= u32::MAX,
    ensures
        parse_spec(request_payload(args), request_payload(args).len() as int) == Ok::<
            Seq<Seq<char>>,
            ParseError,
        >(args),
{
    let d = request_payload(args);
    lemma_le_bytes_round_trip(args.len() as u32);
    assert(le_u32_at(d, 0) == le_u32_at(le_bytes(args.len() as u32), 0));
    lemma_parse_encoded_entries(le_bytes(args.len() as u32), args, seq![]);
    assert(le_bytes(args.len() as u32) + encode_entries(args) + seq![] =~= d);
}

/// A payload with bytes after its declared entries is refused as trailing
/// garbage.
pub proof fn lemma_trailing_garbage(args: Seq<Seq<char>>, extra: Seq<u8>)
    requires
        args.len() <= MAX_ARGS,
        extra.len() > 0,
        (request_payload(args) + extra).len() <= u32::MAX,
    ensures
        parse_spec(request_payload(args) + extra, (request_payload(args) + extra).len() as int)
            == Err::<Seq<Seq<char>>, ParseError>(
            ParseError::TrailingGarbageError(TrailingGarbageError),
        ),
{
    let d = request_payload(args) + extra;
    lemma_le_bytes_round_trip(args.len() as u32);
    assert(le_u32_at(d, 0) == le_u32_at(le_bytes(args.len() as u32), 0));
    lemma_parse_encoded_entries(le_bytes(args.len() as u32), args, extra);
    assert(le_bytes(args.len() as u32) + encode_entries(args) + extra =~= d);
}

/// A count above `MAX_ARGS` is refused before any entry is looked at,
/// whatever follows it.
pub proof fn lemma_too_many_args(d: Seq<u8>, total: int)
    requires
        d.len() >= LEN_SIZE,
        le_u32_at(d, 0) > MAX_ARGS,
    ensures
        parse_spec(d, total) == Err::<Seq<Seq<char>>, ParseError>(
            ParseError::TooManyArgsError(TooManyArgsError),
        ),
{
}

/// An entry, read at the cursor `pos`, whose declared length would end it
/// past the declared total is refused with its end offset and that total.
pub proof fn lemma_excessive_entry(d: Seq<u8>, total: int, pos: int, n: nat)
    requires
        n > 0,
        0 <= pos,
        pos + LEN_SIZE <= d.len(),
        pos + LEN_SIZE + le_u32_at(d, pos) > total,
    ensures
        parse_entries(d, total, pos, n) == Err::<Seq<Seq<char>>, ParseError>(
            ParseError::ExcessiveDataError(
                ExcessiveDataError {
                    last_position: (pos + LEN_SIZE + le_u32_at(d, pos)) as u64,
                    given_len: total as u64,
                },
            ),
        ),
{
}

/// The cursor starts right after the count: a first entry that overruns the
/// declared total is refused with its end offset and that total.
pub proof fn lemma_excessive_first_entry(d: Seq<u8>, total: int)
    requires
        d.len() >= 2 * LEN_SIZE,
        1 <= le_u32_at(d, 0) <= MAX_ARGS,
        2 * LEN_SIZE + le_u32_at(d, LEN_SIZE as int) > total,
    ensures
        parse_spec(d, total) == Err::<Seq<Seq<char>>, ParseError>(
            ParseError::ExcessiveDataError(
                ExcessiveDataError {
                    last_position: (2 * LEN_SIZE + le_u32_at(d, LEN_SIZE as int)) as u64,
                    given_len: total as u64,
                },
            ),
        ),
{
    lemma_excessive_entry(d, total, LEN_SIZE as int, le_u32_at(d, 0) as nat);
}

/// The request frame for `cmd`, or `None` when its payload would be larger
/// than `MAX_MSG_SIZE`.
pub fn encode_request(cmd: &Vec<String>) -> (r: Option<Vec<u8>>)
    ensures
        r.is_some() <==> request_payload(cmd@.map_values(|s: String| s@)).len() <= MAX_MSG_SIZE,
        r.is_some() ==> r.unwrap()@ == request_frame(cmd@.map_values(|s: String| s@)),
{
    let ghost args = cmd@.map_values(|s: String| s@);
    let mut entries: Vec<u8> = Vec::new();
    let mut i: usize = 0;
    while i < cmd.len()
        invariant
            i <= cmd@.len(),
            args == cmd@.map_values(|s: String| s@),
            entries@ == encode_entries(args.subrange(0, i as int)),
            LEN_SIZE + entries@.len() <= MAX_MSG_SIZE,
            LEN_SIZE * i <= entries@.len(),
        decreases cmd@.len() - i,
    {
        let bytes = cmd[i].as_str().as_bytes();
        if entries.len() > MAX_MSG_SIZE - LEN_SIZE - LEN_SIZE || bytes.len() > MAX_MSG_SIZE
            - LEN_SIZE - entries.len() - LEN_SIZE {
            proof {
                assert(args.subrange(0, i + 1).drop_last() =~= args.subrange(0, i as int));
                lemma_entries_prefix_len(args, i + 1);
            }
            return None;
        }
        push_u32_le(&mut entries, bytes.len() as u32);
        let mut j: usize = 0;
        let ghost before = entries@;
        while j < bytes.len()
            invariant
                j <= bytes@.len(),
                entries@ == before + bytes@.subrange(0, j as int),
            decreases bytes@.len() - j,
        {
            entries.push(bytes[j]);
            assert(bytes@.subrange(0, j + 1) =~= bytes@.subrange(0, j as int).push(
                bytes@[j as int],
            ));
            j = j + 1;
        }
        proof {
            assert(bytes@.subrange(0, j as int) =~= bytes@);
            assert(args.subrange(0, i + 1).drop_last() =~= args.subrange(0, i as int));
            assert(args.subrange(0, i + 1).last() == cmd@[i as int]@);
        }
        i = i + 1;
    }
    assert(args.subrange(0, i as int) =~= args);
    let mut out: Vec<u8> = Vec::new();
    push_u32_le(&mut out, (LEN_SIZE + entries.len()) as u32);
    push_u32_le(&mut out, cmd.len() as u32);
    let mut k: usize = 0;
    let ghost head = out@;
    while k < entries.len()
        invariant
            k <= entries@.len(),
            out@ == head + entries@.subrange(0, k as int),
        decreases entries@.len() - k,
    {
        out.push(entries[k]);
        assert(entries@.subrange(0, k + 1) =~= entries@.subrange(0, k as int).push(
            entries@[k as int],
        ));
        k = k + 1;
    }
    proof {
        assert(entries@.subrange(0, k as int) =~= entries@);
        assert(out@ =~= request_frame(args));
    }
    Some(out)
}

/// The payload length that a frame header declares, or `None` when it is
/// shorter than four bytes or declares more than `MAX_MSG_SIZE`.
pub fn frame_len(header: &[u8]) -> (r: Option<usize>)
    ensures
        r.is_some() <==> header@.len() >= HEADER_LEN && le_u32_at(header@, 0) <= MAX_MSG_SIZE,
        r.is_some() ==> r.unwrap() == le_u32_at(header@, 0),
{
    match read_u32_le(header, 0) {
        Some(v) => if v as usize <= MAX_MSG_SIZE {
            Some(v as usize)
        } else {
            None
        },
        None => None,
    }
}

/// Splits a response payload into its code and its text, or `None` when it
/// is too short, the code is unknown or the text is not UTF-8.
pub fn decode_response<'a>(payload: &'a [u8]) -> (r: Option<(ResponseCode, &'a str)>)
    ensures
        r.is_some() <==> payload@.len() >= LEN_SIZE && le_u32_at(payload@, 0) <= 2 && valid_utf8(
            payload@.subrange(LEN_SIZE as int, payload@.len() as int),
        ),
        r.is_some() ==> code_value(r.unwrap().0) == le_u32_at(payload@, 0) && r.unwrap().1@
            == decode_utf8(payload@.subrange(LEN_SIZE as int, payload@.len() as int)),
{
    let v = match read_u32_le(payload, 0) {
        Some(v) => v,
        None => return None,
    };
    let code = match ResponseCode::from_u32(v) {
        Some(c) => c,
        None => return None,
    };
    let text = &payload[LEN_SIZE..payload.len()];
    match str_from_utf8(text) {
        Some(s) => {
            proof {
                vstd::utf8::encode_utf8_decode_utf8(s@);
                vstd::utf8::encode_utf8_valid_utf8(s@);
            }
            Some((code, s))
        },
        None => None,
    }
}

/// The payload of a response: its code, then its text's bytes.
pub open spec fn response_payload(code: ResponseCode, text: Seq<char>) -> Seq<u8> {
    le_bytes(code_value(code)) + encode_utf8(text)
}

/// A response payload splits back into the code and the text it was made of.
pub proof fn lemma_response_round_trip(code: ResponseCode, text: Seq<char>)
    ensures
        response_payload(code, text).len() >= LEN_SIZE,
        le_u32_at(response_payload(code, text), 0) == code_value(code),
        valid_utf8(
            response_payload(code, text).subrange(
                LEN_SIZE as int,
                response_payload(code, text).len() as int,
            ),
        ),
        decode_utf8(
            response_payload(code, text).subrange(
                LEN_SIZE as int,
                response_payload(code, text).len() as int,
            ),
        ) == text,
{
    let p = response_payload(code, text);
    lemma_le_bytes_round_trip(code_value(code));
    assert(le_u32_at(p, 0) == le_u32_at(le_bytes(code_value(code)), 0));
    assert(p.subrange(LEN_SIZE as int, p.len() as int) =~= encode_utf8(text));
    vstd::utf8::encode_utf8_valid_utf8(text);
    vstd::utf8::encode_utf8_decode_utf8(text);
}

} // verus!
