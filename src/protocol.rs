use vstd::prelude::*;
use vstd::utf8::{decode_utf8, encode_utf8, valid_utf8};

use crate::dict::Dict;
use crate::list::str_eq;

verus! {

/// The largest argument count, and the largest argument length, that a request may declare.
pub const MAX_ARGS: usize = 32 << 20;

/// Status of a response: the command succeeded.
pub const RES_OK: i32 = 0;

/// Status of a response: the key is not in the store.
pub const RES_NX: i32 = 1;

/// Status of a response: the command could not be carried out.
pub const RES_ERR: i32 = -1;

/// Why a buffer does not hold a request.
#[derive(Debug, PartialEq, Eq, Structural)]
pub enum ParseError {
    /// The frame is not complete: `want` bytes are needed and the buffer has `got`.
    /// The caller should read more and try again.
    NotEnoughBytes { want: usize, got: usize },
    /// A declared count or length is over `MAX_ARGS`, or an argument is not UTF-8.
    /// The connection should be closed.
    ProtocolError,
}

/// The big-endian 32-bit number in `b` at `at`.
pub open spec fn be_u32(b: Seq<u8>, at: int) -> int {
    b[at] * 16777216 + b[at + 1] * 65536 + b[at + 2] * 256 + b[at + 3]
}

/// The four big-endian bytes of `n`.
pub open spec fn u32_be_bytes(n: u32) -> Seq<u8> {
    seq![(n / 16777216) as u8, ((n / 65536) % 256) as u8, ((n / 256) % 256) as u8, (n % 256) as u8]
}

/// The four big-endian bytes of `n` in two's complement.
pub open spec fn i32_be_bytes(n: i32) -> Seq<u8> {
    u32_be_bytes((if n < 0 { n + 4294967296 } else { n as int }) as u32)
}

/// One argument on the wire: its byte length, then its UTF-8 bytes.
pub open spec fn arg_bytes(a: Seq<char>) -> Seq<u8> {
    u32_be_bytes(encode_utf8(a).len() as u32) + encode_utf8(a)
}

/// The arguments on the wire, one after the other.
pub open spec fn args_bytes(args: Seq<Seq<char>>) -> Seq<u8>
    decreases args.len(),
{
    if args.len() == 0 {
        Seq::empty()
    } else {
        arg_bytes(args[0]) + args_bytes(args.drop_first())
    }
}

/// A whole request: the argument count, then the arguments.
pub open spec fn request_bytes(args: Seq<Seq<char>>) -> Seq<u8> {
    u32_be_bytes(args.len() as u32) + args_bytes(args)
}

/// A whole response: its length (the status and the payload), the status, the payload.
pub open spec fn response_bytes(status: i32, payload: Seq<u8>) -> Seq<u8> {
    u32_be_bytes((4 + payload.len()) as u32) + i32_be_bytes(status) + payload
}

/// `x` as a `usize`, or `usize::MAX` where it is larger.
pub open spec fn sat_len(x: int) -> usize {
    if x <= usize::MAX {
        x as usize
    } else {
        usize::MAX
    }
}

/// Reading `n` arguments from `buf` at `pos`: the arguments and the offset just past
/// them, or why that fails. Failures are found in the order of the bytes.
pub open spec fn parse_args_from(buf: Seq<u8>, pos: int, n: nat) -> Result<(Seq<Seq<char>>, int), ParseError>
    decreases n,
{
    if n == 0 {
        Ok((Seq::empty(), pos))
    } else if buf.len() < pos + 4 {
        Err(ParseError::NotEnoughBytes { want: sat_len(pos + 4), got: buf.len() as usize })
    } else {
        let len = be_u32(buf, pos);
        if len > MAX_ARGS {
            Err(ParseError::ProtocolError)
        } else if buf.len() < pos + 4 + len {
            Err(ParseError::NotEnoughBytes { want: sat_len(pos + 4 + len), got: buf.len() as usize })
        } else if !valid_utf8(buf.subrange(pos + 4, pos + 4 + len)) {
            Err(ParseError::ProtocolError)
        } else {
            match parse_args_from(buf, pos + 4 + len, (n - 1) as nat) {
                Ok((rest, end)) => Ok((seq![decode_utf8(buf.subrange(pos + 4, pos + 4 + len))] + rest, end)),
                Err(e) => Err(e),
            }
        }
    }
}

/// What `parse_request` gives for `buf`.
pub open spec fn spec_parse_request(buf: Seq<u8>) -> Result<(Seq<Seq<char>>, int), ParseError> {
    if buf.len() < 4 {
        Err(ParseError::NotEnoughBytes { want: 4, got: buf.len() as usize })
    } else if be_u32(buf, 0) > MAX_ARGS {
        Err(ParseError::ProtocolError)
    } else {
        parse_args_from(buf, 4, be_u32(buf, 0) as nat)
    }
}

/// `done` followed by what `r` parsed, if it parsed.
pub open spec fn after(done: Seq<Seq<char>>, r: Result<(Seq<Seq<char>>, int), ParseError>) -> Result<
    (Seq<Seq<char>>, int),
    ParseError,
> {
    match r {
        Ok((rest, end)) => Ok((done + rest, end)),
        Err(e) => Err(e),
    }
}

pub open spec fn strings_view(v: Seq<String>) -> Seq<Seq<char>> {
    v.map_values(|s: String| s@)
}

/// Relies on `String::from_utf8`: it accepts exactly the valid UTF-8 byte
/// sequences, and the string it makes has those bytes.
#[verifier::external_body]
pub(crate) fn string_from_utf8(v: Vec<u8>) -> (r: Option<String>)
    ensures
        r is Some <==> valid_utf8(v@),
        r matches Some(s) ==> encode_utf8(s@) == v@,
{
    String::from_utf8(v).ok()
}

/// The big-endian number in the first four bytes of `n`.
pub(crate) fn to_u32(n: &[u8]) -> (r: u32)
    requires
        n@.len() >= 4,
    ensures
        r == be_u32(n@, 0),
{
    (n[0] as u32) * 16777216 + (n[1] as u32) * 65536 + (n[2] as u32) * 256 + (n[3] as u32)
}

/// Appends the four big-endian bytes of `n`.
pub(crate) fn push_u32(buf: &mut Vec<u8>, n: u32)
    ensures
        final(buf)@ == old(buf)@ + u32_be_bytes(n),
{
    buf.push((n / 16777216) as u8);
    buf.push(((n / 65536) % 256) as u8);
    buf.push(((n / 256) % 256) as u8);
    buf.push((n % 256) as u8);
    assert(buf@ =~= old(buf)@ + u32_be_bytes(n));
}

/// Appends `data`.
pub(crate) fn push_bytes(buf: &mut Vec<u8>, data: &[u8])
    ensures
        final(buf)@ == old(buf)@ + data@,
{
    let mut i: usize = 0;
    while i < data.len()
        invariant
            i <= data@.len(),
            buf@ == old(buf)@ + data@.subrange(0, i as int),
        decreases data@.len() - i,
    {
        buf.push(data[i]);
        i += 1;
        assert(buf@ =~= old(buf)@ + data@.subrange(0, i as int));
    }
    assert(data@.subrange(0, i as int) =~= data@);
}

/// The number at `start`, if the buffer reaches that far.
fn get_u32(src: &[u8], start: usize) -> (r: Result<u32, ParseError>)
    requires
        start <= src@.len(),
    ensures
        src@.len() < start + 4 ==> r == Err::<u32, ParseError>(
            ParseError::NotEnoughBytes { want: sat_len(start + 4), got: src@.len() as usize },
        ),
        src@.len() >= start + 4 ==> r == Ok::<u32, ParseError>(be_u32(src@, start as int) as u32),
{
    if src.len() - start < 4 {
        let want = if start <= usize::MAX - 4 {
            start + 4
        } else {
            usize::MAX
        };
        Err(ParseError::NotEnoughBytes { want, got: src.len() })
    } else {
        let b = vstd::slice::slice_subrange(src, start, start + 4);
        Ok(to_u32(b))
    }
}

/// The `len` bytes of `src` from `start` on, as a string, if the buffer reaches
/// that far and they are UTF-8.
fn get_str(src: &[u8], start: usize, len: usize) -> (r: Result<String, ParseError>)
    requires
        start <= src@.len(),
    ensures
        src@.len() < start + len ==> r == Err::<String, ParseError>(
            ParseError::NotEnoughBytes { want: sat_len(start + len), got: src@.len() as usize },
        ),
        src@.len() >= start + len && !valid_utf8(src@.subrange(start as int, start + len)) ==> r
            == Err::<String, ParseError>(ParseError::ProtocolError),
        src@.len() >= start + len && valid_utf8(src@.subrange(start as int, start + len)) ==> r is Ok
            && r.unwrap()@ == decode_utf8(src@.subrange(start as int, start + len)),
{
    if src.len() - start < len {
        let want = if start <= usize::MAX - len {
            start + len
        } else {
            usize::MAX
        };
        Err(ParseError::NotEnoughBytes { want, got: src.len() })
    } else {
        let bytes = vstd::slice::slice_to_vec(vstd::slice::slice_subrange(src, start, start + len));
        match string_from_utf8(bytes) {
            Some(s) => {
                proof {
                    vstd::utf8::encode_utf8_decode_utf8(s@);
                }
                Ok(s)
            },
            None => Err(ParseError::ProtocolError),
        }
    }
}

/// Reads one request from the front of `src`: the arguments, and the offset of the
/// end of its frame.
pub fn parse_request(src: &[u8]) -> (r: Result<(Vec<String>, usize), ParseError>)
    ensures
        match r {
            Ok((args, end)) => spec_parse_request(src@) == Ok::<(Seq<Seq<char>>, int), ParseError>(
                (strings_view(args@), end as int),
            ),
            Err(e) => spec_parse_request(src@) == Err::<(Seq<Seq<char>>, int), ParseError>(e),
        },
{
    let num_str = match get_u32(src, 0) {
        Ok(n) => n as usize,
        Err(e) => return Err(e),
    };
    if num_str > MAX_ARGS {
        return Err(ParseError::ProtocolError);
    }
    let total = src.len();
    let mut cursor: usize = 4;
    let mut dst: Vec<String> = Vec::new();
    let mut i: usize = 0;
    while i < num_str
        invariant
            total == src@.len(),
            4 <= cursor <= src@.len(),
            i <= num_str <= MAX_ARGS,
            num_str == be_u32(src@, 0),
            spec_parse_request(src@) == after(
                strings_view(dst@),
                parse_args_from(src@, cursor as int, (num_str - i) as nat),
            ),
        decreases num_str - i,
    {
        let ghost done = strings_view(dst@);
        let ghost m = (num_str - i) as nat;
        let len = match get_u32(src, cursor) {
            Ok(n) => n as usize,
            Err(e) => return Err(e),
        };
        if len > MAX_ARGS {
            return Err(ParseError::ProtocolError);
        }
        cursor += 4;
        let s = match get_str(src, cursor, len) {
            Ok(s) => s,
            Err(e) => return Err(e),
        };
        dst.push(s);
        cursor += len;
        i += 1;
        proof {
            let a = decode_utf8(src@.subrange(cursor - len, cursor as int));
            assert(strings_view(dst@) =~= done.push(a));
            match parse_args_from(src@, cursor as int, (num_str - i) as nat) {
                Ok((rest, end)) => {
                    assert(done + (seq![a] + rest) =~= done.push(a) + rest);
                },
                Err(e) => {},
            }
        }
    }
    proof {
        assert(strings_view(dst@) + Seq::<Seq<char>>::empty() =~= strings_view(dst@));
    }
    Ok((dst, cursor))
}

/// Reading back the four big-endian bytes of `x` gives `x`.
pub proof fn lemma_u32_bytes(x: u32)
    ensures
        be_u32(u32_be_bytes(x), 0) == x,
        u32_be_bytes(x).len() == 4,
{
    let xi = x as int;
    let q1 = xi / 256;
    let q2 = q1 / 256;
    let q3 = q2 / 256;
    vstd::arithmetic::div_mod::lemma_fundamental_div_mod(xi, 256);
    vstd::arithmetic::div_mod::lemma_fundamental_div_mod(q1, 256);
    vstd::arithmetic::div_mod::lemma_fundamental_div_mod(q2, 256);
    vstd::arithmetic::div_mod::lemma_div_denominator(xi, 256, 256);
    vstd::arithmetic::div_mod::lemma_div_denominator(q1, 256, 256);
    vstd::arithmetic::div_mod::lemma_div_denominator(xi, 65536, 256);
    vstd::arithmetic::div_mod::lemma_div_is_ordered(xi, 4294967295, 16777216);
    assert(4294967295int / 16777216 == 255) by (nonlinear_arith);
    vstd::arithmetic::div_mod::lemma_mod_bound(xi, 256);
    vstd::arithmetic::div_mod::lemma_mod_bound(q1, 256);
    vstd::arithmetic::div_mod::lemma_mod_bound(q2, 256);
}

/// `args_bytes` of one more argument is one more argument's bytes at the end.
pub proof fn lemma_args_bytes_push(args: Seq<Seq<char>>, a: Seq<char>)
    ensures
        args_bytes(args.push(a)) == args_bytes(args) + arg_bytes(a),
    decreases args.len(),
{
    if args.len() == 0 {
        assert(args.push(a).drop_first() =~= Seq::<Seq<char>>::empty());
        assert(args.push(a)[0] == a);
        assert(args_bytes(args.push(a).drop_first()) == Seq::<u8>::empty());
        assert(args_bytes(args) == Seq::<u8>::empty());
        assert(args_bytes(args.push(a)) =~= args_bytes(args) + arg_bytes(a));
    } else {
        lemma_args_bytes_push(args.drop_first(), a);
        assert(args.push(a).drop_first() =~= args.drop_first().push(a));
        assert(args.push(a)[0] == args[0]);
        assert(args_bytes(args.push(a)) == arg_bytes(args[0]) + args_bytes(args.drop_first().push(a)));
        assert(args_bytes(args.push(a)) =~= args_bytes(args) + arg_bytes(a));
    }
}

/// Every argument fits the limits that a reader of requests holds them to.
pub open spec fn args_in_bounds(args: Seq<Seq<char>>) -> bool {
    &&& args.len() <= MAX_ARGS
    &&& forall|i: int| 0 <= i < args.len() ==> encode_utf8(#[trigger] args[i]).len() <= MAX_ARGS
}

/// `r` asks for more bytes: the buffer has `got`, and `want` is past them but not past `limit`.
pub open spec fn needs_more(r: Result<(Seq<Seq<char>>, int), ParseError>, got: int, limit: int) -> bool {
    match r {
        Err(ParseError::NotEnoughBytes { want, got: g }) => g == got && got < want <= limit,
        _ => false,
    }
}

/// `buf` holds the bytes of `ab` from `pos` on, as far as it reaches.
pub open spec fn agrees_from(buf: Seq<u8>, pos: int, ab: Seq<u8>) -> bool {
    forall|i: int| 0 <= i < ab.len() && pos + i < buf.len() ==> buf[pos + i] == #[trigger] ab[i]
}

proof fn lemma_parse_args(args: Seq<Seq<char>>, buf: Seq<u8>, pos: int)
    requires
        0 <= pos <= buf.len(),
        buf.len() <= isize::MAX,
        args_in_bounds(args),
        agrees_from(buf, pos, args_bytes(args)),
    ensures
        buf.len() >= pos + args_bytes(args).len() ==> parse_args_from(buf, pos, args.len()) == Ok::<
            (Seq<Seq<char>>, int),
            ParseError,
        >((args, pos + args_bytes(args).len())),
        buf.len() < pos + args_bytes(args).len() ==> needs_more(
            parse_args_from(buf, pos, args.len()),
            buf.len() as int,
            pos + args_bytes(args).len(),
        ),
    decreases args.len(),
{
    if args.len() == 0 {
        assert(args =~= Seq::<Seq<char>>::empty());
    } else {
        let a = args[0];
        let e = encode_utf8(a);
        let n = e.len();
        let ab = args_bytes(args);
        let rest = args.drop_first();
        assert(ab == arg_bytes(a) + args_bytes(rest));
        assert((32usize << 20usize) == 33554432usize) by (bit_vector);
        lemma_u32_bytes(n as u32);
        if buf.len() >= pos + 4 {
            assert(be_u32(buf, pos) == be_u32(u32_be_bytes(n as u32), 0)) by {
                assert(buf[pos] == ab[0]);
                assert(buf[pos + 1] == ab[1]);
                assert(buf[pos + 2] == ab[2]);
                assert(buf[pos + 3] == ab[3]);
            }
            if buf.len() >= pos + 4 + n {
                assert(buf.subrange(pos + 4, pos + 4 + n) =~= e) by {
                    assert forall|i: int| 0 <= i < n implies buf.subrange(pos + 4, pos + 4 + n)[i] == e[i] by {
                        assert(buf[pos + 4 + i] == ab[4 + i]);
                    }
                }
                vstd::utf8::encode_utf8_valid_utf8(a);
                vstd::utf8::encode_utf8_decode_utf8(a);
                assert forall|i: int| 0 <= i < args_bytes(rest).len() && pos + 4 + n + i < buf.len() implies buf[pos
                    + 4 + n + i] == #[trigger] args_bytes(rest)[i] by {
                    assert(buf[pos + (4 + n + i)] == ab[4 + n + i]);
                }
                assert forall|i: int| 0 <= i < rest.len() implies encode_utf8(#[trigger] rest[i]).len() <= MAX_ARGS by {
                    assert(rest[i] == args[i + 1]);
                }
                lemma_parse_args(rest, buf, pos + 4 + n);
                assert(seq![a] + rest =~= args);
            }
        }
    }
}

/// A request that `encode_request` wrote reads back, by `parse_request`, as the
/// same arguments, ending where its bytes end, whatever follows it in the buffer.
pub proof fn law_request_round_trip(args: Seq<Seq<char>>, tail: Seq<u8>)
    requires
        args_in_bounds(args),
        request_bytes(args).len() + tail.len() <= isize::MAX,
    ensures
        spec_parse_request(request_bytes(args) + tail) == Ok::<(Seq<Seq<char>>, int), ParseError>(
            (args, request_bytes(args).len() as int),
        ),
{
    let buf = request_bytes(args) + tail;
    assert((32usize << 20usize) == 33554432usize) by (bit_vector);
    lemma_u32_bytes(args.len() as u32);
    assert(be_u32(buf, 0) == args.len()) by {
        assert(buf[0] == request_bytes(args)[0]);
        assert(buf[1] == request_bytes(args)[1]);
        assert(buf[2] == request_bytes(args)[2]);
        assert(buf[3] == request_bytes(args)[3]);
    }
    assert forall|i: int| 0 <= i < args_bytes(args).len() && 4 + i < buf.len() implies buf[4 + i] == #[trigger] args_bytes(
        args,
    )[i] by {
        assert(buf[4 + i] == request_bytes(args)[4 + i]);
    }
    lemma_parse_args(args, buf, 4);
}

/// A buffer that holds only the start of a request is reported as needing more
/// bytes: it has `got` of them, and a byte that the request still has to bring lies
/// at offset `want - 1`.
pub proof fn law_partial_request(args: Seq<Seq<char>>, m: int)
    requires
        args_in_bounds(args),
        0 <= m < request_bytes(args).len(),
        request_bytes(args).len() <= isize::MAX,
    ensures
        needs_more(spec_parse_request(request_bytes(args).subrange(0, m)), m, request_bytes(args).len() as int),
{
    let buf = request_bytes(args).subrange(0, m);
    assert((32usize << 20usize) == 33554432usize) by (bit_vector);
    lemma_u32_bytes(args.len() as u32);
    if m >= 4 {
        assert(be_u32(buf, 0) == args.len()) by {
            assert(buf[0] == request_bytes(args)[0]);
            assert(buf[1] == request_bytes(args)[1]);
            assert(buf[2] == request_bytes(args)[2]);
            assert(buf[3] == request_bytes(args)[3]);
        }
        assert forall|i: int| 0 <= i < args_bytes(args).len() && 4 + i < buf.len() implies buf[4 + i]
            == #[trigger] args_bytes(args)[i] by {
            assert(buf[4 + i] == request_bytes(args)[4 + i]);
        }
        lemma_parse_args(args, buf, 4);
    }
}

/// The bytes of a request with these arguments.
pub fn encode_request(args: &Vec<String>) -> (r: Vec<u8>)
    requires
        args@.len() <= u32::MAX,
        forall|i: int| 0 <= i < args@.len() ==> encode_utf8((#[trigger] args@[i])@).len() <= u32::MAX,
    ensures
        r@ == request_bytes(strings_view(args@)),
{
    let ghost view = strings_view(args@);
    let mut buf: Vec<u8> = Vec::new();
    push_u32(&mut buf, args.len() as u32);
    let mut i: usize = 0;
    while i < args.len()
        invariant
            i <= args@.len(),
            view == strings_view(args@),
            args@.len() <= u32::MAX,
            forall|j: int| 0 <= j < args@.len() ==> encode_utf8((#[trigger] args@[j])@).len() <= u32::MAX,
            buf@ == u32_be_bytes(args@.len() as u32) + args_bytes(view.take(i as int)),
        decreases args@.len() - i,
    {
        let bytes = args[i].as_str().as_bytes();
        push_u32(&mut buf, bytes.len() as u32);
        push_bytes(&mut buf, bytes);
        proof {
            lemma_args_bytes_push(view.take(i as int), view[i as int]);
            assert(view.take(i as int).push(view[i as int]) =~= view.take(i + 1));
        }
        i += 1;
    }
    assert(view.take(i as int) =~= view);
    buf
}

/// Appends one response: its length, `status_code`, and `data` as the payload.
pub fn serialize(status_code: i32, data: &[u8], buf: &mut Vec<u8>)
    requires
        data@.len() + 4 <= u32::MAX,
    ensures
        final(buf)@ == old(buf)@ + response_bytes(status_code, data@),
{
    let len = (4 + data.len()) as u32;
    push_u32(buf, len);
    let code: u32 = if status_code < 0 {
        (status_code as i64 + 4294967296i64) as u32
    } else {
        status_code as u32
    };
    push_u32(buf, code);
    push_bytes(buf, data);
    assert(buf@ =~= old(buf)@ + response_bytes(status_code, data@));
}

pub open spec fn verb_get() -> Seq<char> {
    seq!['g', 'e', 't']
}

pub open spec fn verb_set() -> Seq<char> {
    seq!['s', 'e', 't']
}

pub open spec fn verb_del() -> Seq<char> {
    seq!['d', 'e', 'l']
}

/// What a command does to the store, and the status and payload it answers with,
/// before the payload is checked to fit a response.
pub open spec fn command_result(cmd: Seq<Seq<char>>, m: Map<Seq<char>, Seq<char>>) -> (
    Map<Seq<char>, Seq<char>>,
    i32,
    Seq<u8>,
) {
    if cmd.len() == 2 && cmd[0] == verb_get() {
        if m.contains_key(cmd[1]) {
            (m, RES_OK, encode_utf8(m[cmd[1]]))
        } else {
            (m, RES_NX, Seq::empty())
        }
    } else if cmd.len() == 2 && cmd[0] == verb_del() {
        if m.contains_key(cmd[1]) {
            (m.remove(cmd[1]), RES_OK, encode_utf8(m[cmd[1]]))
        } else {
            (m, RES_NX, Seq::empty())
        }
    } else if cmd.len() == 3 && cmd[0] == verb_set() {
        (m.insert(cmd[1], cmd[2]), RES_OK, encode_utf8(cmd[2]))
    } else {
        (m, RES_OK, Seq::empty())
    }
}

/// The store after a command. A `set` that would add a key to a store that already
/// counts `usize::MAX` keys changes nothing.
pub open spec fn command_store(cmd: Seq<Seq<char>>, m: Map<Seq<char>, Seq<char>>) -> Map<Seq<char>, Seq<char>> {
    if cmd.len() == 3 && cmd[0] == verb_set() && m.len() >= usize::MAX {
        m
    } else {
        command_result(cmd, m).0
    }
}

/// The response to a command: `ERR` with no payload when the store is full for a
/// `set`, or when the payload is too long for a response's length field.
pub open spec fn command_response(cmd: Seq<Seq<char>>, m: Map<Seq<char>, Seq<char>>) -> Seq<u8> {
    let (_, status, payload) = command_result(cmd, m);
    if (cmd.len() == 3 && cmd[0] == verb_set() && m.len() >= usize::MAX) || payload.len() + 4 > u32::MAX {
        response_bytes(RES_ERR, Seq::empty())
    } else {
        response_bytes(status, payload)
    }
}

/// Appends `bytes` as a response with `status`, or an `ERR` response when they are too
/// long for its length field.
fn respond(status: i32, bytes: &[u8], buf: &mut Vec<u8>)
    ensures
        bytes@.len() + 4 > u32::MAX ==> final(buf)@ == old(buf)@ + response_bytes(RES_ERR, Seq::empty()),
        bytes@.len() + 4 <= u32::MAX ==> final(buf)@ == old(buf)@ + response_bytes(status, bytes@),
{
    if bytes.len() > 4294967291 {
        let empty: Vec<u8> = Vec::new();
        serialize(RES_ERR, empty.as_slice(), buf);
    } else {
        serialize(status, bytes, buf);
    }
}

/// Carries out one command against `store` and appends the response to `buf`:
/// `get k` and `del k` answer with the value (`del` also removes it) or `NOT_FOUND`,
/// `set k v` stores `v` and answers with it, and anything else answers `OK` with an
/// empty payload.
pub fn handle_and_encode_request(cmd: Vec<String>, store: &mut Dict, buf: &mut Vec<u8>)
    requires
        old(store).wf(),
    ensures
        final(store).wf(),
        final(store)@ == command_store(strings_view(cmd@), old(store)@),
        final(buf)@ == old(buf)@ + command_response(strings_view(cmd@), old(store)@),
{
    let ghost c = strings_view(cmd@);
    proof {
        reveal_strlit("get");
        reveal_strlit("del");
        reveal_strlit("set");
        assert("get"@ =~= verb_get());
        assert("del"@ =~= verb_del());
        assert("set"@ =~= verb_set());
    }
    let n = cmd.len();
    proof {
        assert(c.len() == n);
        if n >= 1 {
            assert(c[0] == cmd@[0]@);
        }
        if n >= 2 {
            assert(c[1] == cmd@[1]@);
        }
        if n >= 3 {
            assert(c[2] == cmd@[2]@);
        }
    }
    if n == 2 && str_eq(cmd[0].as_str(), "get") {
        match store.get(cmd[1].as_str()) {
            Some(e) => respond(RES_OK, e.value.as_str().as_bytes(), buf),
            None => {
                let empty: Vec<u8> = Vec::new();
                respond(RES_NX, empty.as_slice(), buf);
            },
        }
    } else if n == 2 && str_eq(cmd[0].as_str(), "del") {
        match store.remove(cmd[1].as_str()) {
            Some(e) => respond(RES_OK, e.value.as_str().as_bytes(), buf),
            None => {
                let empty: Vec<u8> = Vec::new();
                respond(RES_NX, empty.as_slice(), buf);
            },
        }
    } else if n == 3 && str_eq(cmd[0].as_str(), "set") {
        if store.size() == usize::MAX {
            let empty: Vec<u8> = Vec::new();
            serialize(RES_ERR, empty.as_slice(), buf);
        } else {
            store.insert(cmd[1].as_str(), cmd[2].as_str());
            respond(RES_OK, cmd[2].as_str().as_bytes(), buf);
        }
    } else {
        let empty: Vec<u8> = Vec::new();
        respond(RES_OK, empty.as_slice(), buf);
    }
}

/// The status that the four bytes at `at` carry, read as a two's complement number.
pub open spec fn be_i32(b: Seq<u8>, at: int) -> int {
    if be_u32(b, at) >= 2147483648 {
        be_u32(b, at) - 4294967296
    } else {
        be_u32(b, at)
    }
}

/// What `parse_response` gives for `buf`: the status, the payload, and the offset
/// of the end of the frame. A frame too long to count in a `usize` asks for
/// `usize::MAX` bytes.
pub open spec fn spec_parse_response(buf: Seq<u8>) -> Result<(int, Seq<u8>, int), ParseError> {
    if buf.len() < 8 {
        Err(ParseError::NotEnoughBytes { want: 8, got: buf.len() as usize })
    } else if be_u32(buf, 0) < 4 {
        Err(ParseError::ProtocolError)
    } else if buf.len() < 4 + be_u32(buf, 0) {
        Err(
            ParseError::NotEnoughBytes {
                want: (if 4 + be_u32(buf, 0) <= usize::MAX {
                    4 + be_u32(buf, 0)
                } else {
                    usize::MAX as int
                }) as usize,
                got: buf.len() as usize,
            },
        )
    } else {
        Ok((be_i32(buf, 4), buf.subrange(8, 4 + be_u32(buf, 0)), 4 + be_u32(buf, 0)))
    }
}

/// Reads one response from the front of `src`: its status, its payload, and the
/// offset of the end of its frame.
pub fn parse_response(src: &[u8]) -> (r: Result<(i32, Vec<u8>, usize), ParseError>)
    ensures
        match r {
            Ok((status, payload, end)) => spec_parse_response(src@) == Ok::<(int, Seq<u8>, int), ParseError>(
                (status as int, payload@, end as int),
            ),
            Err(e) => spec_parse_response(src@) == Err::<(int, Seq<u8>, int), ParseError>(e),
        },
{
    if src.len() < 8 {
        return Err(ParseError::NotEnoughBytes { want: 8, got: src.len() });
    }
    let total = to_u32(src) as usize;
    if total < 4 {
        return Err(ParseError::ProtocolError);
    }
    if src.len() - 4 < total {
        let want = if total <= usize::MAX - 4 {
            4 + total
        } else {
            usize::MAX
        };
        return Err(ParseError::NotEnoughBytes { want, got: src.len() });
    }
    let code = to_u32(vstd::slice::slice_subrange(src, 4, 8));
    let status: i32 = if code >= 2147483648 {
        (code as i64 - 4294967296i64) as i32
    } else {
        code as i32
    };
    let payload = vstd::slice::slice_to_vec(vstd::slice::slice_subrange(src, 8, 4 + total));
    Ok((status, payload, 4 + total))
}

/// A response that `serialize` wrote reads back, by `parse_response`, as the same
/// status and payload, ending where its bytes end, whatever follows it.
pub proof fn law_response_round_trip(status: i32, payload: Seq<u8>, tail: Seq<u8>)
    requires
        payload.len() + 4 <= u32::MAX,
    ensures
        spec_parse_response(response_bytes(status, payload) + tail) == Ok::<(int, Seq<u8>, int), ParseError>(
            (status as int, payload, response_bytes(status, payload).len() as int),
        ),
{
    let rb = response_bytes(status, payload);
    let buf = rb + tail;
    let len = (4 + payload.len()) as u32;
    let code = (if status < 0 { status + 4294967296 } else { status as int }) as u32;
    lemma_u32_bytes(len);
    lemma_u32_bytes(code);
    assert(be_u32(buf, 0) == be_u32(u32_be_bytes(len), 0)) by {
        assert(buf[0] == rb[0]);
        assert(buf[1] == rb[1]);
        assert(buf[2] == rb[2]);
        assert(buf[3] == rb[3]);
    }
    assert(be_u32(buf, 4) == be_u32(u32_be_bytes(code), 0)) by {
        assert(buf[4] == rb[4]);
        assert(buf[5] == rb[5]);
        assert(buf[6] == rb[6]);
        assert(buf[7] == rb[7]);
    }
    assert(buf.subrange(8, 4 + be_u32(buf, 0)) =~= payload) by {
        assert forall|i: int| 0 <= i < payload.len() implies buf.subrange(8, 4 + be_u32(buf, 0))[i] == payload[i] by {
            assert(buf[8 + i] == rb[8 + i]);
        }
    }
}

} // verus!
