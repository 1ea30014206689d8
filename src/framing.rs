use vstd::prelude::*;
use vstd::utf8::{decode_utf8, encode_utf8, valid_utf8};

use crate::protocol::{be_u32, lemma_u32_bytes, push_bytes, push_u32, string_from_utf8, to_u32, u32_be_bytes};

verus! {

/// A way of cutting a byte stream into frames and of writing frames back out.
pub trait Protocol {
    type Frame;

    /// A whole frame stands at the front of `buf`.
    spec fn complete(buf: Seq<u8>) -> bool;

    /// `parse` may be asked to read the front of `buf`.
    spec fn parsable(buf: Seq<u8>) -> bool;

    /// `f` is the frame at the front of `buf`.
    spec fn parsed(buf: Seq<u8>, f: Self::Frame) -> bool;

    /// `encode` may be asked to write `f`.
    spec fn encodable(f: Self::Frame) -> bool;

    /// The bytes that stand for `f`.
    spec fn frame_bytes(f: Self::Frame) -> Seq<u8>;

    /// The frame at the front of `buf`, if a whole one is there.
    fn parse(buf: &[u8]) -> (r: Option<Self::Frame>)
        requires
            Self::parsable(buf@),
        ensures
            r is Some <==> Self::complete(buf@),
            r matches Some(f) ==> Self::parsed(buf@, f),
    ;

    /// The bytes of one frame.
    fn encode(frame: &Self::Frame) -> (r: Vec<u8>)
        requires
            Self::encodable(*frame),
        ensures
            r@ == Self::frame_bytes(*frame),
    ;

    /// The bytes of `frames`, one after the other.
    spec fn frames_bytes(frames: Seq<Self::Frame>) -> Seq<u8>;

    /// The bytes of several frames, one after the other.
    fn encode_many(frames: &[Self::Frame]) -> (r: Vec<u8>)
        requires
            forall|i: int| 0 <= i < frames@.len() ==> Self::encodable(#[trigger] frames@[i]),
        ensures
            r@ == Self::frames_bytes(frames@),
    ;
}

/// A frame that is one string: its byte length as four big-endian bytes, then its
/// UTF-8 bytes.
pub struct LengthPrefixed;

impl LengthPrefixed {
    pub const PREFIX_SIZE: usize = 4;
}

/// The string that a length-prefixed frame carries.
#[derive(Debug)]
pub struct LPFrame(pub String);

impl Protocol for LengthPrefixed {
    type Frame = LPFrame;

    open spec fn complete(buf: Seq<u8>) -> bool {
        buf.len() >= 4 && buf.len() >= 4 + be_u32(buf, 0)
    }

    /// A whole frame at the front must carry UTF-8.
    open spec fn parsable(buf: Seq<u8>) -> bool {
        Self::complete(buf) ==> valid_utf8(buf.subrange(4, 4 + be_u32(buf, 0)))
    }

    open spec fn parsed(buf: Seq<u8>, f: LPFrame) -> bool {
        f.0@ == decode_utf8(buf.subrange(4, 4 + be_u32(buf, 0)))
    }

    open spec fn encodable(f: LPFrame) -> bool {
        encode_utf8(f.0@).len() <= u32::MAX
    }

    open spec fn frame_bytes(f: LPFrame) -> Seq<u8> {
        u32_be_bytes(encode_utf8(f.0@).len() as u32) + encode_utf8(f.0@)
    }

    open spec fn frames_bytes(frames: Seq<LPFrame>) -> Seq<u8>
        decreases frames.len(),
    {
        if frames.len() == 0 {
            Seq::empty()
        } else {
            Self::frames_bytes(frames.drop_last()) + Self::frame_bytes(frames.last())
        }
    }

    fn encode_many(frames: &[LPFrame]) -> (r: Vec<u8>) {
        let mut v: Vec<u8> = Vec::new();
        let mut i: usize = 0;
        while i < frames.len()
            invariant
                i <= frames@.len(),
                forall|j: int| 0 <= j < frames@.len() ==> Self::encodable(#[trigger] frames@[j]),
                v@ == Self::frames_bytes(frames@.take(i as int)),
            decreases frames@.len() - i,
        {
            let enc = Self::encode(&frames[i]);
            push_bytes(&mut v, enc.as_slice());
            assert(frames@.take(i + 1).drop_last() =~= frames@.take(i as int));
            i += 1;
        }
        assert(frames@.take(i as int) =~= frames@);
        v
    }

    fn parse(buf: &[u8]) -> (r: Option<LPFrame>) {
        if buf.len() < Self::PREFIX_SIZE {
            return None;
        }
        let len32 = to_u32(buf);
        if buf.len() - Self::PREFIX_SIZE < len32 as usize {
            return None;
        }
        let strbuf = vstd::slice::slice_subrange(buf, Self::PREFIX_SIZE, Self::PREFIX_SIZE + len32 as usize);
        match string_from_utf8(vstd::slice::slice_to_vec(strbuf)) {
            Some(s) => {
                proof {
                    vstd::utf8::encode_utf8_decode_utf8(s@);
                }
                Some(LPFrame(s))
            },
            None => None,
        }
    }

    fn encode(frame: &LPFrame) -> (r: Vec<u8>) {
        let bytes = frame.0.as_str().as_bytes();
        let mut v: Vec<u8> = Vec::new();
        push_u32(&mut v, bytes.len() as u32);
        push_bytes(&mut v, bytes);
        v
    }
}

/// A frame that `LengthPrefixed` wrote reads back as the same string, whatever
/// follows it.
pub proof fn law_length_prefixed_round_trip(f: LPFrame, tail: Seq<u8>)
    requires
        LengthPrefixed::encodable(f),
    ensures
        LengthPrefixed::complete(LengthPrefixed::frame_bytes(f) + tail),
        LengthPrefixed::parsable(LengthPrefixed::frame_bytes(f) + tail),
        LengthPrefixed::parsed(LengthPrefixed::frame_bytes(f) + tail, f),
{
    let e = encode_utf8(f.0@);
    let fb = LengthPrefixed::frame_bytes(f);
    let buf = fb + tail;
    lemma_u32_bytes(e.len() as u32);
    assert(be_u32(buf, 0) == e.len()) by {
        assert(buf[0] == fb[0]);
        assert(buf[1] == fb[1]);
        assert(buf[2] == fb[2]);
        assert(buf[3] == fb[3]);
    }
    assert(buf.subrange(4, 4 + be_u32(buf, 0)) =~= e) by {
        assert forall|i: int| 0 <= i < e.len() implies buf.subrange(4, 4 + be_u32(buf, 0))[i] == e[i] by {
            assert(buf[4 + i] == fb[4 + i]);
        }
    }
    vstd::utf8::encode_utf8_valid_utf8(f.0@);
    vstd::utf8::encode_utf8_decode_utf8(f.0@);
}

} // verus!
