use vstd::prelude::*;

use crate::cursor::Cursor;
use crate::varint::{
    lemma_varint_round_trip, varint_buf_len, varint_dec, varint_decode, varint_enc, varint_encode,
    varint_len, VARINT_MAX,
};

verus! {

/// One protocol frame, as carried inside a transport packet.
#[derive(Debug)]
pub enum Frame {
    Ack(AckFrame),
    ApplicationClose(CloseFrame),
    ConnectionClose(CloseFrame),
    Padding(PaddingFrame),
    PathChallenge(PathFrame),
    PathResponse(PathFrame),
    Ping,
    Stream(StreamFrame),
    StreamIdBlocked(StreamIdBlockedFrame),
}

/// A chunk of stream data: stream id, offset of the chunk, the bytes, and
/// whether the stream ends with them.
#[derive(Debug)]
pub struct StreamFrame {
    pub id: u64,
    pub fin: bool,
    pub offset: u64,
    pub len: Option<u64>,
    pub data: Vec<u8>,
}

/// Acknowledged packet ranges: the largest acknowledged packet number, the
/// peer's reported delay, and alternating acknowledged/gap run lengths.
#[derive(Debug)]
pub struct AckFrame {
    pub largest: u32,
    pub ack_delay: u64,
    pub blocks: Vec<Ack>,
}

/// One run length in an acknowledgment frame: a contiguous acknowledged run,
/// or a contiguous gap. The tag is positional on the wire: blocks at even
/// positions are `Ack`, at odd positions `Gap`.
#[derive(Clone, Copy, Debug, PartialEq, Eq, Structural)]
pub enum Ack {
    Ack(u64),
    Gap(u64),
}

/// A connection- or application-level close: a 16-bit error code and a
/// length-prefixed UTF-8 reason.
#[derive(Debug)]
pub struct CloseFrame {
    pub code: u16,
    pub reason: Vec<u8>,
}

/// The fixed 8-byte payload of a path challenge or response.
#[derive(Debug)]
pub struct PathFrame(pub [u8; 8]);

/// The stream identifier the sender wished to open but could not.
#[derive(Clone, Copy, Debug, PartialEq, Eq, Structural)]
pub struct StreamIdBlockedFrame(pub u64);

/// A run of zero bytes; the byte value 0 is both the type code and the
/// payload.
#[derive(Clone, Copy, Debug, PartialEq, Eq, Structural)]
pub struct PaddingFrame(pub usize);

/// Decoding failed: the buffer is truncated, the leading type byte is not a
/// known frame type, or a close reason is not valid UTF-8. The containing
/// packet is unparseable; the caller must drop it or close the connection.
#[derive(Clone, Copy, Debug, PartialEq, Eq, Structural)]
pub struct DecodeError;

/// Mathematical image of a `StreamFrame`.
#[verifier::ext_equal]
pub struct StreamFrameV {
    pub id: u64,
    pub fin: bool,
    pub offset: u64,
    pub len: Option<u64>,
    pub data: Seq<u8>,
}

/// Mathematical image of an `AckFrame`.
#[verifier::ext_equal]
pub struct AckFrameV {
    pub largest: u32,
    pub ack_delay: u64,
    pub blocks: Seq<Ack>,
}

/// Mathematical image of a `CloseFrame`.
#[verifier::ext_equal]
pub struct CloseFrameV {
    pub code: u16,
    pub reason: Seq<u8>,
}

/// Mathematical image of a `Frame`; contracts and the wire-format spec
/// functions speak of this type.
#[verifier::ext_equal]
pub enum FrameV {
    Ack(AckFrameV),
    ApplicationClose(CloseFrameV),
    ConnectionClose(CloseFrameV),
    Padding(usize),
    PathChallenge(Seq<u8>),
    PathResponse(Seq<u8>),
    Ping,
    Stream(StreamFrameV),
    StreamIdBlocked(u64),
}

impl View for StreamFrame {
    type V = StreamFrameV;

    open spec fn view(&self) -> StreamFrameV {
        StreamFrameV {
            id: self.id,
            fin: self.fin,
            offset: self.offset,
            len: self.len,
            data: self.data@,
        }
    }
}

impl View for AckFrame {
    type V = AckFrameV;

    open spec fn view(&self) -> AckFrameV {
        AckFrameV { largest: self.largest, ack_delay: self.ack_delay, blocks: self.blocks@ }
    }
}

impl View for CloseFrame {
    type V = CloseFrameV;

    open spec fn view(&self) -> CloseFrameV {
        CloseFrameV { code: self.code, reason: self.reason@ }
    }
}

impl View for Frame {
    type V = FrameV;

    open spec fn view(&self) -> FrameV {
        match self {
            Frame::Ack(f) => FrameV::Ack(f@),
            Frame::ApplicationClose(f) => FrameV::ApplicationClose(f@),
            Frame::ConnectionClose(f) => FrameV::ConnectionClose(f@),
            Frame::Padding(f) => FrameV::Padding(f.0),
            Frame::PathChallenge(f) => FrameV::PathChallenge(f.0@),
            Frame::PathResponse(f) => FrameV::PathResponse(f.0@),
            Frame::Ping => FrameV::Ping,
            Frame::Stream(f) => FrameV::Stream(f@),
            Frame::StreamIdBlocked(f) => FrameV::StreamIdBlocked(f.0),
        }
    }
}

impl Ack {
    /// The run length carried by this block, whatever its tag.
    pub open spec fn value_spec(self) -> u64 {
        match self {
            Ack::Ack(v) => v,
            Ack::Gap(v) => v,
        }
    }

    /// The run length carried by this block, whatever its tag.
    pub fn value(&self) -> (r: u64)
        ensures
            r == self.value_spec(),
    {
        match *self {
            Ack::Ack(v) => v,
            Ack::Gap(v) => v,
        }
    }
}

/// A stream frame whose fields fit the wire format: id and offset are 62-bit,
/// and an explicit length matches the data it describes.
pub open spec fn stream_valid(s: StreamFrameV) -> bool {
    &&& s.id < VARINT_MAX
    &&& s.offset < VARINT_MAX
    &&& match s.len {
        Some(l) => l < VARINT_MAX && s.data.len() == l,
        None => true,
    }
}

/// An acknowledgment frame whose blocks fit the wire format: at least one
/// block, an even count after the first, every run length 62-bit, and tags
/// strictly alternating starting with `Ack`.
pub open spec fn ack_valid(a: AckFrameV) -> bool {
    &&& 1 <= a.blocks.len() < VARINT_MAX
    &&& (a.blocks.len() - 1) % 2 == 0
    &&& a.ack_delay < VARINT_MAX
    &&& forall|i: int|
        0 <= i < a.blocks.len() ==> (#[trigger] a.blocks[i]).value_spec() < VARINT_MAX
    &&& forall|i: int| 0 <= i < a.blocks.len() ==> ((#[trigger] a.blocks[i]) is Ack <==> i % 2 == 0)
}

/// A close frame whose reason fits the wire format and is UTF-8 text.
pub open spec fn close_valid(c: CloseFrameV) -> bool {
    &&& c.reason.len() < VARINT_MAX
    &&& vstd::utf8::valid_utf8(c.reason)
}

/// A frame all of whose fields fit the wire format. `encode` accepts exactly
/// these frames.
pub open spec fn frame_valid(f: FrameV) -> bool {
    match f {
        FrameV::Ack(a) => ack_valid(a),
        FrameV::ApplicationClose(c) => close_valid(c),
        FrameV::ConnectionClose(c) => close_valid(c),
        FrameV::Padding(n) => n >= 1,
        FrameV::PathChallenge(p) => p.len() == 8,
        FrameV::PathResponse(p) => p.len() == 8,
        FrameV::Ping => true,
        FrameV::Stream(s) => stream_valid(s),
        FrameV::StreamIdBlocked(id) => id < VARINT_MAX,
    }
}

/// The two bytes of `code`, big-endian.
pub open spec fn u16_be(code: u16) -> Seq<u8> {
    seq![(code >> 8) as u8, code as u8]
}

/// Wire bytes of a close frame body: big-endian code, length-prefixed reason.
/// The type byte belongs to the enclosing `Frame` variant.
pub open spec fn close_enc(c: CloseFrameV) -> Seq<u8> {
    u16_be(c.code) + varint_enc(c.reason.len() as u64) + c.reason
}

/// The type byte of a stream frame: 0x10, plus 0x04 when the offset is
/// explicit, 0x02 when the length is explicit, 0x01 when the stream ends.
/// An offset of zero is never explicit.
pub open spec fn stream_flags(s: StreamFrameV) -> u8 {
    (0x10 + (if s.offset > 0 {
        4int
    } else {
        0int
    }) + (if s.len is Some {
        2int
    } else {
        0int
    }) + (if s.fin {
        1int
    } else {
        0int
    })) as u8
}

/// Wire bytes of a stream frame: type byte, id, the offset when non-zero, the
/// length when explicit, then the data.
pub open spec fn stream_enc(s: StreamFrameV) -> Seq<u8> {
    seq![stream_flags(s)] + varint_enc(s.id) + (if s.offset > 0 {
        varint_enc(s.offset)
    } else {
        Seq::<u8>::empty()
    }) + (match s.len {
        Some(l) => varint_enc(l),
        None => Seq::<u8>::empty(),
    }) + s.data
}

/// Wire bytes of a sequence of acknowledgment run lengths, in order.
pub open spec fn ack_blocks_enc(blocks: Seq<Ack>) -> Seq<u8>
    decreases blocks.len(),
{
    if blocks.len() == 0 {
        Seq::empty()
    } else {
        varint_enc(blocks[0].value_spec()) + ack_blocks_enc(blocks.drop_first())
    }
}

/// Wire bytes of an acknowledgment frame: type byte 0x0d, largest, delay, the
/// count of blocks after the first, then every run length.
pub open spec fn ack_enc(a: AckFrameV) -> Seq<u8> {
    seq![0x0du8] + varint_enc(a.largest as u64) + varint_enc(a.ack_delay) + varint_enc(
        (a.blocks.len() - 1) as u64,
    ) + ack_blocks_enc(a.blocks)
}

/// The full wire form of a frame.
pub open spec fn frame_enc(f: FrameV) -> Seq<u8> {
    match f {
        FrameV::Ack(a) => ack_enc(a),
        FrameV::ApplicationClose(c) => seq![0x03u8] + close_enc(c),
        FrameV::ConnectionClose(c) => seq![0x02u8] + close_enc(c),
        FrameV::Padding(n) => Seq::new(n as nat, |i: int| 0u8),
        FrameV::PathChallenge(p) => seq![0x0eu8] + p,
        FrameV::PathResponse(p) => seq![0x0fu8] + p,
        FrameV::Ping => seq![0x07u8],
        FrameV::Stream(s) => stream_enc(s),
        FrameV::StreamIdBlocked(id) => seq![0x0au8] + varint_enc(id),
    }
}

/// Length of the run of zero bytes at the head of `s`.
pub open spec fn zero_run(s: Seq<u8>) -> int
    decreases s.len(),
{
    if s.len() == 0 || s[0] != 0 {
        0
    } else {
        1 + zero_run(s.drop_first())
    }
}

/// Meaning of the bytes after the type byte of a close frame: code, reason
/// length, reason. Fails on truncation or a reason that is not UTF-8.
pub open spec fn close_dec(s: Seq<u8>) -> Option<(CloseFrameV, int)> {
    if s.len() < 2 {
        None
    } else {
        let code = ((s[0] as u16) << 8) | (s[1] as u16);
        match varint_dec(s.skip(2)) {
            None => None,
            Some((l, n)) => {
                let rest = s.skip(2 + n);
                if rest.len() < l {
                    None
                } else {
                    let reason = rest.take(l as int);
                    if vstd::utf8::valid_utf8(reason) {
                        Some((CloseFrameV { code, reason }, 2 + n + l))
                    } else {
                        None
                    }
                }
            },
        }
    }
}

/// Meaning of a stream frame from the optional length field on: with the
/// length flag set, that many data bytes follow; without it, the data extends
/// to the end of the buffer and the length is reported absent.
pub open spec fn stream_dec_body(
    first: u8,
    id: u64,
    offset: u64,
    s: Seq<u8>,
    consumed: int,
) -> Option<(StreamFrameV, int)> {
    if (first / 2) % 2 == 1 {
        match varint_dec(s) {
            None => None,
            Some((l, n)) => {
                let rest = s.skip(n);
                if rest.len() < l {
                    None
                } else {
                    Some(
                        (
                            StreamFrameV {
                                id,
                                fin: first % 2 == 1,
                                offset,
                                len: Some(l),
                                data: rest.take(l as int),
                            },
                            consumed + n + l,
                        ),
                    )
                }
            },
        }
    } else {
        Some(
            (
                StreamFrameV { id, fin: first % 2 == 1, offset, len: None, data: s },
                consumed + s.len(),
            ),
        )
    }
}

/// Meaning of the bytes of a stream frame, type byte included: flags, id, the
/// offset when its flag is set (zero otherwise), then the data.
pub open spec fn stream_dec(s: Seq<u8>) -> Option<(StreamFrameV, int)> {
    let first = s[0];
    match varint_dec(s.skip(1)) {
        None => None,
        Some((id, n1)) => {
            if (first / 4) % 2 == 1 {
                match varint_dec(s.skip(1 + n1)) {
                    None => None,
                    Some((off, n2)) => stream_dec_body(first, id, off, s.skip(1 + n1 + n2), 1 + n1 + n2),
                }
            } else {
                stream_dec_body(first, id, 0, s.skip(1 + n1), 1 + n1)
            }
        },
    }
}

/// The block at position `idx`: acknowledged run at even positions, gap at
/// odd ones.
pub open spec fn mk_block(idx: int, v: u64) -> Ack {
    if idx % 2 == 0 {
        Ack::Ack(v)
    } else {
        Ack::Gap(v)
    }
}

/// Meaning of `n` consecutive run lengths starting at block position `idx`:
/// the decoded blocks and the bytes they occupy.
pub open spec fn ack_blocks_dec(s: Seq<u8>, n: int, idx: int) -> Option<(Seq<Ack>, int)>
    decreases n,
{
    if n <= 0 {
        Some((Seq::empty(), 0))
    } else {
        match varint_dec(s) {
            None => None,
            Some((v, c)) => {
                match ack_blocks_dec(s.skip(c), n - 1, idx + 1) {
                    None => None,
                    Some((blocks, c2)) => Some((seq![mk_block(idx, v)] + blocks, c + c2)),
                }
            },
        }
    }
}

/// Meaning of the bytes of an acknowledgment frame, type byte included. The
/// largest acknowledged packet number is truncated to 32 bits.
pub open spec fn ack_dec(s: Seq<u8>) -> Option<(AckFrameV, int)> {
    match varint_dec(s.skip(1)) {
        None => None,
        Some((largest, n1)) => {
            match varint_dec(s.skip(1 + n1)) {
                None => None,
                Some((delay, n2)) => {
                    match varint_dec(s.skip(1 + n1 + n2)) {
                        None => None,
                        Some((count, n3)) => {
                            match ack_blocks_dec(s.skip(1 + n1 + n2 + n3), count + 1, 0) {
                                None => None,
                                Some((blocks, c)) => Some(
                                    (
                                        AckFrameV {
                                            largest: largest as u32,
                                            ack_delay: delay,
                                            blocks,
                                        },
                                        1 + n1 + n2 + n3 + c,
                                    ),
                                ),
                            }
                        },
                    }
                },
            }
        },
    }
}

/// Meaning of the bytes at the head of `s` as one frame: the frame and the
/// bytes it occupies, or `None` when the head is not a well-formed frame.
/// Dispatch is on the first byte: values at or above 0x10 are stream frames,
/// a zero byte starts a padding run, and the rest are exact type codes.
pub open spec fn frame_dec(s: Seq<u8>) -> Option<(FrameV, int)> {
    if s.len() == 0 {
        None
    } else {
        let b = s[0];
        if b >= 0x10 {
            match stream_dec(s) {
                None => None,
                Some((f, n)) => Some((FrameV::Stream(f), n)),
            }
        } else if b == 0x00 {
            Some((FrameV::Padding(zero_run(s) as usize), zero_run(s)))
        } else if b == 0x02 {
            match close_dec(s.skip(1)) {
                None => None,
                Some((c, n)) => Some((FrameV::ConnectionClose(c), 1 + n)),
            }
        } else if b == 0x03 {
            match close_dec(s.skip(1)) {
                None => None,
                Some((c, n)) => Some((FrameV::ApplicationClose(c), 1 + n)),
            }
        } else if b == 0x07 {
            Some((FrameV::Ping, 1))
        } else if b == 0x0a {
            match varint_dec(s.skip(1)) {
                None => None,
                Some((id, n)) => Some((FrameV::StreamIdBlocked(id), 1 + n)),
            }
        } else if b == 0x0d {
            match ack_dec(s) {
                None => None,
                Some((a, n)) => Some((FrameV::Ack(a), n)),
            }
        } else if b == 0x0e {
            if s.len() < 9 {
                None
            } else {
                Some((FrameV::PathChallenge(s.subrange(1, 9)), 9))
            }
        } else if b == 0x0f {
            if s.len() < 9 {
                None
            } else {
                Some((FrameV::PathResponse(s.subrange(1, 9)), 9))
            }
        } else {
            None
        }
    }
}

/// The encoding of `v` is exactly `varint_len(v)` bytes long.
pub proof fn lemma_varint_enc_len(v: u64)
    ensures
        varint_enc(v).len() == varint_len(v),
{
}

/// A sequence whose first `k` bytes are zero, and which either ends there or
/// continues with a non-zero byte, has a zero run of exactly `k`.
proof fn lemma_zero_run(s: Seq<u8>, k: int)
    requires
        0 <= k <= s.len(),
        forall|i: int| 0 <= i < k ==> s[i] == 0,
        k == s.len() || s[k] != 0,
    ensures
        zero_run(s) == k,
    decreases k,
{
    if k == 0 {
    } else {
        assert(s[0] == 0);
        let t = s.drop_first();
        assert(forall|i: int| 0 <= i < k - 1 ==> t[i] == 0);
        assert(k - 1 == t.len() || t[k - 1] != 0);
        lemma_zero_run(t, k - 1);
    }
}

/// Splitting a block sequence splits its encoding.
proof fn lemma_ack_blocks_enc_split(blocks: Seq<Ack>, i: int)
    requires
        0 <= i <= blocks.len(),
    ensures
        ack_blocks_enc(blocks) == ack_blocks_enc(blocks.take(i)) + ack_blocks_enc(blocks.skip(i)),
    decreases i,
{
    if i == 0 {
        assert(blocks.take(0) =~= Seq::<Ack>::empty());
        assert(blocks.skip(0) =~= blocks);
        assert(ack_blocks_enc(blocks) =~= ack_blocks_enc(blocks.take(0)) + ack_blocks_enc(
            blocks.skip(0),
        ));
    } else {
        let t = blocks.drop_first();
        lemma_ack_blocks_enc_split(t, i - 1);
        assert(blocks.take(i).drop_first() =~= t.take(i - 1));
        assert(blocks.skip(i) =~= t.skip(i - 1));
        assert(blocks.take(i)[0] == blocks[0]);
        assert(blocks.take(i).len() != 0);
        assert(ack_blocks_enc(blocks.take(i)) == varint_enc(blocks[0].value_spec())
            + ack_blocks_enc(t.take(i - 1)));
        assert(ack_blocks_enc(blocks) =~= ack_blocks_enc(blocks.take(i)) + ack_blocks_enc(
            blocks.skip(i),
        ));
    }
}

/// Appending one block to a prefix extends the prefix's encoding by that
/// block's run length.
proof fn lemma_ack_blocks_enc_snoc(blocks: Seq<Ack>, i: int)
    requires
        0 <= i < blocks.len(),
    ensures
        ack_blocks_enc(blocks.take(i + 1)) == ack_blocks_enc(blocks.take(i)) + varint_enc(
            blocks[i].value_spec(),
        ),
{
    let p = blocks.take(i + 1);
    lemma_ack_blocks_enc_split(p, i);
    assert(p.take(i) =~= blocks.take(i));
    assert(p.skip(i) =~= seq![blocks[i]]);
    let sb = seq![blocks[i]];
    assert(sb.len() == 1 && sb[0] == blocks[i]);
    assert(sb.drop_first() =~= Seq::<Ack>::empty());
    assert(ack_blocks_enc(sb.drop_first()) == Seq::<u8>::empty());
    assert(ack_blocks_enc(sb) == varint_enc(blocks[i].value_spec()) + Seq::<u8>::empty());
    assert(varint_enc(blocks[i].value_spec()) + Seq::<u8>::empty() =~= varint_enc(
        blocks[i].value_spec(),
    ));
}

/// Decoding the encoding of a block sequence, whatever follows it, yields the
/// blocks back, provided their tags alternate correctly from position `idx`.
proof fn lemma_ack_blocks_round_trip(blocks: Seq<Ack>, idx: int, rest: Seq<u8>)
    requires
        forall|i: int| 0 <= i < blocks.len() ==> (#[trigger] blocks[i]).value_spec() < VARINT_MAX,
        forall|i: int|
            0 <= i < blocks.len() ==> ((#[trigger] blocks[i]) is Ack <==> (idx + i) % 2 == 0),
    ensures
        ack_blocks_dec(ack_blocks_enc(blocks) + rest, blocks.len() as int, idx) == Some(
            (blocks, ack_blocks_enc(blocks).len() as int),
        ),
    decreases blocks.len(),
{
    if blocks.len() == 0 {
        assert(ack_blocks_enc(blocks) + rest =~= rest);
        assert(blocks =~= Seq::<Ack>::empty());
    } else {
        let b0 = blocks[0];
        let v0 = b0.value_spec();
        let tail = blocks.drop_first();
        let e0 = varint_enc(v0);
        let et = ack_blocks_enc(tail);
        let s = ack_blocks_enc(blocks) + rest;
        lemma_varint_enc_len(v0);
        assert(s =~= e0 + (et + rest));
        lemma_varint_round_trip(v0, et + rest);
        let n0 = varint_len(v0);
        assert(s.skip(n0) =~= et + rest);
        assert forall|i: int| 0 <= i < tail.len() implies (#[trigger] tail[i]).value_spec()
            < VARINT_MAX by {
            assert(tail[i] == blocks[i + 1]);
        }
        assert forall|i: int| 0 <= i < tail.len() implies ((#[trigger] tail[i]) is Ack <==> (idx + 1
            + i) % 2 == 0) by {
            assert(tail[i] == blocks[i + 1]);
        }
        lemma_ack_blocks_round_trip(tail, idx + 1, rest);
        if idx % 2 == 0 {
            assert(b0 is Ack);
            assert(mk_block(idx, v0) == b0);
        } else {
            assert(b0 is Gap);
            assert(mk_block(idx, v0) == b0);
        }
        assert(seq![b0] + tail =~= blocks);
        assert(ack_blocks_enc(blocks).len() == n0 + et.len());
    }
}

/// The three flag bits of a stream frame's type byte, read back by division.
proof fn lemma_stream_flags(s: StreamFrameV)
    ensures
        0x10 <= stream_flags(s) <= 0x17,
        ((stream_flags(s) / 4) % 2 == 1) <==> s.offset > 0,
        ((stream_flags(s) / 2) % 2 == 1) <==> s.len is Some,
        (stream_flags(s) % 2 == 1) <==> s.fin,
{
    if s.offset > 0 {
        if s.len is Some {
            if s.fin {
                assert(stream_flags(s) == 0x17u8);
            } else {
                assert(stream_flags(s) == 0x16u8);
            }
        } else {
            if s.fin {
                assert(stream_flags(s) == 0x15u8);
            } else {
                assert(stream_flags(s) == 0x14u8);
            }
        }
    } else {
        if s.len is Some {
            if s.fin {
                assert(stream_flags(s) == 0x13u8);
            } else {
                assert(stream_flags(s) == 0x12u8);
            }
        } else {
            if s.fin {
                assert(stream_flags(s) == 0x11u8);
            } else {
                assert(stream_flags(s) == 0x10u8);
            }
        }
    }
}

/// Decoding the exact wire form of a valid close frame body yields it back
/// and consumes every byte.
proof fn lemma_close_round_trip(c: CloseFrameV)
    requires
        close_valid(c),
    ensures
        close_dec(close_enc(c)) == Some((c, close_enc(c).len() as int)),
{
    let e = close_enc(c);
    let l = c.reason.len() as u64;
    let el = varint_enc(l);
    lemma_varint_enc_len(l);
    assert(e[0] == (c.code >> 8) as u8);
    assert(e[1] == c.code as u8);
    let code = c.code;
    assert(((((code >> 8) as u8) as u16) << 8) | (((code as u8)) as u16) == code) by (bit_vector);
    lemma_varint_round_trip(l, c.reason);
    assert(e.skip(2) =~= el + c.reason);
    let n = varint_len(l);
    assert(e.skip(2 + n) =~= c.reason);
    assert(c.reason.take(l as int) =~= c.reason);
    assert(e.len() == 2 + n + l);
}

/// Tail of the stream-frame round trip: from the length field on.
proof fn lemma_stream_round_trip_body(s: StreamFrameV, consumed0: int)
    requires
        stream_valid(s),
    ensures
        stream_dec_body(
            stream_flags(s),
            s.id,
            s.offset,
            (match s.len {
                Some(l) => varint_enc(l),
                None => Seq::<u8>::empty(),
            }) + s.data,
            consumed0,
        ) == Some(
            (
                s,
                consumed0 + (match s.len {
                    Some(l) => varint_len(l),
                    None => 0int,
                }) + s.data.len(),
            ),
        ),
{
    lemma_stream_flags(s);
    let fl = stream_flags(s);
    let s2: Seq<u8> = (match s.len {
        Some(l) => varint_enc(l),
        None => Seq::<u8>::empty(),
    }) + s.data;
    match s.len {
        Some(l) => {
            lemma_varint_enc_len(l);
            lemma_varint_round_trip(l, s.data);
            let n3 = varint_len(l);
            assert(s2.skip(n3) =~= s.data);
            assert(s.data.take(l as int) =~= s.data);
            assert(stream_dec_body(fl, s.id, s.offset, s2, consumed0) == Some(
                (s, consumed0 + n3 + l),
            ));
        },
        None => {
            assert(s2 =~= s.data);
            assert(stream_dec_body(fl, s.id, s.offset, s2, consumed0) == Some(
                (s, consumed0 + s.data.len()),
            ));
        },
    }
}

/// Peeling the header of a stream frame with an explicit offset: the type
/// byte, the id, and the offset, leaving the length field and the data.
#[verifier::rlimit(100)]
proof fn lemma_stream_peel_with_offset(s: StreamFrameV)
    requires
        stream_valid(s),
        s.offset > 0,
    ensures
        ({
            let n1 = varint_len(s.id);
            let n2 = varint_len(s.offset);
            let e = stream_enc(s);
            let s2 = (match s.len {
                Some(l) => varint_enc(l),
                None => Seq::<u8>::empty(),
            }) + s.data;
            &&& e.len() == 1 + n1 + n2 + s2.len()
            &&& e.len() >= 1
            &&& e[0] == stream_flags(s)
            &&& varint_dec(e.skip(1)) == Some((s.id, n1))
            &&& varint_dec(e.skip(1 + n1)) == Some((s.offset, n2))
            &&& e.skip(1 + n1 + n2) == s2
        }),
{
    let e = stream_enc(s);
    let fl = stream_flags(s);
    let eid = varint_enc(s.id);
    let eoff = varint_enc(s.offset);
    let elen: Seq<u8> = match s.len {
        Some(l) => varint_enc(l),
        None => Seq::empty(),
    };
    lemma_varint_enc_len(s.id);
    lemma_varint_enc_len(s.offset);
    assert(e =~= seq![fl] + (eid + (eoff + (elen + s.data))));
    assert(e[0] == fl);
    lemma_varint_round_trip(s.id, eoff + (elen + s.data));
    let n1 = varint_len(s.id);
    assert(e.skip(1) =~= eid + (eoff + (elen + s.data)));
    lemma_varint_round_trip(s.offset, elen + s.data);
    let n2 = varint_len(s.offset);
    assert(e.skip(1 + n1) =~= eoff + (elen + s.data));
    assert(e.skip(1 + n1 + n2) =~= elen + s.data);
}

/// Stream-frame round trip when the offset is explicit on the wire.
#[verifier::rlimit(100)]
proof fn lemma_stream_round_trip_with_offset(s: StreamFrameV)
    requires
        stream_valid(s),
        s.offset > 0,
    ensures
        stream_dec(stream_enc(s)) == Some((s, stream_enc(s).len() as int)),
{
    match s.len {
        Some(l) => lemma_varint_enc_len(l),
        None => (),
    }
    lemma_stream_peel_with_offset(s);
    lemma_stream_flags(s);
    let n1 = varint_len(s.id);
    let n2 = varint_len(s.offset);
    lemma_stream_round_trip_body(s, 1 + n1 + n2);
}

/// Peeling the header of a stream frame whose offset stays off the wire: the
/// type byte and the id, leaving the length field and the data.
#[verifier::rlimit(100)]
proof fn lemma_stream_peel_no_offset(s: StreamFrameV)
    requires
        stream_valid(s),
        s.offset == 0,
    ensures
        ({
            let n1 = varint_len(s.id);
            let e = stream_enc(s);
            let s2 = (match s.len {
                Some(l) => varint_enc(l),
                None => Seq::<u8>::empty(),
            }) + s.data;
            &&& e.len() == 1 + n1 + s2.len()
            &&& e.len() >= 1
            &&& e[0] == stream_flags(s)
            &&& (stream_flags(s) / 4) % 2 != 1
            &&& varint_dec(e.skip(1)) == Some((s.id, n1))
            &&& e.skip(1 + n1) == s2
        }),
{
    lemma_stream_flags(s);
    let e = stream_enc(s);
    let fl = stream_flags(s);
    let eid = varint_enc(s.id);
    let elen: Seq<u8> = match s.len {
        Some(l) => varint_enc(l),
        None => Seq::empty(),
    };
    lemma_varint_enc_len(s.id);
    assert(e =~= seq![fl] + (eid + (elen + s.data)));
    assert(e[0] == fl);
    lemma_varint_round_trip(s.id, elen + s.data);
    let n1 = varint_len(s.id);
    assert(e.skip(1) =~= eid + (elen + s.data));
    assert(e.skip(1 + n1) =~= elen + s.data);
}

/// Unfolding of `stream_dec` when the offset flag is clear.
proof fn lemma_stream_dec_unfold_no_offset(t: Seq<u8>, id: u64, n1: int)
    requires
        t.len() >= 1,
        (t[0] / 4) % 2 != 1,
        varint_dec(t.skip(1)) == Some((id, n1)),
    ensures
        stream_dec(t) == stream_dec_body(t[0], id, 0, t.skip(1 + n1), 1 + n1),
{
}

/// Stream-frame round trip when the offset is zero and stays off the wire.
#[verifier::rlimit(100)]
proof fn lemma_stream_round_trip_no_offset(s: StreamFrameV)
    requires
        stream_valid(s),
        s.offset == 0,
    ensures
        stream_dec(stream_enc(s)) == Some((s, stream_enc(s).len() as int)),
{
    let e = stream_enc(s);
    let n1 = varint_len(s.id);
    match s.len {
        Some(l) => lemma_varint_enc_len(l),
        None => (),
    }
    lemma_stream_peel_no_offset(s);
    lemma_stream_dec_unfold_no_offset(e, s.id, n1);
    lemma_stream_round_trip_body(s, 1 + n1);
}

/// Decoding the exact wire form of a valid stream frame yields it back and
/// consumes every byte.
proof fn lemma_stream_round_trip(s: StreamFrameV)
    requires
        stream_valid(s),
    ensures
        stream_dec(stream_enc(s)) == Some((s, stream_enc(s).len() as int)),
{
    if s.offset > 0 {
        lemma_stream_round_trip_with_offset(s);
    } else {
        lemma_stream_round_trip_no_offset(s);
    }
}

/// One step of block decoding, unfolded: the head varint, then the rest.
proof fn lemma_ack_blocks_dec_step(s: Seq<u8>, n: int, idx: int)
    requires
        n >= 1,
        varint_dec(s) is Some,
    ensures
        ({
            let (v, c0) = varint_dec(s).unwrap();
            ack_blocks_dec(s, n, idx) == match ack_blocks_dec(s.skip(c0), n - 1, idx + 1) {
                None => None::<(Seq<Ack>, int)>,
                Some((bs, cc)) => Some((seq![mk_block(idx, v)] + bs, c0 + cc)),
            }
        }),
{
}

/// When the head varint is unreadable, no block sequence decodes.
proof fn lemma_ack_blocks_dec_fail(s: Seq<u8>, n: int, idx: int)
    requires
        n >= 1,
        varint_dec(s) is None,
    ensures
        ack_blocks_dec(s, n, idx) is None,
{
}

/// Decoding the exact wire form of a valid acknowledgment frame yields it
/// back and consumes every byte.
#[verifier::rlimit(100)]
proof fn lemma_ack_round_trip(a: AckFrameV)
    requires
        ack_valid(a),
    ensures
        ack_dec(ack_enc(a)) == Some((a, ack_enc(a).len() as int)),
{
    let e = ack_enc(a);
    let lv = a.largest as u64;
    let cnt = (a.blocks.len() - 1) as u64;
    let e1 = varint_enc(lv);
    let e2 = varint_enc(a.ack_delay);
    let e3 = varint_enc(cnt);
    let eb = ack_blocks_enc(a.blocks);
    lemma_varint_enc_len(lv);
    lemma_varint_enc_len(a.ack_delay);
    lemma_varint_enc_len(cnt);
    let n1 = varint_len(lv);
    let n2 = varint_len(a.ack_delay);
    let n3 = varint_len(cnt);
    assert(e =~= seq![0x0du8] + (e1 + (e2 + (e3 + eb))));
    assert(e[0] == 0x0d);
    lemma_varint_round_trip(lv, e2 + (e3 + eb));
    assert(e.skip(1) =~= e1 + (e2 + (e3 + eb)));
    assert(e.skip(1).skip(n1) =~= e2 + (e3 + eb));
    assert(e.skip(1 + n1) =~= e2 + (e3 + eb));
    lemma_varint_round_trip(a.ack_delay, e3 + eb);
    assert(e.skip(1 + n1 + n2) =~= e3 + eb);
    lemma_varint_round_trip(cnt, eb);
    assert(e.skip(1 + n1 + n2 + n3) =~= eb);
    assert(eb =~= eb + Seq::<u8>::empty());
    lemma_ack_blocks_round_trip(a.blocks, 0, Seq::<u8>::empty());
    assert(cnt + 1 == a.blocks.len());
    assert((lv as u32) == a.largest);
    assert(e.len() == 1 + n1 + n2 + n3 + eb.len());
}

/// Decoding the exact wire form of a valid frame yields the frame back and
/// consumes every byte.
pub proof fn lemma_frame_round_trip(f: FrameV)
    requires
        frame_valid(f),
    ensures
        frame_dec(frame_enc(f)) == Some((f, frame_enc(f).len() as int)),
{
    let e = frame_enc(f);
    match f {
        FrameV::Ping => {
            assert(e[0] == 0x07);
        },
        FrameV::Padding(n) => {
            assert(e.len() == n);
            assert(forall|i: int| 0 <= i < n ==> e[i] == 0);
            assert(e[0] == 0);
            lemma_zero_run(e, n as int);
        },
        FrameV::PathChallenge(p) => {
            assert(e =~= seq![0x0eu8] + p);
            assert(e[0] == 0x0e);
            assert(e.len() == 9);
            assert(e.subrange(1, 9) =~= p);
        },
        FrameV::PathResponse(p) => {
            assert(e =~= seq![0x0fu8] + p);
            assert(e[0] == 0x0f);
            assert(e.len() == 9);
            assert(e.subrange(1, 9) =~= p);
        },
        FrameV::StreamIdBlocked(id) => {
            assert(e[0] == 0x0a);
            lemma_varint_enc_len(id);
            lemma_varint_round_trip(id, Seq::<u8>::empty());
            assert(varint_enc(id) + Seq::<u8>::empty() =~= varint_enc(id));
            assert(e.skip(1) =~= varint_enc(id));
        },
        FrameV::ConnectionClose(c) => {
            lemma_close_round_trip(c);
            assert(e[0] == 0x02);
            assert(e.skip(1) =~= close_enc(c));
        },
        FrameV::ApplicationClose(c) => {
            lemma_close_round_trip(c);
            assert(e[0] == 0x03);
            assert(e.skip(1) =~= close_enc(c));
        },
        FrameV::Stream(s) => {
            lemma_stream_round_trip(s);
            lemma_stream_flags(s);
            assert(e[0] == stream_flags(s));
        },
        FrameV::Ack(a) => {
            lemma_ack_round_trip(a);
            assert(e[0] == 0x0d);
        },
    }
}

/// A buffer of `k` zero bytes followed by a non-zero byte decodes as a
/// padding frame of length `k`, leaving the non-zero byte unread.
pub proof fn lemma_padding_run(s: Seq<u8>, k: int)
    requires
        1 <= k <= usize::MAX,
        k < s.len(),
        forall|i: int| 0 <= i < k ==> s[i] == 0,
        s[k] != 0,
    ensures
        frame_dec(s) == Some((FrameV::Padding(k as usize), k)),
{
    lemma_zero_run(s, k);
    assert(s[0] == 0);
}

/// Whether two byte vectors hold the same bytes.
fn bytes_eq(a: &Vec<u8>, b: &Vec<u8>) -> (r: bool)
    ensures
        r == (a@ == b@),
{
    if a.len() != b.len() {
        return false;
    }
    let mut i: usize = 0;
    while i < a.len()
        invariant
            i <= a.len(),
            a@.len() == b@.len(),
            forall|j: int| 0 <= j < i ==> a@[j] == b@[j],
        decreases a.len() - i,
    {
        if a[i] != b[i] {
            return false;
        }
        i = i + 1;
    }
    proof {
        assert(a@ =~= b@);
    }
    true
}

/// Whether two block vectors hold the same blocks.
fn blocks_eq(a: &Vec<Ack>, b: &Vec<Ack>) -> (r: bool)
    ensures
        r == (a@ == b@),
{
    if a.len() != b.len() {
        return false;
    }
    let mut i: usize = 0;
    while i < a.len()
        invariant
            i <= a.len(),
            a@.len() == b@.len(),
            forall|j: int| 0 <= j < i ==> a@[j] == b@[j],
        decreases a.len() - i,
    {
        if a[i] != b[i] {
            return false;
        }
        i = i + 1;
    }
    proof {
        assert(a@ =~= b@);
    }
    true
}

impl PartialEq for StreamFrame {
    fn eq(&self, other: &StreamFrame) -> (r: bool) {
        let len_eq = match (self.len, other.len) {
            (Some(a), Some(b)) => a == b,
            (None, None) => true,
            _ => false,
        };
        let r = self.id == other.id && self.fin == other.fin && self.offset == other.offset
            && len_eq && bytes_eq(&self.data, &other.data);
        proof {
            if r {
                assert(self@ =~= other@);
            }
        }
        r
    }
}

impl vstd::std_specs::cmp::PartialEqSpecImpl for StreamFrame {
    open spec fn obeys_eq_spec() -> bool {
        true
    }

    open spec fn eq_spec(&self, other: &StreamFrame) -> bool {
        self@ == other@
    }
}

impl PartialEq for AckFrame {
    fn eq(&self, other: &AckFrame) -> (r: bool) {
        let r = self.largest == other.largest && self.ack_delay == other.ack_delay && blocks_eq(
            &self.blocks,
            &other.blocks,
        );
        proof {
            if r {
                assert(self@ =~= other@);
            }
        }
        r
    }
}

impl vstd::std_specs::cmp::PartialEqSpecImpl for AckFrame {
    open spec fn obeys_eq_spec() -> bool {
        true
    }

    open spec fn eq_spec(&self, other: &AckFrame) -> bool {
        self@ == other@
    }
}

impl PartialEq for CloseFrame {
    fn eq(&self, other: &CloseFrame) -> (r: bool) {
        let r = self.code == other.code && bytes_eq(&self.reason, &other.reason);
        proof {
            if r {
                assert(self@ =~= other@);
            }
        }
        r
    }
}

impl vstd::std_specs::cmp::PartialEqSpecImpl for CloseFrame {
    open spec fn obeys_eq_spec() -> bool {
        true
    }

    open spec fn eq_spec(&self, other: &CloseFrame) -> bool {
        self@ == other@
    }
}

impl PartialEq for PathFrame {
    fn eq(&self, other: &PathFrame) -> (r: bool) {
        let mut i: usize = 0;
        let mut same: bool = true;
        while i < 8
            invariant
                i <= 8,
                same == (forall|j: int| 0 <= j < i ==> self.0@[j] == other.0@[j]),
            decreases 8 - i,
        {
            if self.0[i] != other.0[i] {
                same = false;
            }
            i = i + 1;
        }
        proof {
            if same {
                assert(self.0@ =~= other.0@);
            } else {
                assert(self.0@ != other.0@);
            }
        }
        same
    }
}

impl vstd::std_specs::cmp::PartialEqSpecImpl for PathFrame {
    open spec fn obeys_eq_spec() -> bool {
        true
    }

    open spec fn eq_spec(&self, other: &PathFrame) -> bool {
        self.0@ == other.0@
    }
}

impl PartialEq for Frame {
    fn eq(&self, other: &Frame) -> (r: bool) {
        match (self, other) {
            (Frame::Ack(a), Frame::Ack(b)) => a == b,
            (Frame::ApplicationClose(a), Frame::ApplicationClose(b)) => a == b,
            (Frame::ConnectionClose(a), Frame::ConnectionClose(b)) => a == b,
            (Frame::Padding(a), Frame::Padding(b)) => a == b,
            (Frame::PathChallenge(a), Frame::PathChallenge(b)) => a == b,
            (Frame::PathResponse(a), Frame::PathResponse(b)) => a == b,
            (Frame::Ping, Frame::Ping) => true,
            (Frame::Stream(a), Frame::Stream(b)) => a == b,
            (Frame::StreamIdBlocked(a), Frame::StreamIdBlocked(b)) => a == b,
            _ => false,
        }
    }
}

impl vstd::std_specs::cmp::PartialEqSpecImpl for Frame {
    open spec fn obeys_eq_spec() -> bool {
        true
    }

    open spec fn eq_spec(&self, other: &Frame) -> bool {
        self@ == other@
    }
}

/// Append the bytes of `data` to `buf`.
fn append_bytes(buf: &mut Vec<u8>, data: &Vec<u8>)
    ensures
        final(buf)@ == old(buf)@ + data@,
{
    let mut i: usize = 0;
    while i < data.len()
        invariant
            i <= data.len(),
            buf@ =~= old(buf)@ + data@.take(i as int),
        decreases data.len() - i,
    {
        let b = data[i];
        proof {
            assert(data@.take(i + 1) =~= data@.take(i as int).push(b));
        }
        buf.push(b);
        i = i + 1;
    }
    proof {
        assert(data@.take(data@.len() as int) =~= data@);
        assert(buf@ =~= old(buf)@ + data@);
    }
}

/// Relies on `std::str::from_utf8`: it accepts exactly the byte sequences
/// that are valid UTF-8, as `vstd::utf8::valid_utf8` defines them.
#[verifier::external_body]
fn utf8_check(b: &Vec<u8>) -> (r: bool)
    ensures
        r == vstd::utf8::valid_utf8(b@),
{
    std::str::from_utf8(b).is_ok()
}

impl StreamFrame {
    /// Exact number of bytes `encode` appends.
    pub fn buf_len(&self) -> (r: usize)
        requires
            stream_valid(self@),
            stream_enc(self@).len() <= usize::MAX,
        ensures
            r == stream_enc(self@).len(),
    {
        proof {
            lemma_varint_enc_len(self.id);
        }
        let mut n: usize = 1 + varint_buf_len(self.id);
        if self.offset > 0 {
            proof {
                lemma_varint_enc_len(self.offset);
            }
            n = n + varint_buf_len(self.offset);
        }
        if let Some(l) = self.len {
            proof {
                lemma_varint_enc_len(l);
            }
            n = n + varint_buf_len(l);
        }
        n + self.data.len()
    }

    /// Append the wire form of the frame, type byte included.
    pub fn encode(&self, buf: &mut Vec<u8>)
        requires
            stream_valid(self@),
        ensures
            final(buf)@ == old(buf)@ + stream_enc(self@),
    {
        let has_offset: u8 = if self.offset > 0 {
            0x04
        } else {
            0
        };
        let has_len: u8 = if self.len.is_some() {
            0x02
        } else {
            0
        };
        let is_fin: u8 = if self.fin {
            0x01
        } else {
            0
        };
        let first: u8 = 0x10 + has_offset + has_len + is_fin;
        proof {
            assert(first == stream_flags(self@));
        }
        buf.push(first);
        varint_encode(self.id, buf);
        if self.offset > 0 {
            varint_encode(self.offset, buf);
        }
        if let Some(l) = self.len {
            varint_encode(l, buf);
        }
        append_bytes(buf, &self.data);
        proof {
            assert(buf@ =~= old(buf)@ + stream_enc(self@));
        }
    }

    /// Parse a stream frame at the cursor, its type byte included.
    #[verifier::rlimit(100)]
    pub fn decode(c: &mut Cursor) -> (r: Result<StreamFrame, DecodeError>)
        requires
            old(c).wf(),
            old(c).rem().len() >= 1,
        ensures
            final(c).wf(),
            final(c).data@ == old(c).data@,
            match r {
                Ok(f) => stream_dec(old(c).rem()) == Some((f@, final(c).pos - old(c).pos)),
                Err(_) => stream_dec(old(c).rem()) is None,
            },
    {
        let ghost rem = old(c).rem();
        let ghost p0 = old(c).pos;
        let first = match c.read_u8() {
            Some(b) => b,
            None => {
                return Err(DecodeError);
            },
        };
        proof {
            assert(first == rem[0]);
            assert(c.rem() =~= rem.skip(1));
        }
        let id = match varint_decode(c) {
            Some(v) => v,
            None => {
                return Err(DecodeError);
            },
        };
        let ghost n1 = c.pos - p0 - 1;
        proof {
            assert(c.rem() =~= rem.skip(1 + n1));
        }
        let offset: u64 = if (first / 4) % 2 == 1 {
            match varint_decode(c) {
                Some(v) => v,
                None => {
                    return Err(DecodeError);
                },
            }
        } else {
            0
        };
        let ghost consumed0 = c.pos - p0;
        proof {
            assert(c.rem() =~= rem.skip(consumed0));
        }
        let ghost s2 = c.rem();
        if (first / 2) % 2 == 1 {
            let l = match varint_decode(c) {
                Some(v) => v,
                None => {
                    return Err(DecodeError);
                },
            };
            let ghost n3 = c.pos - p0 - consumed0;
            proof {
                assert(c.rem() =~= s2.skip(n3));
            }
            let rest = c.remaining();
            if (rest as u64) < l {
                proof {
                    assert(s2.skip(n3).len() < l);
                }
                return Err(DecodeError);
            }
            let d = match c.read_bytes(l as usize) {
                Some(d) => d,
                None => {
                    proof {
                        assert(false);
                    }
                    return Err(DecodeError);
                },
            };
            let f = StreamFrame { id, fin: first % 2 == 1, offset, len: Some(l), data: d };
            proof {
                assert(f@.data =~= s2.skip(n3).take(l as int));
                assert(stream_dec(rem) == Some((f@, c.pos - p0)));
            }
            Ok(f)
        } else {
            let n = c.remaining();
            let d = match c.read_bytes(n) {
                Some(d) => d,
                None => {
                    proof {
                        assert(false);
                    }
                    return Err(DecodeError);
                },
            };
            let f = StreamFrame { id, fin: first % 2 == 1, offset, len: None, data: d };
            proof {
                assert(f@.data =~= s2);
                assert(stream_dec(rem) == Some((f@, c.pos - p0)));
            }
            Ok(f)
        }
    }
}

impl AckFrame {
    /// Exact number of bytes `encode` appends.
    pub fn buf_len(&self) -> (r: usize)
        requires
            ack_valid(self@),
            ack_enc(self@).len() <= usize::MAX,
        ensures
            r == ack_enc(self@).len(),
    {
        proof {
            lemma_varint_enc_len(self.largest as u64);
            lemma_varint_enc_len(self.ack_delay);
            lemma_varint_enc_len((self.blocks@.len() - 1) as u64);
        }
        let mut n: usize = 1 + varint_buf_len(self.largest as u64) + varint_buf_len(self.ack_delay)
            + varint_buf_len((self.blocks.len() - 1) as u64);
        let ghost header = n as int;
        let mut i: usize = 0;
        while i < self.blocks.len()
            invariant
                ack_valid(self@),
                ack_enc(self@).len() <= usize::MAX,
                i <= self.blocks@.len(),
                n == header + ack_blocks_enc(self.blocks@.take(i as int)).len(),
                header + ack_blocks_enc(self.blocks@).len() == ack_enc(self@).len(),
            decreases self.blocks@.len() - i,
        {
            proof {
                lemma_ack_blocks_enc_snoc(self.blocks@, i as int);
                lemma_ack_blocks_enc_split(self.blocks@, i + 1);
                lemma_varint_enc_len(self.blocks@[i as int].value_spec());
            }
            n = n + varint_buf_len(self.blocks[i].value());
            i = i + 1;
        }
        proof {
            assert(self.blocks@.take(self.blocks@.len() as int) =~= self.blocks@);
        }
        n
    }

    /// Append the wire form of the frame, type byte included.
    pub fn encode(&self, buf: &mut Vec<u8>)
        requires
            ack_valid(self@),
        ensures
            final(buf)@ == old(buf)@ + ack_enc(self@),
    {
        buf.push(0x0d);
        varint_encode(self.largest as u64, buf);
        varint_encode(self.ack_delay, buf);
        varint_encode((self.blocks.len() - 1) as u64, buf);
        let ghost header = buf@;
        let mut i: usize = 0;
        while i < self.blocks.len()
            invariant
                ack_valid(self@),
                i <= self.blocks@.len(),
                buf@ =~= header + ack_blocks_enc(self.blocks@.take(i as int)),
            decreases self.blocks@.len() - i,
        {
            proof {
                lemma_ack_blocks_enc_snoc(self.blocks@, i as int);
            }
            varint_encode(self.blocks[i].value(), buf);
            i = i + 1;
        }
        proof {
            assert(self.blocks@.take(self.blocks@.len() as int) =~= self.blocks@);
            assert(buf@ =~= old(buf)@ + ack_enc(self@));
        }
    }

    /// Parse an acknowledgment frame at the cursor, its type byte included.
    #[verifier::rlimit(100)]
    pub fn decode(c: &mut Cursor) -> (r: Result<AckFrame, DecodeError>)
        requires
            old(c).wf(),
            old(c).rem().len() >= 1,
        ensures
            final(c).wf(),
            final(c).data@ == old(c).data@,
            match r {
                Ok(f) => ack_dec(old(c).rem()) == Some((f@, final(c).pos - old(c).pos)),
                Err(_) => ack_dec(old(c).rem()) is None,
            },
    {
        let ghost rem = old(c).rem();
        let ghost p0 = old(c).pos;
        let _first = match c.read_u8() {
            Some(b) => b,
            None => {
                return Err(DecodeError);
            },
        };
        proof {
            assert(c.rem() =~= rem.skip(1));
        }
        let largest = match varint_decode(c) {
            Some(v) => v,
            None => {
                return Err(DecodeError);
            },
        };
        let ghost n1 = c.pos - p0 - 1;
        proof {
            assert(c.rem() =~= rem.skip(1 + n1));
        }
        let ack_delay = match varint_decode(c) {
            Some(v) => v,
            None => {
                return Err(DecodeError);
            },
        };
        let ghost n2 = c.pos - p0 - 1 - n1;
        proof {
            assert(c.rem() =~= rem.skip(1 + n1 + n2));
        }
        let count = match varint_decode(c) {
            Some(v) => v,
            None => {
                return Err(DecodeError);
            },
        };
        let ghost n3 = c.pos - p0 - 1 - n1 - n2;
        proof {
            assert(c.rem() =~= rem.skip(1 + n1 + n2 + n3));
        }
        let ghost brem = c.rem();
        let ghost bpos = c.pos;
        let ghost total = count + 1;
        let total_exec: u64 = count + 1;
        let mut blocks: Vec<Ack> = Vec::new();
        let mut i: u64 = 0;
        while i < total_exec
            invariant
                c.wf(),
                c.data@ == old(c).data@,
                bpos <= c.pos <= c.data@.len(),
                rem == old(c).rem(),
                p0 == old(c).pos,
                varint_dec(rem.skip(1)) == Some((largest, n1)),
                varint_dec(rem.skip(1 + n1)) == Some((ack_delay, n2)),
                varint_dec(rem.skip(1 + n1 + n2)) == Some((count, n3)),
                brem == rem.skip(1 + n1 + n2 + n3),
                brem == old(c).data@.skip(bpos as int),
                count < VARINT_MAX,
                total == count + 1,
                total == total_exec,
                i <= total,
                blocks@.len() == i,
                ack_blocks_dec(brem, total as int, 0) == (match ack_blocks_dec(
                    c.rem(),
                    total - i,
                    i as int,
                ) {
                    None => None::<(Seq<Ack>, int)>,
                    Some((bs, cc)) => Some((blocks@ + bs, (c.pos - bpos) + cc)),
                }),
            decreases total - i,
        {
            let ghost cur = c.rem();
            let ghost cpos = c.pos;
            let v = match varint_decode(c) {
                Some(v) => v,
                None => {
                    proof {
                        lemma_ack_blocks_dec_fail(cur, total - i, i as int);
                        assert(ack_blocks_dec(brem, total, 0) is None);
                        assert(ack_dec(rem) is None);
                    }
                    return Err(DecodeError);
                },
            };
            let ghost cc0 = c.pos - cpos;
            proof {
                assert(c.rem() =~= cur.skip(cc0));
            }
            let b = if i % 2 == 0 {
                Ack::Ack(v)
            } else {
                Ack::Gap(v)
            };
            proof {
                assert(b == mk_block(i as int, v));
            }
            let ghost prev = blocks@;
            let ghost iprev = i;
            blocks.push(b);
            i = i + 1;
            proof {
                assert(varint_dec(cur) == Some((v, cc0)));
                assert(cur.skip(cc0) == c.rem());
                assert(total - iprev - 1 == total - i);
                assert(iprev + 1 == i as int);
                lemma_ack_blocks_dec_step(cur, total - iprev, iprev as int);
                let rest_opt = ack_blocks_dec(c.rem(), total - i, i as int);
                match rest_opt {
                    Some((bs2, cc2)) => {
                        assert(ack_blocks_dec(cur, total - iprev, iprev as int) == Some(
                            (seq![b] + bs2, cc0 + cc2),
                        ));
                        assert(prev + (seq![b] + bs2) =~= blocks@ + bs2);
                    },
                    None => {
                        assert(ack_blocks_dec(cur, total - iprev, iprev as int) is None);
                    },
                }
            }
        }
        proof {
            assert(ack_blocks_dec(c.rem(), 0, i as int) == Some((Seq::<Ack>::empty(), 0int)));
            assert(blocks@ + Seq::<Ack>::empty() =~= blocks@);
        }
        let f = AckFrame { largest: #[verifier::truncate] (largest as u32), ack_delay, blocks };
        proof {
            assert(ack_dec(rem) == Some((f@, c.pos - p0)));
        }
        Ok(f)
    }
}

impl CloseFrame {
    /// Exact number of bytes `encode` appends; the enclosing variant's type
    /// byte is not counted.
    pub fn buf_len(&self) -> (r: usize)
        requires
            close_valid(self@),
            close_enc(self@).len() <= usize::MAX,
        ensures
            r == close_enc(self@).len(),
    {
        proof {
            lemma_varint_enc_len(self.reason@.len() as u64);
        }
        2 + varint_buf_len(self.reason.len() as u64) + self.reason.len()
    }

    /// Append the wire form of the frame body; the enclosing variant writes
    /// the type byte.
    pub fn encode(&self, buf: &mut Vec<u8>)
        requires
            close_valid(self@),
        ensures
            final(buf)@ == old(buf)@ + close_enc(self@),
    {
        buf.push((self.code >> 8) as u8);
        buf.push(self.code as u8);
        varint_encode(self.reason.len() as u64, buf);
        append_bytes(buf, &self.reason);
        proof {
            assert(buf@ =~= old(buf)@ + close_enc(self@));
        }
    }

    /// Parse a close frame body at the cursor; the enclosing variant has
    /// already consumed the type byte.
    pub fn decode(c: &mut Cursor) -> (r: Result<CloseFrame, DecodeError>)
        requires
            old(c).wf(),
        ensures
            final(c).wf(),
            final(c).data@ == old(c).data@,
            match r {
                Ok(f) => close_dec(old(c).rem()) == Some((f@, final(c).pos - old(c).pos)),
                Err(_) => close_dec(old(c).rem()) is None,
            },
    {
        let ghost rem = old(c).rem();
        let ghost p0 = old(c).pos;
        let b0 = match c.read_u8() {
            Some(b) => b,
            None => {
                return Err(DecodeError);
            },
        };
        let b1 = match c.read_u8() {
            Some(b) => b,
            None => {
                return Err(DecodeError);
            },
        };
        proof {
            assert(b0 == rem[0] && b1 == rem[1]);
            assert(c.rem() =~= rem.skip(2));
        }
        let code: u16 = ((b0 as u16) << 8) | (b1 as u16);
        let l = match varint_decode(c) {
            Some(v) => v,
            None => {
                return Err(DecodeError);
            },
        };
        let ghost n = c.pos - p0 - 2;
        proof {
            assert(c.rem() =~= rem.skip(2 + n));
        }
        let rest = c.remaining();
        if (rest as u64) < l {
            return Err(DecodeError);
        }
        let d = match c.read_bytes(l as usize) {
            Some(d) => d,
            None => {
                proof {
                    assert(false);
                }
                return Err(DecodeError);
            },
        };
        if !utf8_check(&d) {
            return Err(DecodeError);
        }
        let f = CloseFrame { code, reason: d };
        proof {
            assert(f@.reason =~= rem.skip(2 + n).take(l as int));
            assert(close_dec(rem) == Some((f@, c.pos - p0)));
        }
        Ok(f)
    }
}

impl PathFrame {
    /// Exact number of bytes `encode` appends; the enclosing variant's type
    /// byte is not counted.
    pub fn buf_len(&self) -> (r: usize)
        ensures
            r == self.0@.len(),
    {
        8
    }

    /// Append the 8 payload bytes; the enclosing variant writes the type
    /// byte.
    pub fn encode(&self, buf: &mut Vec<u8>)
        ensures
            final(buf)@ == old(buf)@ + self.0@,
    {
        let mut i: usize = 0;
        while i < 8
            invariant
                i <= 8,
                buf@ =~= old(buf)@ + self.0@.take(i as int),
            decreases 8 - i,
        {
            let b = self.0[i];
            proof {
                assert(self.0@.take(i + 1) =~= self.0@.take(i as int).push(b));
            }
            buf.push(b);
            i = i + 1;
        }
        proof {
            assert(self.0@.take(8) =~= self.0@);
        }
    }

    /// Parse the 8 payload bytes at the cursor; the enclosing variant has
    /// already consumed the type byte.
    pub fn decode(c: &mut Cursor) -> (r: Result<PathFrame, DecodeError>)
        requires
            old(c).wf(),
        ensures
            final(c).wf(),
            final(c).data@ == old(c).data@,
            match r {
                Ok(f) => {
                    &&& old(c).rem().len() >= 8
                    &&& f.0@ == old(c).rem().take(8)
                    &&& final(c).pos == old(c).pos + 8
                },
                Err(_) => old(c).rem().len() < 8 && final(c).pos == old(c).pos,
            },
    {
        let d = match c.read_bytes(8) {
            Some(d) => d,
            None => {
                return Err(DecodeError);
            },
        };
        let bytes: [u8; 8] = [d[0], d[1], d[2], d[3], d[4], d[5], d[6], d[7]];
        let f = PathFrame(bytes);
        proof {
            assert(f.0@ =~= old(c).rem().take(8));
        }
        Ok(f)
    }
}

impl StreamIdBlockedFrame {
    /// Exact number of bytes `encode` appends; the enclosing variant's type
    /// byte is not counted.
    pub fn buf_len(&self) -> (r: usize)
        requires
            self.0 < VARINT_MAX,
        ensures
            r == varint_enc(self.0).len(),
    {
        proof {
            lemma_varint_enc_len(self.0);
        }
        varint_buf_len(self.0)
    }

    /// Append the blocked stream identifier; the enclosing variant writes the
    /// type byte.
    pub fn encode(&self, buf: &mut Vec<u8>)
        requires
            self.0 < VARINT_MAX,
        ensures
            final(buf)@ == old(buf)@ + varint_enc(self.0),
    {
        varint_encode(self.0, buf)
    }

    /// Parse the blocked stream identifier; the enclosing variant has already
    /// consumed the type byte.
    pub fn decode(c: &mut Cursor) -> (r: Result<StreamIdBlockedFrame, DecodeError>)
        requires
            old(c).wf(),
        ensures
            final(c).wf(),
            final(c).data@ == old(c).data@,
            match r {
                Ok(f) => varint_dec(old(c).rem()) == Some((f.0, final(c).pos - old(c).pos)),
                Err(_) => varint_dec(old(c).rem()) is None,
            },
    {
        match varint_decode(c) {
            Some(v) => Ok(StreamIdBlockedFrame(v)),
            None => Err(DecodeError),
        }
    }
}

impl PaddingFrame {
    /// Exact number of bytes `encode` appends.
    pub fn buf_len(&self) -> (r: usize)
        ensures
            r == self.0,
    {
        self.0
    }

    /// Append the run of zero bytes, the type byte among them.
    pub fn encode(&self, buf: &mut Vec<u8>)
        requires
            old(buf)@.len() + self.0 <= usize::MAX,
        ensures
            final(buf)@ == old(buf)@ + Seq::new(self.0 as nat, |i: int| 0u8),
    {
        let mut i: usize = 0;
        while i < self.0
            invariant
                i <= self.0,
                buf@ =~= old(buf)@ + Seq::new(i as nat, |j: int| 0u8),
            decreases self.0 - i,
        {
            proof {
                assert(Seq::new((i + 1) as nat, |j: int| 0u8) =~= Seq::new(i as nat, |j: int| 0u8)
                    .push(0u8));
            }
            buf.push(0);
            i = i + 1;
        }
    }

    /// Count the zero bytes at the cursor, the type byte among them, and
    /// advance past them.
    pub fn decode(c: &mut Cursor) -> (r: PaddingFrame)
        requires
            old(c).wf(),
        ensures
            final(c).wf(),
            final(c).data@ == old(c).data@,
            r.0 == zero_run(old(c).rem()),
            final(c).pos == old(c).pos + r.0,
    {
        let ghost rem = old(c).rem();
        let total_rem = c.remaining();
        let mut count: usize = 0;
        let mut done: bool = false;
        while !done
            invariant
                c.wf(),
                c.data@ == old(c).data@,
                c.pos == old(c).pos + count,
                count <= rem.len(),
                rem == old(c).data@.skip(old(c).pos as int),
                rem.len() == total_rem,
                zero_run(rem) == count + zero_run(c.rem()),
                done ==> zero_run(c.rem()) == 0,
            decreases rem.len() - count + (if done {
                0int
            } else {
                1int
            }),
        {
            let stop = match c.peek() {
                Some(b) => b != 0,
                None => true,
            };
            if stop {
                proof {
                    assert(zero_run(c.rem()) == 0);
                }
                done = true;
            } else {
                proof {
                    assert(c.rem()[0] == 0);
                    assert(zero_run(c.rem()) == 1 + zero_run(c.rem().drop_first()));
                    assert(c.rem().drop_first() =~= old(c).data@.skip(
                        old(c).pos + count + 1,
                    ));
                }
                let _ = c.read_u8();
                count = count + 1;
            }
        }
        PaddingFrame(count)
    }
}

impl Frame {
    /// Exact number of bytes `encode` appends: the full wire size of the
    /// frame.
    pub fn buf_len(&self) -> (r: usize)
        requires
            frame_valid(self@),
            frame_enc(self@).len() <= usize::MAX,
        ensures
            r == frame_enc(self@).len(),
    {
        match self {
            Frame::Ack(f) => f.buf_len(),
            Frame::ApplicationClose(f) => 1 + f.buf_len(),
            Frame::ConnectionClose(f) => 1 + f.buf_len(),
            Frame::Padding(f) => f.buf_len(),
            Frame::PathChallenge(f) => 1 + f.buf_len(),
            Frame::PathResponse(f) => 1 + f.buf_len(),
            Frame::Ping => 1,
            Frame::Stream(f) => f.buf_len(),
            Frame::StreamIdBlocked(f) => 1 + f.buf_len(),
        }
    }

    /// Append the full wire form of the frame.
    pub fn encode(&self, buf: &mut Vec<u8>)
        requires
            frame_valid(self@),
            old(buf)@.len() + frame_enc(self@).len() <= usize::MAX,
        ensures
            final(buf)@ == old(buf)@ + frame_enc(self@),
    {
        match self {
            Frame::Ack(f) => f.encode(buf),
            Frame::ApplicationClose(f) => {
                buf.push(0x03);
                f.encode(buf);
                proof {
                    assert(buf@ =~= old(buf)@ + frame_enc(self@));
                }
            },
            Frame::ConnectionClose(f) => {
                buf.push(0x02);
                f.encode(buf);
                proof {
                    assert(buf@ =~= old(buf)@ + frame_enc(self@));
                }
            },
            Frame::Padding(f) => f.encode(buf),
            Frame::PathChallenge(f) => {
                buf.push(0x0e);
                f.encode(buf);
                proof {
                    assert(buf@ =~= old(buf)@ + frame_enc(self@));
                }
            },
            Frame::PathResponse(f) => {
                buf.push(0x0f);
                f.encode(buf);
                proof {
                    assert(buf@ =~= old(buf)@ + frame_enc(self@));
                }
            },
            Frame::Ping => {
                buf.push(0x07);
                proof {
                    assert(buf@ =~= old(buf)@ + frame_enc(self@));
                }
            },
            Frame::Stream(f) => f.encode(buf),
            Frame::StreamIdBlocked(f) => {
                buf.push(0x0a);
                f.encode(buf);
                proof {
                    assert(buf@ =~= old(buf)@ + frame_enc(self@));
                }
            },
        }
    }

    /// Parse one frame at the cursor. On success the cursor stands just past
    /// the frame; on failure the head of the buffer is not a well-formed
    /// frame and the containing packet must be treated as unparseable.
    pub fn decode(c: &mut Cursor) -> (r: Result<Frame, DecodeError>)
        requires
            old(c).wf(),
        ensures
            final(c).wf(),
            final(c).data@ == old(c).data@,
            match r {
                Ok(f) => frame_dec(old(c).rem()) == Some((f@, final(c).pos - old(c).pos)),
                Err(_) => frame_dec(old(c).rem()) is None,
            },
    {
        let ghost rem = old(c).rem();
        let ghost p0 = old(c).pos;
        let b = match c.peek() {
            Some(b) => b,
            None => {
                return Err(DecodeError);
            },
        };
        if b >= 0x10 {
            match StreamFrame::decode(c) {
                Ok(f) => Ok(Frame::Stream(f)),
                Err(e) => Err(e),
            }
        } else if b == 0x00 {
            let f = PaddingFrame::decode(c);
            Ok(Frame::Padding(f))
        } else if b == 0x02 {
            let _ = c.read_u8();
            proof {
                assert(c.rem() =~= rem.skip(1));
            }
            match CloseFrame::decode(c) {
                Ok(f) => Ok(Frame::ConnectionClose(f)),
                Err(e) => Err(e),
            }
        } else if b == 0x03 {
            let _ = c.read_u8();
            proof {
                assert(c.rem() =~= rem.skip(1));
            }
            match CloseFrame::decode(c) {
                Ok(f) => Ok(Frame::ApplicationClose(f)),
                Err(e) => Err(e),
            }
        } else if b == 0x07 {
            let _ = c.read_u8();
            Ok(Frame::Ping)
        } else if b == 0x0a {
            let _ = c.read_u8();
            proof {
                assert(c.rem() =~= rem.skip(1));
            }
            match StreamIdBlockedFrame::decode(c) {
                Ok(f) => Ok(Frame::StreamIdBlocked(f)),
                Err(e) => Err(e),
            }
        } else if b == 0x0d {
            match AckFrame::decode(c) {
                Ok(f) => Ok(Frame::Ack(f)),
                Err(e) => Err(e),
            }
        } else if b == 0x0e {
            let _ = c.read_u8();
            proof {
                assert(c.rem() =~= rem.skip(1));
            }
            match PathFrame::decode(c) {
                Ok(f) => {
                    proof {
                        assert(f.0@ =~= rem.subrange(1, 9));
                    }
                    Ok(Frame::PathChallenge(f))
                },
                Err(e) => Err(e),
            }
        } else if b == 0x0f {
            let _ = c.read_u8();
            proof {
                assert(c.rem() =~= rem.skip(1));
            }
            match PathFrame::decode(c) {
                Ok(f) => {
                    proof {
                        assert(f.0@ =~= rem.subrange(1, 9));
                    }
                    Ok(Frame::PathResponse(f))
                },
                Err(e) => Err(e),
            }
        } else {
            Err(DecodeError)
        }
    }
}

/// Encoding a stream frame whose offset is zero never sets the
/// offset-present flag bit, and decoding the result yields offset zero.
pub proof fn lemma_stream_offset_omitted(s: StreamFrameV)
    requires
        stream_valid(s),
        s.offset == 0,
    ensures
        ((frame_enc(FrameV::Stream(s))[0] / 4) % 2) == 0,
        frame_dec(frame_enc(FrameV::Stream(s))) == Some(
            (FrameV::Stream(s), frame_enc(FrameV::Stream(s)).len() as int),
        ),
{
    lemma_stream_flags(s);
    assert(frame_enc(FrameV::Stream(s))[0] == stream_flags(s));
    lemma_frame_round_trip(FrameV::Stream(s));
}

} // verus!
