use vstd::prelude::*;

use crate::cursor::Cursor;

verus! {

/// Exclusive upper bound of the variable-length integer encoding: values
/// occupy at most 62 bits on the wire.
pub const VARINT_MAX: u64 = 0x4000_0000_0000_0000;

/// Number of bytes the encoding of `v` occupies: 1, 2, 4 or 8, by magnitude.
pub open spec fn varint_len(v: u64) -> int {
    if v < 0x40 {
        1
    } else if v < 0x4000 {
        2
    } else if v < 0x4000_0000 {
        4
    } else {
        8
    }
}

/// Wire bytes of the encoding of `v`. The two top bits of the first byte give
/// the width (00, 01, 10, 11 for 1, 2, 4, 8 bytes); the remaining bits hold
/// the value, big-endian.
pub open spec fn varint_enc(v: u64) -> Seq<u8> {
    if v < 0x40 {
        seq![v as u8]
    } else if v < 0x4000 {
        seq![(0x40 | (v >> 8)) as u8, v as u8]
    } else if v < 0x4000_0000 {
        seq![(0x80 | (v >> 24)) as u8, (v >> 16) as u8, (v >> 8) as u8, v as u8]
    } else {
        seq![
            (0xc0 | (v >> 56)) as u8,
            (v >> 48) as u8,
            (v >> 40) as u8,
            (v >> 32) as u8,
            (v >> 24) as u8,
            (v >> 16) as u8,
            (v >> 8) as u8,
            v as u8,
        ]
    }
}

/// Value and width of the integer encoded at the head of `s`, or `None` when
/// `s` is too short to hold it.
pub open spec fn varint_dec(s: Seq<u8>) -> Option<(u64, int)> {
    if s.len() < 1 {
        None
    } else if s[0] < 0x40 {
        Some((s[0] as u64, 1))
    } else if s[0] < 0x80 {
        if s.len() < 2 {
            None
        } else {
            Some(((((s[0] & 0x3f) as u64) << 8) | (s[1] as u64), 2))
        }
    } else if s[0] < 0xc0 {
        if s.len() < 4 {
            None
        } else {
            Some(
                (
                    (((s[0] & 0x3f) as u64) << 24) | ((s[1] as u64) << 16) | ((s[2] as u64) << 8)
                        | (s[3] as u64),
                    4,
                ),
            )
        }
    } else {
        if s.len() < 8 {
            None
        } else {
            Some(
                (
                    (((s[0] & 0x3f) as u64) << 56) | ((s[1] as u64) << 48) | ((s[2] as u64) << 40)
                        | ((s[3] as u64) << 32) | ((s[4] as u64) << 24) | ((s[5] as u64) << 16)
                        | ((s[6] as u64) << 8) | (s[7] as u64),
                    8,
                ),
            )
        }
    }
}

/// A decoded value always fits in 62 bits, and its width never exceeds the
/// buffer it was read from.
pub proof fn lemma_varint_dec_props(s: Seq<u8>)
    ensures
        match varint_dec(s) {
            Some((v, n)) => v < VARINT_MAX && 1 <= n <= s.len(),
            None => true,
        },
{
    if s.len() >= 1 {
        let b0 = s[0];
        if b0 < 0x40 {
            assert(b0 < 0x40 ==> (b0 as u64) < 0x4000_0000_0000_0000) by (bit_vector);
        } else if b0 < 0x80 {
            if s.len() >= 2 {
                let b1 = s[1];
                assert(((((b0 & 0x3f) as u64) << 8) | (b1 as u64)) < 0x4000_0000_0000_0000)
                    by (bit_vector);
            }
        } else if b0 < 0xc0 {
            if s.len() >= 4 {
                let (b1, b2, b3) = (s[1], s[2], s[3]);
                assert(((((b0 & 0x3f) as u64) << 24) | ((b1 as u64) << 16) | ((b2 as u64) << 8) | (
                b3 as u64)) < 0x4000_0000_0000_0000) by (bit_vector);
            }
        } else {
            if s.len() >= 8 {
                let (b1, b2, b3, b4, b5, b6, b7) = (s[1], s[2], s[3], s[4], s[5], s[6], s[7]);
                assert(((((b0 & 0x3f) as u64) << 56) | ((b1 as u64) << 48) | ((b2 as u64) << 40) | (
                (b3 as u64) << 32) | ((b4 as u64) << 24) | ((b5 as u64) << 16) | ((b6 as u64) << 8)
                    | (b7 as u64)) < 0x4000_0000_0000_0000) by (bit_vector);
            }
        }
    }
}

/// Decoding the encoding of `v`, whatever follows it, gives `v` back and
/// consumes exactly its width.
pub proof fn lemma_varint_round_trip(v: u64, rest: Seq<u8>)
    requires
        v < VARINT_MAX,
    ensures
        varint_dec(varint_enc(v) + rest) == Some((v, varint_len(v))),
{
    let s = varint_enc(v) + rest;
    if v < 0x40 {
        assert(s[0] == v as u8);
        assert(v < 0x40 ==> (v as u8) < 0x40 && (v as u8) as u64 == v) by (bit_vector);
    } else if v < 0x4000 {
        assert(s[0] == (0x40 | (v >> 8)) as u8);
        assert(s[1] == v as u8);
        assert(0x40 <= v < 0x4000 ==> {
            &&& ((0x40 | (v >> 8)) as u8) >= 0x40
            &&& ((0x40 | (v >> 8)) as u8) < 0x80
            &&& (((((0x40 | (v >> 8)) as u8) & 0x3f) as u64) << 8) | ((v as u8) as u64) == v
        }) by (bit_vector);
    } else if v < 0x4000_0000 {
        assert(s[0] == (0x80 | (v >> 24)) as u8);
        assert(s[1] == (v >> 16) as u8);
        assert(s[2] == (v >> 8) as u8);
        assert(s[3] == v as u8);
        assert(0x4000 <= v < 0x4000_0000 ==> {
            &&& ((0x80 | (v >> 24)) as u8) >= 0x80
            &&& ((0x80 | (v >> 24)) as u8) < 0xc0
            &&& (((((0x80 | (v >> 24)) as u8) & 0x3f) as u64) << 24) | ((((v >> 16) as u8) as u64)
                << 16) | ((((v >> 8) as u8) as u64) << 8) | ((v as u8) as u64) == v
        }) by (bit_vector);
    } else {
        assert(s[0] == (0xc0 | (v >> 56)) as u8);
        assert(s[1] == (v >> 48) as u8);
        assert(s[2] == (v >> 40) as u8);
        assert(s[3] == (v >> 32) as u8);
        assert(s[4] == (v >> 24) as u8);
        assert(s[5] == (v >> 16) as u8);
        assert(s[6] == (v >> 8) as u8);
        assert(s[7] == v as u8);
        assert(0x4000_0000 <= v < 0x4000_0000_0000_0000 ==> {
            &&& ((0xc0 | (v >> 56)) as u8) >= 0xc0
            &&& (((((0xc0 | (v >> 56)) as u8) & 0x3f) as u64) << 56) | ((((v >> 48) as u8) as u64)
                << 48) | ((((v >> 40) as u8) as u64) << 40) | ((((v >> 32) as u8) as u64) << 32) | (
            (((v >> 24) as u8) as u64) << 24) | ((((v >> 16) as u8) as u64) << 16) | ((((v
                >> 8) as u8) as u64) << 8) | ((v as u8) as u64) == v
        }) by (bit_vector);
    }
}

/// Exact byte count of the encoding of `v`, computed without encoding.
pub fn varint_buf_len(v: u64) -> (r: usize)
    requires
        v < VARINT_MAX,
    ensures
        r == varint_len(v),
{
    if v < 0x40 {
        1
    } else if v < 0x4000 {
        2
    } else if v < 0x4000_0000 {
        4
    } else {
        8
    }
}

/// Append the encoding of `v` to `buf`.
pub fn varint_encode(v: u64, buf: &mut Vec<u8>)
    requires
        v < VARINT_MAX,
    ensures
        final(buf)@ == old(buf)@ + varint_enc(v),
{
    if v < 0x40 {
        buf.push(v as u8);
    } else if v < 0x4000 {
        buf.push((0x40 | (v >> 8)) as u8);
        buf.push(v as u8);
    } else if v < 0x4000_0000 {
        buf.push((0x80 | (v >> 24)) as u8);
        buf.push((v >> 16) as u8);
        buf.push((v >> 8) as u8);
        buf.push(v as u8);
    } else {
        buf.push((0xc0 | (v >> 56)) as u8);
        buf.push((v >> 48) as u8);
        buf.push((v >> 40) as u8);
        buf.push((v >> 32) as u8);
        buf.push((v >> 24) as u8);
        buf.push((v >> 16) as u8);
        buf.push((v >> 8) as u8);
        buf.push(v as u8);
    }
    proof {
        assert(buf@ =~= old(buf)@ + varint_enc(v));
    }
}

/// Read one variable-length integer at the cursor; `None` when the buffer is
/// too short to hold it.
pub fn varint_decode(c: &mut Cursor) -> (r: Option<u64>)
    requires
        old(c).wf(),
    ensures
        final(c).wf(),
        final(c).data@ == old(c).data@,
        match r {
            Some(v) => {
                &&& varint_dec(old(c).rem()) == Some((v, final(c).pos - old(c).pos))
                &&& v < VARINT_MAX
                &&& old(c).pos < final(c).pos <= old(c).data@.len()
            },
            None => varint_dec(old(c).rem()) is None && final(c).pos == old(c).pos,
        },
{
    proof {
        lemma_varint_dec_props(old(c).rem());
    }
    if c.pos >= c.data.len() {
        return None;
    }
    let ghost rem = old(c).rem();
    let b0 = c.data[c.pos];
    proof {
        assert(rem[0] == b0);
    }
    if b0 < 0x40 {
        c.pos = c.pos + 1;
        Some(b0 as u64)
    } else if b0 < 0x80 {
        if c.data.len() - c.pos < 2 {
            return None;
        }
        let b1 = c.data[c.pos + 1];
        proof {
            assert(rem[1] == b1);
        }
        c.pos = c.pos + 2;
        Some((((b0 & 0x3f) as u64) << 8) | (b1 as u64))
    } else if b0 < 0xc0 {
        if c.data.len() - c.pos < 4 {
            return None;
        }
        let b1 = c.data[c.pos + 1];
        let b2 = c.data[c.pos + 2];
        let b3 = c.data[c.pos + 3];
        proof {
            assert(rem[1] == b1 && rem[2] == b2 && rem[3] == b3);
        }
        c.pos = c.pos + 4;
        Some(
            (((b0 & 0x3f) as u64) << 24) | ((b1 as u64) << 16) | ((b2 as u64) << 8) | (b3 as u64),
        )
    } else {
        if c.data.len() - c.pos < 8 {
            return None;
        }
        let b1 = c.data[c.pos + 1];
        let b2 = c.data[c.pos + 2];
        let b3 = c.data[c.pos + 3];
        let b4 = c.data[c.pos + 4];
        let b5 = c.data[c.pos + 5];
        let b6 = c.data[c.pos + 6];
        let b7 = c.data[c.pos + 7];
        proof {
            assert(rem[1] == b1 && rem[2] == b2 && rem[3] == b3 && rem[4] == b4 && rem[5] == b5
                && rem[6] == b6 && rem[7] == b7);
        }
        c.pos = c.pos + 8;
        Some(
            (((b0 & 0x3f) as u64) << 56) | ((b1 as u64) << 48) | ((b2 as u64) << 40) | ((b3 as u64)
                << 32) | ((b4 as u64) << 24) | ((b5 as u64) << 16) | ((b6 as u64) << 8) | (
            b7 as u64),
        )
    }
}

} // verus!
