//! Length-prefixed frames: a 16-bit big-endian length, then that many
//! bytes.

use vstd::prelude::*;

verus! {

pub const PREFIX_LEN: usize = 2;

/// Largest payload of one frame.
pub const MAX_FRAME_SIZE: usize = 65535;

/// Big-endian bytes of a 16-bit length.
pub open spec fn be16(n: nat) -> Seq<u8> {
    seq![(n / 256) as u8, (n % 256) as u8]
}

pub open spec fn be16_value(hi: u8, lo: u8) -> nat {
    hi as nat * 256 + lo as nat
}

/// The bytes of one frame holding `payload`.
pub open spec fn frame_bytes(payload: Seq<u8>) -> Seq<u8> {
    be16(payload.len()) + payload
}

/// The first frame of `bytes` and the number of bytes it takes, if all of
/// it is there.
pub open spec fn first_frame(bytes: Seq<u8>) -> Option<(Seq<u8>, nat)> {
    if bytes.len() < 2 {
        None
    } else {
        let n = be16_value(bytes[0], bytes[1]);
        if bytes.len() < 2 + n {
            None
        } else {
            Some((bytes.subrange(2, 2 + n as int), (2 + n) as nat))
        }
    }
}

/// A byte stream cut into frames.
pub struct FramedStream<S>(pub S);

impl<S> FramedStream<S> {
    pub fn new(inner: S) -> (r: FramedStream<S>)
        ensures
            r.0 == inner,
    {
        FramedStream(inner)
    }

    pub fn into_inner(self) -> (r: S)
        ensures
            r == self.0,
    {
        self.0
    }

    /// The bytes that carry `payload` as one frame.
    pub fn frame(payload: &[u8]) -> (r: Vec<u8>)
        requires
            payload@.len() <= MAX_FRAME_SIZE,
        ensures
            r@ == frame_bytes(payload@),
    {
        let len = payload.len();
        let mut r: Vec<u8> = Vec::new();
        r.push((len / 256) as u8);
        r.push((len % 256) as u8);
        let mut i: usize = 0;
        while i < payload.len()
            invariant
                i <= payload@.len(),
                len == payload@.len(),
                len <= MAX_FRAME_SIZE,
                r@ == be16(len as nat) + payload@.take(i as int),
            decreases payload@.len() - i,
        {
            r.push(payload[i]);
            i = i + 1;
            proof {
                assert(r@ =~= be16(len as nat) + payload@.take(i as int));
            }
        }
        proof {
            assert(payload@.take(i as int) =~= payload@);
        }
        r
    }

    /// The payload length that a frame prefix announces.
    pub fn frame_len(prefix: [u8; 2]) -> (r: usize)
        ensures
            r == be16_value(prefix@[0], prefix@[1]),
            r <= MAX_FRAME_SIZE,
    {
        prefix[0] as usize * 256 + prefix[1] as usize
    }

    /// Splits the first complete frame off `bytes`: its payload and the
    /// number of bytes it took.
    pub fn unframe(bytes: &[u8]) -> (r: Option<(Vec<u8>, usize)>)
        ensures
            match r {
                Some((p, n)) => first_frame(bytes@) == Some((p@, n as nat)),
                None => first_frame(bytes@) is None,
            },
    {
        if bytes.len() < 2 {
            return None;
        }
        let n = bytes[0] as usize * 256 + bytes[1] as usize;
        if bytes.len() - 2 < n {
            return None;
        }
        let mut p: Vec<u8> = Vec::new();
        let mut i: usize = 0;
        while i < n
            invariant
                i <= n,
                n == be16_value(bytes@[0], bytes@[1]),
                2 + n <= bytes@.len(),
                p@ == bytes@.subrange(2, 2 + i as int),
            decreases n - i,
        {
            p.push(bytes[2 + i]);
            i = i + 1;
            proof {
                assert(p@ =~= bytes@.subrange(2, 2 + i as int));
            }
        }
        Some((p, 2 + n))
    }
}

/// Reading back what was framed gives the payload, whatever follows it.
pub proof fn lemma_frame_round_trip(payload: Seq<u8>, rest: Seq<u8>)
    requires
        payload.len() <= MAX_FRAME_SIZE,
    ensures
        first_frame(frame_bytes(payload) + rest) == Some((payload, (2 + payload.len()) as nat)),
{
    let b = frame_bytes(payload) + rest;
    let n = payload.len();
    assert(be16_value((n / 256) as u8, (n % 256) as u8) == n);
    assert(b[0] == (n / 256) as u8);
    assert(b[1] == (n % 256) as u8);
    assert(b.subrange(2, 2 + n as int) =~= payload);
}

/// A whole frame announces its own length, and what follows the prefix is
/// the payload: a reader that took in exactly `frame_bytes(c)` holds a
/// complete frame whose body is `c`.
pub proof fn lemma_frame_body(c: Seq<u8>)
    requires
        c.len() <= MAX_FRAME_SIZE,
    ensures
        frame_bytes(c).len() >= 2,
        frame_bytes(c).len() == 2 + be16_value(frame_bytes(c)[0], frame_bytes(c)[1]),
        frame_bytes(c).skip(2) == c,
{
    let n = c.len();
    assert(be16_value((n / 256) as u8, (n % 256) as u8) == n);
    assert(frame_bytes(c).skip(2) =~= c);
}

} // verus!
