//! Base64 rendering of byte strings, with the usual `=` padding.

use vstd::prelude::*;

verus! {

/// The base64 alphabet: `A`–`Z`, `a`–`z`, `0`–`9`, `+`, `/`.
pub open spec fn b64_char(n: int) -> u8 {
    if 0 <= n < 26 {
        (65 + n) as u8
    } else if 26 <= n < 52 {
        (97 + n - 26) as u8
    } else if 52 <= n < 62 {
        (48 + n - 52) as u8
    } else if n == 62 {
        43u8
    } else {
        47u8
    }
}

/// The four characters encoding one full three-byte group.
pub open spec fn b64_group(x: int, y: int, z: int) -> Seq<u8> {
    let b = x * 65536 + y * 256 + z;
    seq![
        b64_char(b / 262144),
        b64_char((b / 4096) % 64),
        b64_char((b / 64) % 64),
        b64_char(b % 64),
    ]
}

/// The base64 text of a byte string: full groups of three bytes become four
/// characters; a trailing byte or pair is zero-extended and padded with `=`.
pub open spec fn base64_of(s: Seq<u8>) -> Seq<u8>
    decreases s.len(),
{
    if s.len() == 0 {
        Seq::empty()
    } else if s.len() == 1 {
        let b = (s[0] as int) * 65536;
        seq![b64_char(b / 262144), b64_char((b / 4096) % 64), 61u8, 61u8]
    } else if s.len() == 2 {
        let b = (s[0] as int) * 65536 + (s[1] as int) * 256;
        seq![b64_char(b / 262144), b64_char((b / 4096) % 64), b64_char((b / 64) % 64), 61u8]
    } else {
        b64_group(s[0] as int, s[1] as int, s[2] as int) + base64_of(s.skip(3))
    }
}

/// Encoding splits at any group boundary.
proof fn lemma_b64_split(s: Seq<u8>, i: int)
    requires
        0 <= i <= s.len(),
        i % 3 == 0,
    ensures
        base64_of(s) == base64_of(s.take(i)) + base64_of(s.skip(i)),
    decreases i,
{
    if i == 0 {
        assert(s.take(0) =~= Seq::<u8>::empty());
        assert(s.skip(0) =~= s);
        assert(base64_of(s.take(0)) + base64_of(s.skip(0)) =~= base64_of(s));
    } else {
        assert(i >= 3);
        assert(s.len() >= 3);
        lemma_b64_split(s.skip(3), i - 3);
        assert(s.skip(3).take(i - 3) =~= s.take(i).skip(3));
        assert(s.skip(3).skip(i - 3) =~= s.skip(i));
        assert(s.take(i).len() == i);
        assert(s.take(i)[0] == s[0] && s.take(i)[1] == s[1] && s.take(i)[2] == s[2]);
        assert(base64_of(s.take(i)) == b64_group(s[0] as int, s[1] as int, s[2] as int)
            + base64_of(s.take(i).skip(3)));
        assert(base64_of(s) == b64_group(s[0] as int, s[1] as int, s[2] as int) + base64_of(
            s.skip(3),
        ));
        assert(b64_group(s[0] as int, s[1] as int, s[2] as int) + (base64_of(s.take(i).skip(3))
            + base64_of(s.skip(i))) =~= (b64_group(s[0] as int, s[1] as int, s[2] as int)
            + base64_of(s.take(i).skip(3))) + base64_of(s.skip(i)));
    }
}

/// A base64 encoder that keeps its output buffer.
pub struct Base64Decoder {
    pub bytes: Vec<u8>,
    pub index: usize,
}

/// The character of the alphabet at `n`.
fn b64_char_of(n: u32) -> (c: u8)
    requires
        n < 64,
    ensures
        c == b64_char(n as int),
{
    if n < 26 {
        (65 + n) as u8
    } else if n < 52 {
        (97 + n - 26) as u8
    } else if n < 62 {
        (48 + n - 52) as u8
    } else if n == 62 {
        43u8
    } else {
        47u8
    }
}

/// Appends the four characters of one full group.
fn push_group(out: &mut Vec<u8>, x: u8, y: u8, z: u8)
    ensures
        final(out)@ == old(out)@ + b64_group(x as int, y as int, z as int),
{
    let b = (x as u32) * 65536 + (y as u32) * 256 + (z as u32);
    out.push(b64_char_of(b / 262144));
    out.push(b64_char_of((b / 4096) % 64));
    out.push(b64_char_of((b / 64) % 64));
    out.push(b64_char_of(b % 64));
    proof {
        assert(final(out)@ =~= old(out)@ + b64_group(x as int, y as int, z as int));
    }
}

/// Appends the four characters encoding a trailing byte or pair: `t` is the
/// tail and holds one or two bytes.
fn push_tail(out: &mut Vec<u8>, tail: &[u8])
    requires
        1 <= tail@.len() <= 2,
    ensures
        final(out)@ == old(out)@ + base64_of(tail@),
{
    if tail.len() == 1 {
        let b = (tail[0] as u32) * 65536;
        out.push(b64_char_of(b / 262144));
        out.push(b64_char_of((b / 4096) % 64));
        out.push(61);
        out.push(61);
        proof {
            assert(final(out)@ =~= old(out)@ + base64_of(tail@));
        }
    } else {
        let b = (tail[0] as u32) * 65536 + (tail[1] as u32) * 256;
        out.push(b64_char_of(b / 262144));
        out.push(b64_char_of((b / 4096) % 64));
        out.push(b64_char_of((b / 64) % 64));
        out.push(61);
        proof {
            assert(final(out)@ =~= old(out)@ + base64_of(tail@));
        }
    }
}

impl Base64Decoder {
    pub fn new() -> (d: Base64Decoder)
        ensures
            d.bytes@ =~= Seq::<u8>::empty(),
    {
        Base64Decoder { bytes: Vec::new(), index: 0 }
    }

    /// Replaces the buffer with the base64 text of `bytes`.
    #[verifier::rlimit(100)]
    pub fn base64_string(&mut self, bytes: &[u8])
        ensures
            final(self).bytes@ == base64_of(bytes@),
    {
        let mut out: Vec<u8> = Vec::new();
        let mut i: usize = 0;
        let n = bytes.len();
        proof {
            assert(bytes@.take(0) =~= Seq::<u8>::empty());
        }
        while n - i >= 3
            invariant
                n == bytes@.len(),
                i <= n,
                i % 3 == 0,
                out@ == base64_of(bytes@.take(i as int)),
            decreases n - i,
        {
            let x = bytes[i];
            let y = bytes[i + 1];
            let z = bytes[i + 2];
            push_group(&mut out, x, y, z);
            proof {
                let s = bytes@;
                let i3 = i as int + 3;
                lemma_b64_split(s.take(i3), i as int);
                assert(s.take(i3).take(i as int) =~= s.take(i as int));
                let g = s.take(i3).skip(i as int);
                assert(g.len() == 3);
                assert(g[0] == s[i as int] && g[1] == s[i as int + 1] && g[2] == s[i as int + 2]);
                assert(g.skip(3) =~= Seq::<u8>::empty());
                assert(base64_of(g) == b64_group(g[0] as int, g[1] as int, g[2] as int)
                    + base64_of(g.skip(3)));
                assert(base64_of(g) =~= b64_group(g[0] as int, g[1] as int, g[2] as int));
                assert(out@ =~= base64_of(s.take(i as int)) + base64_of(g));
                assert(out@ == base64_of(s.take(i3)));
            }
            i += 3;
        }
        proof {
            lemma_b64_split(bytes@, i as int);
        }
        if i < n {
            let tail: &[u8] = vstd::slice::slice_subrange(bytes, i, n);
            proof {
                assert(tail@ =~= bytes@.skip(i as int));
            }
            push_tail(&mut out, tail);
        } else {
            proof {
                assert(bytes@.take(i as int) =~= bytes@);
                assert(bytes@.skip(i as int) =~= Seq::<u8>::empty());
                assert(out@ =~= base64_of(bytes@.take(i as int)) + base64_of(
                    bytes@.skip(i as int),
                ));
            }
        }
        self.bytes = out;
    }
}

} // verus!
