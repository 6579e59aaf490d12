//! Byte-stream framing: the buffered reading every line- or
//! length-oriented protocol shares.  Arrived bytes are kept in a
//! buffer; a complete line, or an exact byte count, is taken off the
//! front and the rest stays for the next take.

use vstd::prelude::*;

verus! {

/// The position of the first newline at or after `i`, or -1.
pub open spec fn first_nl(s: Seq<u8>, i: int) -> int
    decreases s.len() - i,
{
    if i < 0 || i >= s.len() {
        -1
    } else if s[i] == 10 {
        i
    } else {
        first_nl(s, i + 1)
    }
}

/// A connection's receive buffer.
pub struct StreamBuffer {
    pub buf: Vec<u8>,
}

impl StreamBuffer {
    pub fn new() -> (r: StreamBuffer)
        ensures
            r.buf@ == Seq::<u8>::empty(),
    {
        let r = StreamBuffer { buf: Vec::new() };
        proof {
            assert(r.buf@ =~= Seq::<u8>::empty());
        }
        r
    }

    /// Keep newly arrived bytes.
    pub fn feed(&mut self, chunk: &[u8])
        ensures
            final (self).buf@ == old(self).buf@ + chunk@,
    {
        self.buf.extend_from_slice(chunk);
        proof {
            assert(self.buf@ =~= old(self).buf@ + chunk@);
        }
    }

    /// The next complete line, without its newline; the bytes after
    /// it stay buffered.  Nothing until a newline has arrived.
    pub fn take_line(&mut self) -> (r: Option<Vec<u8>>)
        ensures
            ({
                let b = old(self).buf@;
                let p = first_nl(b, 0);
                match r {
                    Some(line) => p >= 0 && line@ == b.take(p) && final (self).buf@ == b.skip(
                        p + 1,
                    ),
                    None => p < 0 && *final (self) == *old(self),
                }
            }),
    {
        let ghost b = self.buf@;
        let mut p: usize = 0;
        let mut found = false;
        while !found && p < self.buf.len()
            invariant
                0 <= p <= b.len(),
                *self == *old(self),
                b == self.buf@,
                found ==> p < b.len() && b[p as int] == 10,
                first_nl(b, 0) == first_nl(b, p as int),
            decreases b.len() - p, (if found {
                0int
            } else {
                1int
            }),
        {
            if self.buf[p] == 10 {
                found = true;
            } else {
                p = p + 1;
            }
        }
        if !found {
            return None;
        }
        let mut line: Vec<u8> = Vec::new();
        let mut k: usize = 0;
        while k < p
            invariant
                0 <= k <= p < b.len(),
                *self == *old(self),
                b == self.buf@,
                line@ =~= b.take(k as int),
            decreases p - k,
        {
            line.push(self.buf[k]);
            proof {
                assert(line@ =~= b.take(k + 1));
            }
            k = k + 1;
        }
        let blen = self.buf.len();
        let mut rest: Vec<u8> = Vec::new();
        let mut m: usize = p + 1;
        while m < blen
            invariant
                p + 1 <= m <= b.len(),
                blen == b.len(),
                *self == *old(self),
                b == self.buf@,
                rest@ =~= b.subrange(p + 1, m as int),
            decreases b.len() - m,
        {
            rest.push(self.buf[m]);
            proof {
                assert(rest@ =~= b.subrange(p + 1, m + 1));
            }
            m = m + 1;
        }
        proof {
            assert(b.subrange(p + 1, b.len() as int) =~= b.skip(p + 1));
        }
        self.buf = rest;
        Some(line)
    }

    /// The next `n` bytes, once that many have arrived; the bytes
    /// after them stay buffered.
    pub fn take_exact(&mut self, n: usize) -> (r: Option<Vec<u8>>)
        ensures
            ({
                let b = old(self).buf@;
                match r {
                    Some(data) => b.len() >= n && data@ == b.take(n as int) && final (self).buf@
                        == b.skip(n as int),
                    None => b.len() < n && *final (self) == *old(self),
                }
            }),
    {
        if self.buf.len() < n {
            return None;
        }
        let ghost b = self.buf@;
        let mut data: Vec<u8> = Vec::new();
        let mut k: usize = 0;
        while k < n
            invariant
                0 <= k <= n <= b.len(),
                *self == *old(self),
                b == self.buf@,
                data@ =~= b.take(k as int),
            decreases n - k,
        {
            data.push(self.buf[k]);
            proof {
                assert(data@ =~= b.take(k + 1));
            }
            k = k + 1;
        }
        let mut rest: Vec<u8> = Vec::new();
        let mut m: usize = n;
        while m < self.buf.len()
            invariant
                n <= m <= b.len(),
                *self == *old(self),
                b == self.buf@,
                rest@ =~= b.subrange(n as int, m as int),
            decreases b.len() - m,
        {
            rest.push(self.buf[m]);
            proof {
                assert(rest@ =~= b.subrange(n as int, m + 1));
            }
            m = m + 1;
        }
        proof {
            assert(b.subrange(n as int, b.len() as int) =~= b.skip(n as int));
        }
        self.buf = rest;
        Some(data)
    }
}

} // verus!
