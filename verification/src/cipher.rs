//! Cipher proxy: a stackable byte-stream obfuscation layer and the
//! line-oriented "most toys" application it wraps.
//!
//! A cipher specification is a byte sequence of operations terminated by
//! `0x00`.  Encoding applies the operations left to right to each byte,
//! parameterised by the byte's position in its direction of the stream;
//! decoding applies the inverses in reverse order.

use vstd::prelude::*;

verus! {

/// One transform of the cipher pipeline.
#[derive(Clone, Copy, PartialEq, Eq, Structural, Debug)]
pub enum CipherOp {
    Reversebits,
    Xor(u8),
    Xorpos,
    Add(u8),
    Addpos,
}

/// The bits of `b` in reverse order.
pub open spec fn rev_bits_of(b: u8) -> u8 {
    ((b & 0x01) << 7) | ((b & 0x02) << 5) | ((b & 0x04) << 3) | ((b & 0x08) << 1) | ((b & 0x10)
        >> 1) | ((b & 0x20) >> 3) | ((b & 0x40) >> 5) | ((b & 0x80) >> 7)
}

/// Addition modulo 256.
pub open spec fn wrap_add8(x: u8, y: u8) -> u8 {
    if x + y > 255 {
        (x + y - 256) as u8
    } else {
        (x + y) as u8
    }
}

/// Subtraction modulo 256.
pub open spec fn wrap_sub8(x: u8, y: u8) -> u8 {
    if x - y < 0 {
        (x - y + 256) as u8
    } else {
        (x - y) as u8
    }
}

pub fn rev_bits(b: u8) -> (r: u8)
    ensures
        r == rev_bits_of(b),
{
    ((b & 0x01) << 7) | ((b & 0x02) << 5) | ((b & 0x04) << 3) | ((b & 0x08) << 1) | ((b & 0x10)
        >> 1) | ((b & 0x20) >> 3) | ((b & 0x40) >> 5) | ((b & 0x80) >> 7)
}

proof fn lemma_rev_rev(b: u8)
    ensures
        rev_bits_of(rev_bits_of(b)) == b,
{
    let r: u8 = rev_bits_of(b);
    assert(((r & 0x01) << 7) | ((r & 0x02) << 5) | ((r & 0x04) << 3) | ((r & 0x08) << 1) | ((r
        & 0x10) >> 1) | ((r & 0x20) >> 3) | ((r & 0x40) >> 5) | ((r & 0x80) >> 7) == b)
        by (bit_vector)
        requires
            r == ((b & 0x01) << 7) | ((b & 0x02) << 5) | ((b & 0x04) << 3) | ((b & 0x08) << 1) | ((
            b & 0x10) >> 1) | ((b & 0x20) >> 3) | ((b & 0x40) >> 5) | ((b & 0x80) >> 7),
    ;
}

proof fn lemma_xor_xor(b: u8, n: u8)
    ensures
        (b ^ n) ^ n == b,
{
    assert((b ^ n) ^ n == b) by (bit_vector);
}

impl CipherOp {
    /// The transform applied to `byte` standing at stream position
    /// `pos` (already reduced modulo 256).
    pub open spec fn encode_byte(self, byte: u8, pos: u8) -> u8 {
        match self {
            CipherOp::Reversebits => rev_bits_of(byte),
            CipherOp::Xor(n) => byte ^ n,
            CipherOp::Xorpos => byte ^ pos,
            CipherOp::Add(n) => wrap_add8(byte, n),
            CipherOp::Addpos => wrap_add8(byte, pos),
        }
    }

    /// The inverse transform: additions become subtractions, the
    /// xor and bit-reversal transforms are their own inverses.
    pub open spec fn decode_byte(self, byte: u8, pos: u8) -> u8 {
        match self {
            CipherOp::Reversebits => rev_bits_of(byte),
            CipherOp::Xor(n) => byte ^ n,
            CipherOp::Xorpos => byte ^ pos,
            CipherOp::Add(n) => wrap_sub8(byte, n),
            CipherOp::Addpos => wrap_sub8(byte, pos),
        }
    }

    pub fn encode(&self, byte: u8, pos: usize) -> (r: u8)
        ensures
            r == self.encode_byte(byte, (pos % 256) as u8),
    {
        let p: u8 = (pos % 256) as u8;
        match self {
            CipherOp::Reversebits => rev_bits(byte),
            CipherOp::Xor(n) => byte ^ *n,
            CipherOp::Xorpos => byte ^ p,
            CipherOp::Add(n) => byte.wrapping_add(*n),
            CipherOp::Addpos => byte.wrapping_add(p),
        }
    }

    pub fn decode(&self, byte: u8, pos: usize) -> (r: u8)
        ensures
            r == self.decode_byte(byte, (pos % 256) as u8),
    {
        let p: u8 = (pos % 256) as u8;
        match self {
            CipherOp::Reversebits => rev_bits(byte),
            CipherOp::Xor(n) => byte ^ *n,
            CipherOp::Xorpos => byte ^ p,
            CipherOp::Add(n) => byte.wrapping_sub(*n),
            CipherOp::Addpos => byte.wrapping_sub(p),
        }
    }

    /// Decoding inverts encoding, one operation at a time.
    pub proof fn lemma_decode_encode(self, byte: u8, pos: u8)
        ensures
            self.decode_byte(self.encode_byte(byte, pos), pos) == byte,
    {
        match self {
            CipherOp::Reversebits => lemma_rev_rev(byte),
            CipherOp::Xor(n) => lemma_xor_xor(byte, n),
            CipherOp::Xorpos => lemma_xor_xor(byte, pos),
            CipherOp::Add(n) => {},
            CipherOp::Addpos => {},
        }
    }
}

/// One byte pushed through the whole pipeline, left to right.
pub open spec fn encode_through(ops: Seq<CipherOp>, byte: u8, pos: u8) -> u8
    decreases ops.len(),
{
    if ops.len() == 0 {
        byte
    } else {
        encode_through(ops.drop_first(), ops[0].encode_byte(byte, pos), pos)
    }
}

/// One byte pulled back through the whole pipeline, right to left.
pub open spec fn decode_through(ops: Seq<CipherOp>, byte: u8, pos: u8) -> u8
    decreases ops.len(),
{
    if ops.len() == 0 {
        byte
    } else {
        ops[0].decode_byte(decode_through(ops.drop_first(), byte, pos), pos)
    }
}

proof fn lemma_encode_through_snoc(ops: Seq<CipherOp>, op: CipherOp, byte: u8, pos: u8)
    ensures
        encode_through(ops.push(op), byte, pos) == op.encode_byte(
            encode_through(ops, byte, pos),
            pos,
        ),
    decreases ops.len(),
{
    if ops.len() == 0 {
        assert(ops.push(op)[0] == op);
        assert(ops.push(op).drop_first() =~= Seq::<CipherOp>::empty());
        assert(encode_through(ops.push(op), byte, pos) == encode_through(
            Seq::<CipherOp>::empty(),
            op.encode_byte(byte, pos),
            pos,
        ));
        assert(encode_through(Seq::<CipherOp>::empty(), op.encode_byte(byte, pos), pos)
            == op.encode_byte(byte, pos));
        assert(encode_through(ops, byte, pos) == byte);
    } else {
        assert(ops.push(op)[0] == ops[0]);
        assert(ops.push(op).drop_first() =~= ops.drop_first().push(op));
        lemma_encode_through_snoc(ops.drop_first(), op, ops[0].encode_byte(byte, pos), pos);
        assert(encode_through(ops.push(op), byte, pos) == encode_through(
            ops.drop_first().push(op),
            ops[0].encode_byte(byte, pos),
            pos,
        ));
    }
}

/// Decoding a byte that went through the pipeline gives the byte back.
pub proof fn lemma_through_roundtrip(ops: Seq<CipherOp>, byte: u8, pos: u8)
    ensures
        decode_through(ops, encode_through(ops, byte, pos), pos) == byte,
    decreases ops.len(),
{
    if ops.len() > 0 {
        let e0 = ops[0].encode_byte(byte, pos);
        lemma_through_roundtrip(ops.drop_first(), e0, pos);
        ops[0].lemma_decode_encode(byte, pos);
    }
}

/// A whole message pushed through the pipeline, each byte at its own
/// stream position, positions counted from `start`.
pub open spec fn encode_stream(ops: Seq<CipherOp>, data: Seq<u8>, start: nat) -> Seq<u8> {
    Seq::new(data.len(), |i: int| encode_through(ops, data[i], ((start + i) % 256) as u8))
}

/// A whole message pulled back through the pipeline.
pub open spec fn decode_stream(ops: Seq<CipherOp>, data: Seq<u8>, start: nat) -> Seq<u8> {
    Seq::new(data.len(), |i: int| decode_through(ops, data[i], ((start + i) % 256) as u8))
}

/// Decoding an encoded stream gives the original bytes back, as long
/// as both directions count positions from the same start.
pub proof fn lemma_stream_roundtrip(ops: Seq<CipherOp>, data: Seq<u8>, start: nat)
    ensures
        decode_stream(ops, encode_stream(ops, data, start), start) =~= data,
{
    let enc = encode_stream(ops, data, start);
    assert forall|i: int| 0 <= i < data.len() implies decode_stream(ops, enc, start)[i] == data[i] by {
        lemma_through_roundtrip(ops, data[i], ((start + i) % 256) as u8);
    }
}

/// Parse a cipher specification from position `i`: operation bytes up
/// to a `0x00` terminator; bytes after the terminator are ignored.
/// `None` when an unknown operation byte stands in the list or the
/// specification ends before its terminator.
pub open spec fn spec_parse_from(s: Seq<u8>, i: int) -> Option<Seq<CipherOp>>
    decreases s.len() - i,
{
    if i < 0 || i >= s.len() {
        None
    } else if s[i] == 0x00 {
        Some(Seq::empty())
    } else if s[i] == 0x01 {
        match spec_parse_from(s, i + 1) {
            Some(t) => Some(seq![CipherOp::Reversebits] + t),
            None => None,
        }
    } else if s[i] == 0x02 {
        if i + 1 >= s.len() {
            None
        } else {
            match spec_parse_from(s, i + 2) {
                Some(t) => Some(seq![CipherOp::Xor(s[i + 1])] + t),
                None => None,
            }
        }
    } else if s[i] == 0x03 {
        match spec_parse_from(s, i + 1) {
            Some(t) => Some(seq![CipherOp::Xorpos] + t),
            None => None,
        }
    } else if s[i] == 0x04 {
        if i + 1 >= s.len() {
            None
        } else {
            match spec_parse_from(s, i + 2) {
                Some(t) => Some(seq![CipherOp::Add(s[i + 1])] + t),
                None => None,
            }
        }
    } else if s[i] == 0x05 {
        match spec_parse_from(s, i + 1) {
            Some(t) => Some(seq![CipherOp::Addpos] + t),
            None => None,
        }
    } else {
        None
    }
}

/// The operation list denoted by a cipher specification.
pub open spec fn spec_parse_ops(s: Seq<u8>) -> Option<Seq<CipherOp>> {
    spec_parse_from(s, 0)
}

impl CipherOp {
    /// Parse a cipher specification into its operation list.
    pub fn parse_spec(spec: &[u8]) -> (r: Option<Vec<CipherOp>>)
        ensures
            match r {
                Some(ops) => spec_parse_ops(spec@) == Some(ops@),
                None => spec_parse_ops(spec@) is None,
            },
    {
        let mut ops: Vec<CipherOp> = Vec::new();
        let mut index: usize = 0;
        loop
            invariant
                0 <= index <= spec@.len(),
                spec_parse_from(spec@, 0) == (match spec_parse_from(spec@, index as int) {
                    Some(t) => Some(ops@ + t),
                    None => None::<Seq<CipherOp>>,
                }),
            decreases spec@.len() - index,
        {
            if index >= spec.len() {
                return None;
            }
            let b = spec[index];
            if b == 0x00 {
                proof {
                    assert(ops@ + Seq::<CipherOp>::empty() =~= ops@);
                }
                return Some(ops);
            }
            let op: CipherOp;
            let step: usize;
            if b == 0x01 {
                op = CipherOp::Reversebits;
                step = 1;
            } else if b == 0x02 {
                if index + 1 >= spec.len() {
                    return None;
                }
                op = CipherOp::Xor(spec[index + 1]);
                step = 2;
            } else if b == 0x03 {
                op = CipherOp::Xorpos;
                step = 1;
            } else if b == 0x04 {
                if index + 1 >= spec.len() {
                    return None;
                }
                op = CipherOp::Add(spec[index + 1]);
                step = 2;
            } else if b == 0x05 {
                op = CipherOp::Addpos;
                step = 1;
            } else {
                return None;
            }
            proof {
                assert forall|t: Seq<CipherOp>|
                    ops@ + (seq![op] + t) =~= ops@.push(op) + t by {}
            }
            ops.push(op);
            index = index + step;
        }
    }
}


/// Encode `data` through `ops`, positions counted from `start`.
fn encode_vec(ops: &Vec<CipherOp>, data: &[u8], start: usize) -> (r: Vec<u8>)
    requires
        start + data@.len() <= usize::MAX,
    ensures
        r@ == encode_stream(ops@, data@, start as nat),
{
    let mut out: Vec<u8> = Vec::new();
    let mut i: usize = 0;
    while i < data.len()
        invariant
            0 <= i <= data@.len(),
            start + data@.len() <= usize::MAX,
            out@.len() == i,
            forall|k: int|
                0 <= k < i ==> out@[k] == encode_through(
                    ops@,
                    data@[k],
                    #[trigger] (((start + k) % 256) as u8),
                ),
        decreases data@.len() - i,
    {
        let pos: usize = start + i;
        let ghost p: u8 = ((start + i as int) % 256) as u8;
        let mut b: u8 = data[i];
        let mut j: usize = 0;
        while j < ops.len()
            invariant
                0 <= j <= ops@.len(),
                pos == start + i,
                0 <= i < data@.len(),
                b == encode_through(ops@.take(j as int), data@[i as int], p),
                p == ((pos as int) % 256) as u8,
            decreases ops@.len() - j,
        {
            let nb = ops[j].encode(b, pos);
            proof {
                lemma_encode_through_snoc(ops@.take(j as int), ops@[j as int], data@[i as int], p);
                assert(ops@.take(j + 1) =~= ops@.take(j as int).push(ops@[j as int]));
            }
            b = nb;
            j = j + 1;
        }
        proof {
            assert(ops@.take(ops@.len() as int) =~= ops@);
        }
        out.push(b);
        i = i + 1;
    }
    proof {
        assert(out@ =~= encode_stream(ops@, data@, start as nat));
    }
    out
}

/// Decode `data` through `ops`, positions counted from `start`.
fn decode_vec(ops: &Vec<CipherOp>, data: &[u8], start: usize) -> (r: Vec<u8>)
    requires
        start + data@.len() <= usize::MAX,
    ensures
        r@ == decode_stream(ops@, data@, start as nat),
{
    let mut out: Vec<u8> = Vec::new();
    let mut i: usize = 0;
    while i < data.len()
        invariant
            0 <= i <= data@.len(),
            start + data@.len() <= usize::MAX,
            out@.len() == i,
            forall|k: int|
                0 <= k < i ==> out@[k] == decode_through(
                    ops@,
                    data@[k],
                    #[trigger] (((start + k) % 256) as u8),
                ),
        decreases data@.len() - i,
    {
        let pos: usize = start + i;
        let ghost p: u8 = ((start + i as int) % 256) as u8;
        let mut b: u8 = data[i];
        let mut j: usize = ops.len();
        while j > 0
            invariant
                0 <= j <= ops@.len(),
                pos == start + i,
                0 <= i < data@.len(),
                b == decode_through(ops@.skip(j as int), data@[i as int], p),
                p == ((pos as int) % 256) as u8,
            decreases j,
        {
            j = j - 1;
            let nb = ops[j].decode(b, pos);
            proof {
                assert(ops@.skip(j as int)[0] == ops@[j as int]);
                assert(ops@.skip(j as int).drop_first() =~= ops@.skip(j + 1));
            }
            b = nb;
        }
        proof {
            assert(ops@.skip(0) =~= ops@);
        }
        out.push(b);
        i = i + 1;
    }
    proof {
        assert(out@ =~= decode_stream(ops@, data@, start as nat));
    }
    out
}

/// The fixed probe used to recognise a cipher that changes nothing.
pub open spec fn probe_seq() -> Seq<u8> {
    seq![49u8, 50u8, 51u8, 97u8, 98u8, 99u8, 100u8, 101u8, 102u8, 103u8, 55u8, 56u8, 57u8]
}

fn probe_vec() -> (r: Vec<u8>)
    ensures
        r@ == probe_seq(),
{
    let out: Vec<u8> = vec![49u8, 50u8, 51u8, 97u8, 98u8, 99u8, 100u8, 101u8, 102u8, 103u8, 55u8, 56u8, 57u8];
    proof {
        assert(out@ =~= probe_seq());
    }
    out
}

/// A parsed cipher together with the two per-direction positions.
pub struct ObfuscationLayer {
    pub cipher_ops: Vec<CipherOp>,
    pub client_pos: usize,
    pub server_pos: usize,
}

/// `true` when the cipher specification parses and the resulting
/// pipeline is not a no-op on the probe.
pub open spec fn acceptable_spec(s: Seq<u8>) -> bool {
    match spec_parse_ops(s) {
        Some(ops) => encode_stream(ops, probe_seq(), 0) != probe_seq(),
        None => false,
    }
}

impl ObfuscationLayer {
    /// Parse a cipher specification and reject a no-op cipher; the
    /// accepted layer starts with both direction positions at zero.
    pub fn new(spec: Vec<u8>) -> (r: Option<ObfuscationLayer>)
        ensures
            match r {
                Some(layer) => acceptable_spec(spec@) && Some(layer.cipher_ops@)
                    == spec_parse_ops(spec@) && layer.client_pos == 0 && layer.server_pos == 0,
                None => !acceptable_spec(spec@),
            },
    {
        let ops = match CipherOp::parse_spec(spec.as_slice()) {
            Some(ops) => ops,
            None => {
                return None;
            },
        };
        let probe = probe_vec();
        let encoded = encode_vec(&ops, probe.as_slice(), 0);
        if crate::util::bytes_eq(encoded.as_slice(), probe.as_slice()) {
            None
        } else {
            Some(ObfuscationLayer { cipher_ops: ops, client_pos: 0, server_pos: 0 })
        }
    }

    /// Encode an outgoing message at the server-side position.
    pub fn encode(&mut self, msg: &[u8]) -> (r: Vec<u8>)
        requires
            old(self).server_pos + msg@.len() <= usize::MAX,
        ensures
            final(self).cipher_ops == old(self).cipher_ops,
            final(self).client_pos == old(self).client_pos,
            final(self).server_pos == old(self).server_pos + msg@.len(),
            r@ == encode_stream(old(self).cipher_ops@, msg@, old(self).server_pos as nat),
    {
        let r = encode_vec(&self.cipher_ops, msg, self.server_pos);
        self.server_pos = self.server_pos + msg.len();
        r
    }

    /// Decode an incoming message at the client-side position.
    pub fn decode(&mut self, msg: &[u8]) -> (r: Vec<u8>)
        requires
            old(self).client_pos + msg@.len() <= usize::MAX,
        ensures
            final(self).cipher_ops == old(self).cipher_ops,
            final(self).server_pos == old(self).server_pos,
            final(self).client_pos == old(self).client_pos + msg@.len(),
            r@ == decode_stream(old(self).cipher_ops@, msg@, old(self).client_pos as nat),
    {
        let r = decode_vec(&self.cipher_ops, msg, self.client_pos);
        self.client_pos = self.client_pos + msg.len();
        r
    }
}


/// A toy item is well formed when a count opens it and the count
/// fits in 32 bits.
pub open spec fn toy_ok(item: Seq<u8>) -> bool {
    crate::util::digit_prefix_len(item) > 0 && crate::util::leading_value(item) <= u32::MAX
}

pub open spec fn all_toys_ok(items: Seq<Seq<u8>>) -> bool {
    forall|k: int| 0 <= k < items.len() ==> toy_ok(#[trigger] items[k])
}

/// The item with the greatest leading count; of equal counts the
/// later item wins.
pub open spec fn best_toy(items: Seq<Seq<u8>>) -> Seq<u8>
    decreases items.len(),
{
    if items.len() <= 1 {
        items[0]
    } else {
        let b = best_toy(items.drop_last());
        if crate::util::leading_value(items.last()) >= crate::util::leading_value(b) {
            items.last()
        } else {
            b
        }
    }
}

pub proof fn lemma_best_toy_member(items: Seq<Seq<u8>>)
    requires
        items.len() >= 1,
    ensures
        exists|k: int| 0 <= k < items.len() && best_toy(items) == items[k],
    decreases items.len(),
{
    if items.len() == 1 {
        assert(best_toy(items) == items[0]);
    } else {
        lemma_best_toy_member(items.drop_last());
        let b = best_toy(items.drop_last());
        if crate::util::leading_value(items.last()) >= crate::util::leading_value(b) {
            assert(best_toy(items) == items[items.len() - 1]);
        } else {
            let k = choose|k: int| 0 <= k < items.drop_last().len() && b == items.drop_last()[k];
            assert(best_toy(items) == items[k]);
        }
    }
}

/// Pick the comma-separated item with the greatest leading count.
/// `None` when some item has no count or a count above `u32::MAX`.
pub fn get_most_freq_toy(request: &[u8]) -> (r: Option<Vec<u8>>)
    ensures
        match r {
            Some(t) => all_toys_ok(crate::util::split_on(request@, 44)) && t@ == best_toy(
                crate::util::split_on(request@, 44),
            ),
            None => !all_toys_ok(crate::util::split_on(request@, 44)),
        },
{
    let items = crate::util::split_bytes(request, 44);
    proof {
        crate::util::lemma_split_on_len(request@, 44);
        assert(items.deep_view().len() == items@.len());
        assert(items.deep_view()[0] =~= items@[0]@);
    }
    let v0 = match crate::util::leading_number(items[0].as_slice()) {
        Some(v) => v,
        None => {
            assert(!toy_ok(crate::util::split_on(request@, 44)[0]));
            return None;
        },
    };
    let mut best_idx: usize = 0;
    let mut best_val: u32 = v0;
    let mut i: usize = 1;
    while i < items.len()
        invariant
            1 <= i <= items@.len(),
            0 <= best_idx < i,
            items.deep_view() == crate::util::split_on(request@, 44),
            items.deep_view().len() == items@.len(),
            forall|k: int| 0 <= k < i ==> toy_ok(#[trigger] items.deep_view()[k]),
            best_val == crate::util::leading_value(items.deep_view()[best_idx as int]),
            items.deep_view()[best_idx as int] == best_toy(items.deep_view().take(i as int)),
        decreases items@.len() - i,
    {
        proof {
            assert(items.deep_view()[i as int] =~= items@[i as int]@);
        }
        let v = match crate::util::leading_number(items[i].as_slice()) {
            Some(v) => v,
            None => {
                assert(!toy_ok(items.deep_view()[i as int]));
                return None;
            },
        };
        proof {
            assert(items.deep_view().take(i + 1).drop_last() =~= items.deep_view().take(i as int));
            assert(items.deep_view().take(i + 1).last() == items.deep_view()[i as int]);
        }
        if v >= best_val {
            best_idx = i;
            best_val = v;
        }
        i = i + 1;
    }
    proof {
        assert(items.deep_view().take(items@.len() as int) =~= items.deep_view());
    }
    let t = items[best_idx].clone();
    proof {
        assert(t@ =~= items@[best_idx as int]@);
        assert(items.deep_view()[best_idx as int] =~= items@[best_idx as int]@);
    }
    Some(t)
}

/// Complete lines and pending tail of a byte stream: `pending` is
/// what stood in the buffer, `data` what just arrived.
pub open spec fn split_lines(pending: Seq<u8>, data: Seq<u8>) -> (Seq<Seq<u8>>, Seq<u8>)
    decreases data.len(),
{
    if data.len() == 0 {
        (Seq::<Seq<u8>>::empty(), pending)
    } else if data[0] == 10 {
        let r = split_lines(Seq::<u8>::empty(), data.drop_first());
        (seq![pending] + r.0, r.1)
    } else {
        split_lines(pending.push(data[0]), data.drop_first())
    }
}

/// The most-toys application: buffers bytes, answers each complete
/// line with the best toy of that line.
pub struct Workshop {
    pub buffer: Vec<u8>,
}

impl Workshop {
    pub fn new() -> (r: Workshop)
        ensures
            r.buffer@ == Seq::<u8>::empty(),
    {
        Workshop { buffer: Vec::new() }
    }

    /// Feed arrived bytes; each newline-completed line is answered by
    /// its best toy followed by a newline.  `None` when a completed
    /// line holds a malformed item; the buffer keeps the pending tail
    /// either way.
    pub fn add_data(&mut self, data: &[u8]) -> (r: Option<Vec<Vec<u8>>>)
        ensures
            final(self).buffer@ == split_lines(old(self).buffer@, data@).1,
            match r {
                Some(outs) => {
                    let lines = split_lines(old(self).buffer@, data@).0;
                    &&& outs.deep_view().len() == lines.len()
                    &&& forall|k: int|
                        0 <= k < lines.len() ==> all_toys_ok(crate::util::split_on(#[trigger] lines[k], 44))
                    &&& forall|k: int|
                        0 <= k < lines.len() ==> outs.deep_view()[k] == best_toy(
                            crate::util::split_on(#[trigger] lines[k], 44),
                        ).push(10)
                },
                None => exists|k: int|
                    0 <= k < split_lines(old(self).buffer@, data@).0.len() && !all_toys_ok(
                        crate::util::split_on(#[trigger] split_lines(old(self).buffer@, data@).0[k], 44),
                    ),
            },
    {
        let ghost orig = self.buffer@;
        let mut cur: Vec<u8> = Vec::new();
        core::mem::swap(&mut cur, &mut self.buffer);
        let mut lines: Vec<Vec<u8>> = Vec::new();
        let mut i: usize = 0;
        proof {
            assert(data@.skip(0) =~= data@);
            assert(lines.deep_view() + split_lines(cur@, data@).0 =~~= split_lines(orig, data@).0);
        }
        while i < data.len()
            invariant
                0 <= i <= data@.len(),
                split_lines(orig, data@).0 =~~= lines.deep_view() + split_lines(
                    cur@,
                    data@.skip(i as int),
                ).0,
                split_lines(orig, data@).1 == split_lines(cur@, data@.skip(i as int)).1,
            decreases data@.len() - i,
        {
            let b = data[i];
            proof {
                assert(data@.skip(i as int)[0] == data@[i as int]);
                assert(data@.skip(i as int).drop_first() =~= data@.skip(i + 1));
            }
            if b == 10 {
                let ghost old_lines = lines.deep_view();
                let ghost old_cur = cur@;
                lines.push(cur);
                cur = Vec::new();
                proof {
                    assert(lines.deep_view() =~~= old_lines.push(old_cur));
                    assert(lines.deep_view() + split_lines(cur@, data@.skip(i + 1)).0 =~~= old_lines
                        + (seq![old_cur] + split_lines(Seq::<u8>::empty(), data@.skip(i + 1)).0));
                }
            } else {
                cur.push(b);
            }
            i = i + 1;
        }
        proof {
            assert(data@.skip(data@.len() as int) =~= Seq::<u8>::empty());
            assert(split_lines(cur@, Seq::<u8>::empty()).0 =~~= Seq::<Seq<u8>>::empty());
            assert(lines.deep_view() + Seq::<Seq<u8>>::empty() =~~= lines.deep_view());
        }
        let ghost all_lines = split_lines(orig, data@).0;
        proof {
            assert(lines.deep_view() =~~= all_lines);
            assert(split_lines(cur@, Seq::<u8>::empty()).1 == cur@);
            assert(split_lines(orig, data@).1 == cur@);
        }
        core::mem::swap(&mut cur, &mut self.buffer);
        let mut outs: Vec<Vec<u8>> = Vec::new();
        let mut j: usize = 0;
        while j < lines.len()
            invariant
                0 <= j <= lines@.len(),
                lines.deep_view() == all_lines,
                orig == old(self).buffer@,
                self.buffer@ == split_lines(orig, data@).1,
                all_lines == split_lines(orig, data@).0,
                lines.deep_view().len() == lines@.len(),
                outs.deep_view().len() == j,
                forall|k: int| 0 <= k < j ==> all_toys_ok(crate::util::split_on(#[trigger] all_lines[k], 44)),
                forall|k: int|
                    0 <= k < j ==> outs.deep_view()[k] == best_toy(
                        crate::util::split_on(#[trigger] all_lines[k], 44),
                    ).push(10),
            decreases lines@.len() - j,
        {
            proof {
                assert(all_lines[j as int] =~= lines@[j as int]@);
            }
            let mut t = match get_most_freq_toy(lines[j].as_slice()) {
                Some(t) => t,
                None => {
                    assert(!all_toys_ok(crate::util::split_on(all_lines[j as int], 44)));
                    assert(0 <= j < split_lines(orig, data@).0.len() && !all_toys_ok(
                        crate::util::split_on(split_lines(orig, data@).0[j as int], 44),
                    ));
                    return None;
                },
            };
            t.push(10);
            let ghost old_outs = outs.deep_view();
            outs.push(t);
            proof {
                assert(outs.deep_view() =~~= old_outs.push(t@));
            }
            j = j + 1;
        }
        Some(outs)
    }
}

} // verus!
