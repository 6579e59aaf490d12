//! LRCP: a reliable, ordered, message-oriented transport layered over
//! UDP datagrams, carrying the line-reversal application.
//!
//! Each session keeps cumulative counters: `length_received` counts
//! the contiguous bytes accepted so far, `length_sent` the bytes
//! handed to the retransmitter, `length_acked` the bytes the peer has
//! confirmed.  `data_to_send` holds the outgoing bytes from
//! `length_acked` onward.

use vstd::prelude::*;

verus! {

/// One reliable byte-stream session.
pub struct Session {
    pub data_received: Vec<u8>,
    pub data_to_send: Vec<u8>,
    pub length_received: u64,
    pub length_sent: u64,
    pub length_acked: u64,
}

/// Mathematical image of a session.
#[verifier::ext_equal]
pub struct SessionView {
    pub rx: Seq<u8>,
    pub tx: Seq<u8>,
    pub received: u64,
    pub sent: u64,
    pub acked: u64,
}

impl View for Session {
    type V = SessionView;

    open spec fn view(&self) -> SessionView {
        SessionView {
            rx: self.data_received@,
            tx: self.data_to_send@,
            received: self.length_received,
            sent: self.length_sent,
            acked: self.length_acked,
        }
    }
}

/// A session is well formed when the acknowledged bytes never pass
/// the sent ones, the unacknowledged sent bytes all stand in the
/// outgoing buffer, and no more bytes are buffered than were
/// received.
pub open spec fn session_wf(s: SessionView) -> bool {
    &&& s.acked <= s.sent <= s.acked + s.tx.len()
    &&& s.acked + s.tx.len() + s.rx.len() <= s.received
}

/// The reverser fed one byte at a time: a newline completes the
/// buffered line, which goes out reversed with a newline after it.
pub open spec fn rev_push(rx: Seq<u8>, tx: Seq<u8>, data: Seq<u8>) -> (Seq<u8>, Seq<u8>)
    decreases data.len(),
{
    if data.len() == 0 {
        (rx, tx)
    } else if data[0] == 10 {
        rev_push(Seq::empty(), tx + rx.reverse() + seq![10u8], data.drop_first())
    } else {
        rev_push(rx.push(data[0]), tx, data.drop_first())
    }
}

/// Feeding the reverser extends the two buffers by exactly the bytes
/// fed: what the line reverser queues never outruns what arrived.
pub proof fn lemma_rev_push_len(rx: Seq<u8>, tx: Seq<u8>, data: Seq<u8>)
    ensures
        rev_push(rx, tx, data).0.len() + rev_push(rx, tx, data).1.len() == rx.len() + tx.len()
            + data.len(),
    decreases data.len(),
{
    if data.len() > 0 {
        if data[0] == 10 {
            lemma_rev_push_len(Seq::empty(), tx + rx.reverse() + seq![10u8], data.drop_first());
        } else {
            lemma_rev_push_len(rx.push(data[0]), tx, data.drop_first());
        }
    }
}

/// The outgoing buffer only grows under the reverser.
pub proof fn lemma_rev_push_tx_prefix(rx: Seq<u8>, tx: Seq<u8>, data: Seq<u8>)
    ensures
        rev_push(rx, tx, data).1.len() >= tx.len(),
    decreases data.len(),
{
    if data.len() > 0 {
        if data[0] == 10 {
            lemma_rev_push_tx_prefix(
                Seq::empty(),
                tx + rx.reverse() + seq![10u8],
                data.drop_first(),
            );
        } else {
            lemma_rev_push_tx_prefix(rx.push(data[0]), tx, data.drop_first());
        }
    }
}

impl Session {
    pub fn new() -> (r: Session)
        ensures
            r@.rx == Seq::<u8>::empty(),
            r@.tx == Seq::<u8>::empty(),
            r@.received == 0,
            r@.sent == 0,
            r@.acked == 0,
            session_wf(r@),
    {
        let r = Session {
            data_received: Vec::new(),
            data_to_send: Vec::new(),
            length_received: 0,
            length_sent: 0,
            length_acked: 0,
        };
        proof {
            assert(r@.rx =~= Seq::<u8>::empty());
            assert(r@.tx =~= Seq::<u8>::empty());
        }
        r
    }

    /// Accept contiguous payload bytes: count them and run them
    /// through the line reverser.  `length_received` grows by exactly
    /// the bytes accepted.
    pub fn push(&mut self, data: &[u8])
        requires
            old(self)@.received + data@.len() <= u64::MAX,
        ensures
            final (self)@.rx == rev_push(old(self)@.rx, old(self)@.tx, data@).0,
            final (self)@.tx == rev_push(old(self)@.rx, old(self)@.tx, data@).1,
            final (self)@.received == old(self)@.received + data@.len(),
            final (self)@.sent == old(self)@.sent,
            final (self)@.acked == old(self)@.acked,
            final (self)@ == push_tr(old(self)@, data@),
            session_wf(old(self)@) ==> session_wf(final (self)@),
    {
        proof {
            lemma_rev_push_len(old(self)@.rx, old(self)@.tx, data@);
            lemma_rev_push_tx_prefix(old(self)@.rx, old(self)@.tx, data@);
        }
        self.length_received = self.length_received + data.len() as u64;
        let ghost orx = self.data_received@;
        let ghost otx = self.data_to_send@;
        let mut i: usize = 0;
        proof {
            assert(data@.skip(0) =~= data@);
        }
        while i < data.len()
            invariant
                0 <= i <= data@.len(),
                self.length_received == old(self)@.received + data@.len(),
                self.length_sent == old(self)@.sent,
                self.length_acked == old(self)@.acked,
                rev_push(orx, otx, data@) == rev_push(
                    self.data_received@,
                    self.data_to_send@,
                    data@.skip(i as int),
                ),
            decreases data@.len() - i,
        {
            let b = data[i];
            proof {
                assert(data@.skip(i as int)[0] == data@[i as int]);
                assert(data@.skip(i as int).drop_first() =~= data@.skip(i + 1));
            }
            if b == 10 {
                let ghost rx0 = self.data_received@;
                let ghost tx0 = self.data_to_send@;
                let mut k: usize = self.data_received.len();
                while k > 0
                    invariant
                        0 <= k <= rx0.len(),
                        self.data_received@ == rx0,
                        self.length_received == old(self)@.received + data@.len(),
                        self.length_sent == old(self)@.sent,
                        self.length_acked == old(self)@.acked,
                        self.data_to_send@ =~= tx0 + rx0.reverse().take(rx0.len() - k),
                    decreases k,
                {
                    k = k - 1;
                    self.data_to_send.push(self.data_received[k]);
                    proof {
                        assert(self.data_to_send@ =~= tx0 + rx0.reverse().take(rx0.len() - k));
                    }
                }
                proof {
                    assert(rx0.reverse().take(rx0.len() as int) =~= rx0.reverse());
                }
                self.data_to_send.push(10);
                self.data_received.clear();
                proof {
                    assert(self.data_to_send@ =~= tx0 + rx0.reverse() + seq![10u8]);
                    assert(self.data_received@ =~= Seq::<u8>::empty());
                }
            } else {
                self.data_received.push(b);
            }
            i = i + 1;
        }
        proof {
            assert(data@.skip(data@.len() as int) =~= Seq::<u8>::empty());
        }
    }

    /// The next slice to hand to the retransmitter: the first bytes
    /// of the outgoing buffer, at most 950 of them.
    pub fn get_message(&mut self) -> (r: Option<Vec<u8>>)
        ensures
            *final (self) == *old(self),
            match r {
                Some(m) => old(self)@.tx.len() > 0 && m@ == chunk_of(old(self)@.tx),
                None => old(self)@.tx.len() == 0,
            },
    {
        if self.data_to_send.len() == 0 {
            return None;
        }
        let n = if self.data_to_send.len() < 950 {
            self.data_to_send.len()
        } else {
            950
        };
        let mut out: Vec<u8> = Vec::new();
        let mut k: usize = 0;
        while k < n
            invariant
                0 <= k <= n <= self.data_to_send@.len(),
                out@ =~= self.data_to_send@.take(k as int),
            decreases n - k,
        {
            out.push(self.data_to_send[k]);
            proof {
                assert(out@ =~= self.data_to_send@.take(k + 1));
            }
            k = k + 1;
        }
        proof {
            assert(out@ =~= chunk_of(self@.tx));
        }
        Some(out)
    }

    /// The peer has confirmed everything sent: drop the confirmed
    /// prefix of the outgoing buffer and advance `length_acked` to
    /// `length_sent`.  `length_acked` never moves backwards.
    pub fn acknowledge(&mut self)
        requires
            session_wf(old(self)@),
        ensures
            final (self)@.tx == old(self)@.tx.skip(old(self)@.sent - old(self)@.acked),
            final (self)@.acked == old(self)@.sent,
            final (self)@.sent == old(self)@.sent,
            final (self)@.received == old(self)@.received,
            final (self)@.rx == old(self)@.rx,
            final (self)@.acked >= old(self)@.acked,
            session_wf(final (self)@),
    {
        let n = (self.length_sent - self.length_acked) as usize;
        let mut kept: Vec<u8> = Vec::new();
        let mut k: usize = n;
        while k < self.data_to_send.len()
            invariant
                n <= k <= self.data_to_send@.len(),
                kept@ =~= self.data_to_send@.subrange(n as int, k as int),
            decreases self.data_to_send@.len() - k,
        {
            kept.push(self.data_to_send[k]);
            proof {
                assert(kept@ =~= self.data_to_send@.subrange(n as int, k + 1));
            }
            k = k + 1;
        }
        proof {
            assert(self.data_to_send@.subrange(
                n as int,
                self.data_to_send@.len() as int,
            ) =~= self.data_to_send@.skip(n as int));
        }
        self.data_to_send = kept;
        self.length_acked = self.length_sent;
    }
}

/// The slice of the outgoing buffer handed to one datagram: at most
/// 950 application bytes.
pub open spec fn chunk_of(tx: Seq<u8>) -> Seq<u8> {
    if tx.len() < 950 {
        tx
    } else {
        tx.take(950)
    }
}

/// Payload bytes as they stand in a datagram: `\\` and `/` are
/// preceded by a backslash.
pub open spec fn escape(s: Seq<u8>) -> Seq<u8>
    decreases s.len(),
{
    if s.len() == 0 {
        Seq::empty()
    } else if s[0] == 47 || s[0] == 92 {
        seq![92u8, s[0]] + escape(s.drop_first())
    } else {
        seq![s[0]] + escape(s.drop_first())
    }
}

/// Datagram payload bytes back to application bytes: a backslash
/// yields the byte after it.
pub open spec fn unescape(s: Seq<u8>) -> Seq<u8>
    decreases s.len(),
{
    if s.len() == 0 {
        Seq::empty()
    } else if s[0] == 92 {
        if s.len() == 1 {
            seq![92u8]
        } else {
            seq![s[1]] + unescape(s.skip(2))
        }
    } else {
        seq![s[0]] + unescape(s.drop_first())
    }
}

/// A well-escaped byte string: no bare `/` or `\\`, every backslash
/// followed by one of the two.
pub open spec fn well_escaped(s: Seq<u8>) -> bool
    decreases s.len(),
{
    if s.len() == 0 {
        true
    } else if s[0] == 47 {
        false
    } else if s[0] == 92 {
        s.len() >= 2 && (s[1] == 47 || s[1] == 92) && well_escaped(s.skip(2))
    } else {
        well_escaped(s.drop_first())
    }
}

/// Unescaping never lengthens a payload.
pub proof fn lemma_unescape_len(s: Seq<u8>)
    ensures
        unescape(s).len() <= s.len(),
    decreases s.len(),
{
    if s.len() > 0 {
        if s[0] == 92 {
            if s.len() > 1 {
                lemma_unescape_len(s.skip(2));
            }
        } else {
            lemma_unescape_len(s.drop_first());
        }
    }
}

/// A parsed data payload fits in one datagram: the grammar caps the
/// datagram at 1000 bytes and unescaping never lengthens.
pub proof fn lemma_parsed_data_short(d: Seq<u8>)
    ensures
        spec_parse_packet(d) matches Some(PacketView::Data { data, .. }) ==> data.len() <= 1000,
{
    if !(d.len() < 1 || d.len() > 1000 || d[0] != 47) {
        let e = field_end(d, 1);
        if e >= 0 {
            match num_field(d, e + 1) {
                Some((_, j)) => {
                    match num_field(d, j) {
                        Some((_, j2)) => {
                            if j2 < d.len() && d[d.len() - 1] == 47 {
                                lemma_unescape_len(d.subrange(j2, d.len() - 1));
                            }
                        },
                        None => {},
                    }
                },
                None => {},
            }
        }
    }
}

/// Unescaping undoes escaping.
pub proof fn lemma_unescape_escape(s: Seq<u8>)
    ensures
        unescape(escape(s)) == s,
        well_escaped(escape(s)),
    decreases s.len(),
{
    if s.len() > 0 {
        lemma_unescape_escape(s.drop_first());
        if s[0] == 47 || s[0] == 92 {
            let e = seq![92u8, s[0]] + escape(s.drop_first());
            assert(e[0] == 92 && e[1] == s[0]);
            assert(e.skip(2) =~= escape(s.drop_first()));
            assert(unescape(e) =~= seq![s[0]] + s.drop_first());
            assert(seq![s[0]] + s.drop_first() =~= s);
        } else {
            let e = seq![s[0]] + escape(s.drop_first());
            assert(e[0] == s[0]);
            assert(e.drop_first() =~= escape(s.drop_first()));
            assert(unescape(e) =~= seq![s[0]] + s.drop_first());
            assert(seq![s[0]] + s.drop_first() =~= s);
        }
    }
}

/// Escape a payload for the wire.
pub fn escape_bytes(s: &[u8]) -> (r: Vec<u8>)
    ensures
        r@ == escape(s@),
{
    let mut out: Vec<u8> = Vec::new();
    let mut i: usize = s.len();
    while i > 0
        invariant
            0 <= i <= s@.len(),
            out@ =~= escape(s@.skip(i as int)),
        decreases i,
    {
        i = i - 1;
        proof {
            assert(s@.skip(i as int)[0] == s@[i as int]);
            assert(s@.skip(i as int).drop_first() =~= s@.skip(i + 1));
        }
        let b = s[i];
        if b == 47 || b == 92 {
            out.insert(0, b);
            out.insert(0, 92);
            proof {
                assert(out@ =~= escape(s@.skip(i as int)));
            }
        } else {
            out.insert(0, b);
            proof {
                assert(out@ =~= escape(s@.skip(i as int)));
            }
        }
    }
    proof {
        assert(s@.skip(0) =~= s@);
    }
    out
}

/// Unescape a datagram payload.
pub fn unescape_bytes(s: &[u8]) -> (r: Vec<u8>)
    ensures
        r@ == unescape(s@),
{
    let mut out: Vec<u8> = Vec::new();
    let mut i: usize = 0;
    proof {
        assert(s@.skip(0) =~= s@);
    }
    while i < s.len()
        invariant
            0 <= i <= s@.len(),
            unescape(s@) =~= out@ + unescape(s@.skip(i as int)),
        decreases s@.len() - i,
    {
        proof {
            assert(s@.skip(i as int)[0] == s@[i as int]);
            assert(s@.skip(i as int).drop_first() =~= s@.skip(i + 1));
        }
        let b = s[i];
        if b == 92 {
            if i + 1 < s.len() {
                proof {
                    assert(s@.skip(i as int)[1] == s@[i + 1]);
                    assert(s@.skip(i as int).skip(2) =~= s@.skip(i + 2));
                }
                out.push(s[i + 1]);
                i = i + 2;
            } else {
                out.push(92);
                i = i + 1;
                proof {
                    assert(s@.skip(i as int) =~= Seq::<u8>::empty());
                }
            }
        } else {
            out.push(b);
            i = i + 1;
        }
        proof {
            assert(unescape(s@) =~= out@ + unescape(s@.skip(i as int)));
        }
    }
    proof {
        assert(s@.skip(s@.len() as int) =~= Seq::<u8>::empty());
        assert(out@ + Seq::<u8>::empty() =~= out@);
    }
    out
}


/// The spec-level image of `push`: one data delivery to a session.
pub open spec fn push_tr(s: SessionView, data: Seq<u8>) -> SessionView {
    SessionView {
        rx: rev_push(s.rx, s.tx, data).0,
        tx: rev_push(s.rx, s.tx, data).1,
        received: (s.received + data.len()) as u64,
        sent: s.sent,
        acked: s.acked,
    }
}

pub open spec fn sum_lens(ds: Seq<Seq<u8>>) -> int
    decreases ds.len(),
{
    if ds.len() == 0 {
        0
    } else {
        sum_lens(ds.drop_first()) + ds[0].len()
    }
}

pub open spec fn push_all(s: SessionView, ds: Seq<Seq<u8>>) -> SessionView
    decreases ds.len(),
{
    if ds.len() == 0 {
        s
    } else {
        push_all(push_tr(s, ds[0]), ds.drop_first())
    }
}

/// After any run of accepted deliveries, the received length equals
/// the starting length plus the sum of the accepted payload lengths.
pub proof fn lemma_received_is_sum(s: SessionView, ds: Seq<Seq<u8>>)
    requires
        s.received + sum_lens(ds) <= u64::MAX,
    ensures
        sum_lens(ds) >= 0,
        push_all(s, ds).received == s.received + sum_lens(ds),
    decreases ds.len(),
{
    if ds.len() > 0 {
        lemma_sum_lens_nonneg(ds.drop_first());
        lemma_received_is_sum(push_tr(s, ds[0]), ds.drop_first());
    }
}

pub proof fn lemma_sum_lens_nonneg(ds: Seq<Seq<u8>>)
    ensures
        sum_lens(ds) >= 0,
    decreases ds.len(),
{
    if ds.len() > 0 {
        lemma_sum_lens_nonneg(ds.drop_first());
    }
}

/// The wire text `/ack/SID/N/`.
pub open spec fn ack_wire(sid: u32, n: u64) -> Seq<u8> {
    seq![47u8, 97u8, 99u8, 107u8, 47u8] + crate::util::dec_digits(sid as nat) + seq![47u8]
        + crate::util::dec_digits(n as nat) + seq![47u8]
}

/// The wire text `/data/SID/POS/DATA/`, payload escaped.
pub open spec fn data_wire(sid: u32, pos: u64, payload: Seq<u8>) -> Seq<u8> {
    seq![47u8, 100u8, 97u8, 116u8, 97u8, 47u8] + crate::util::dec_digits(sid as nat) + seq![47u8]
        + crate::util::dec_digits(pos as nat) + seq![47u8] + escape(payload) + seq![47u8]
}

/// The wire text `/close/SID/`.
pub open spec fn close_wire(sid: u32) -> Seq<u8> {
    seq![47u8, 99u8, 108u8, 111u8, 115u8, 101u8, 47u8] + crate::util::dec_digits(sid as nat)
        + seq![47u8]
}

/// Write `/ack/SID/N/`.
pub fn make_ack(sid: u32, n: u64) -> (r: Vec<u8>)
    ensures
        r@ == ack_wire(sid, n),
{
    let mut out: Vec<u8> = vec![47u8, 97u8, 99u8, 107u8, 47u8];
    let mut ds = crate::util::format_dec(sid as u64);
    out.append(&mut ds);
    out.push(47);
    let mut dn = crate::util::format_dec(n);
    out.append(&mut dn);
    out.push(47);
    proof {
        assert(out@ =~= ack_wire(sid, n));
    }
    out
}

/// Write `/data/SID/POS/DATA/`, escaping the payload.
pub fn make_data(sid: u32, pos: u64, payload: &[u8]) -> (r: Vec<u8>)
    ensures
        r@ == data_wire(sid, pos, payload@),
{
    let mut out: Vec<u8> = vec![47u8, 100u8, 97u8, 116u8, 97u8, 47u8];
    let mut ds = crate::util::format_dec(sid as u64);
    out.append(&mut ds);
    out.push(47);
    let mut dp = crate::util::format_dec(pos);
    out.append(&mut dp);
    out.push(47);
    let mut esc = escape_bytes(payload);
    out.append(&mut esc);
    out.push(47);
    proof {
        assert(out@ =~= data_wire(sid, pos, payload@));
    }
    out
}

/// Write `/close/SID/`.
pub fn make_close(sid: u32) -> (r: Vec<u8>)
    ensures
        r@ == close_wire(sid),
{
    let mut out: Vec<u8> = vec![47u8, 99u8, 108u8, 111u8, 115u8, 101u8, 47u8];
    let mut ds = crate::util::format_dec(sid as u64);
    out.append(&mut ds);
    out.push(47);
    proof {
        assert(out@ =~= close_wire(sid));
    }
    out
}

/// One parsed datagram.
pub enum Packet {
    Connect { session: u32 },
    Data { session: u32, pos: u32, data: Vec<u8> },
    Ack { session: u32, length: u32 },
    Close { session: u32 },
}

/// Mathematical image of a datagram.
#[verifier::ext_equal]
pub enum PacketView {
    Connect { session: u32 },
    Data { session: u32, pos: u32, data: Seq<u8> },
    Ack { session: u32, length: u32 },
    Close { session: u32 },
}

impl View for Packet {
    type V = PacketView;

    open spec fn view(&self) -> PacketView {
        match self {
            Packet::Connect { session } => PacketView::Connect { session: *session },
            Packet::Data { session, pos, data } => PacketView::Data {
                session: *session,
                pos: *pos,
                data: data@,
            },
            Packet::Ack { session, length } => PacketView::Ack {
                session: *session,
                length: *length,
            },
            Packet::Close { session } => PacketView::Close { session: *session },
        }
    }
}

/// The position of the next `/` at or after `i`, or -1.
pub open spec fn field_end(d: Seq<u8>, i: int) -> int
    decreases d.len() - i,
{
    if i < 0 || i >= d.len() {
        -1
    } else if d[i] == 47 {
        i
    } else {
        field_end(d, i + 1)
    }
}

/// A numeric field: decimal digits up to the next `/`, the value at
/// most `u32::MAX`; yields the value and the index after the slash.
pub open spec fn num_field(d: Seq<u8>, i: int) -> Option<(u32, int)> {
    let e = field_end(d, i);
    if e < 0 {
        None
    } else {
        let f = d.subrange(i, e);
        if f.len() > 0 && crate::util::all_digits(f) && crate::util::dec_value(f) <= u32::MAX {
            Some((crate::util::dec_value(f) as u32, e + 1))
        } else {
            None
        }
    }
}

pub open spec fn connect_cmd() -> Seq<u8> {
    seq![99u8, 111u8, 110u8, 110u8, 101u8, 99u8, 116u8]
}

pub open spec fn data_cmd() -> Seq<u8> {
    seq![100u8, 97u8, 116u8, 97u8]
}

pub open spec fn ack_cmd() -> Seq<u8> {
    seq![97u8, 99u8, 107u8]
}

pub open spec fn close_cmd() -> Seq<u8> {
    seq![99u8, 108u8, 111u8, 115u8, 101u8]
}

/// The packet written by one datagram; `None` when the datagram is
/// over 1000 bytes or breaks the grammar, in which case it is
/// silently dropped.
pub open spec fn spec_parse_packet(d: Seq<u8>) -> Option<PacketView> {
    if d.len() < 1 || d.len() > 1000 || d[0] != 47 {
        None
    } else {
        let e = field_end(d, 1);
        if e < 0 {
            None
        } else {
            let cmd = d.subrange(1, e);
            if cmd == connect_cmd() {
                match num_field(d, e + 1) {
                    Some((sid, j)) => if j == d.len() {
                        Some(PacketView::Connect { session: sid })
                    } else {
                        None
                    },
                    None => None,
                }
            } else if cmd == ack_cmd() {
                match num_field(d, e + 1) {
                    Some((sid, j)) => match num_field(d, j) {
                        Some((n, j2)) => if j2 == d.len() {
                            Some(PacketView::Ack { session: sid, length: n })
                        } else {
                            None
                        },
                        None => None,
                    },
                    None => None,
                }
            } else if cmd == close_cmd() {
                match num_field(d, e + 1) {
                    Some((sid, j)) => if j == d.len() {
                        Some(PacketView::Close { session: sid })
                    } else {
                        None
                    },
                    None => None,
                }
            } else if cmd == data_cmd() {
                match num_field(d, e + 1) {
                    Some((sid, j)) => match num_field(d, j) {
                        Some((pos, j2)) => if j2 < d.len() && d[d.len() - 1] == 47 {
                            let raw = d.subrange(j2, d.len() - 1);
                            if raw.len() >= 1 && well_escaped(raw) {
                                Some(
                                    PacketView::Data {
                                        session: sid,
                                        pos,
                                        data: unescape(raw),
                                    },
                                )
                            } else {
                                None
                            }
                        } else {
                            None
                        },
                        None => None,
                    },
                    None => None,
                }
            } else {
                None
            }
        }
    }
}

/// The next `/` at or after `i`.
fn find_slash(d: &[u8], i: usize) -> (r: Option<usize>)
    requires
        i <= d@.len(),
    ensures
        match r {
            Some(e) => i <= e < d@.len() && field_end(d@, i as int) == e,
            None => field_end(d@, i as int) == -1,
        },
{
    let mut k: usize = i;
    while k < d.len()
        invariant
            i <= k <= d@.len(),
            field_end(d@, i as int) == field_end(d@, k as int),
        decreases d@.len() - k,
    {
        if d[k] == 47 {
            return Some(k);
        }
        k = k + 1;
    }
    None
}

/// Read a numeric field ending in `/`.
fn read_num_field(d: &[u8], i: usize) -> (r: Option<(u32, usize)>)
    requires
        i <= d@.len(),
    ensures
        match r {
            Some((v, j)) => num_field(d@, i as int) == Some((v, j as int)) && i < j <= d@.len(),
            None => num_field(d@, i as int) is None,
        },
{
    let e = match find_slash(d, i) {
        Some(e) => e,
        None => {
            return None;
        },
    };
    let field = &d[i..e];
    proof {
        assert(field@ == d@.subrange(i as int, e as int));
    }
    let dl = d.len();
    match crate::util::parse_dec_bounded(field, 0xffff_ffffu64) {
        Some(v) => {
            proof {
                assert(e < dl);
            }
            Some((v as u32, e + 1))
        },
        None => None,
    }
}

/// Check that a raw data field is well escaped.
fn check_escaped(s: &[u8]) -> (r: bool)
    ensures
        r == well_escaped(s@),
{
    let mut i: usize = 0;
    proof {
        assert(s@.skip(0) =~= s@);
    }
    while i < s.len()
        invariant
            0 <= i <= s@.len(),
            well_escaped(s@) == well_escaped(s@.skip(i as int)),
        decreases s@.len() - i,
    {
        proof {
            assert(s@.skip(i as int)[0] == s@[i as int]);
            assert(s@.skip(i as int).drop_first() =~= s@.skip(i + 1));
        }
        let b = s[i];
        if b == 47 {
            return false;
        }
        if b == 92 {
            if i + 1 >= s.len() {
                return false;
            }
            let c = s[i + 1];
            proof {
                assert(s@.skip(i as int)[1] == s@[i + 1]);
                assert(s@.skip(i as int).skip(2) =~= s@.skip(i + 2));
            }
            if c != 47 && c != 92 {
                return false;
            }
            i = i + 2;
        } else {
            i = i + 1;
        }
    }
    proof {
        assert(s@.skip(s@.len() as int) =~= Seq::<u8>::empty());
    }
    true
}

/// Parse one datagram.
pub fn parse_packet(d: &[u8]) -> (r: Option<Packet>)
    ensures
        match r {
            Some(p) => spec_parse_packet(d@) == Some(p@),
            None => spec_parse_packet(d@) is None,
        },
{
    if d.len() < 1 || d.len() > 1000 {
        return None;
    }
    if d[0] != 47 {
        return None;
    }
    let e = match find_slash(d, 1) {
        Some(e) => e,
        None => {
            return None;
        },
    };
    let cmd = &d[1..e];
    proof {
        assert(cmd@ == d@.subrange(1, e as int));
    }
    let cc: Vec<u8> = vec![99u8, 111u8, 110u8, 110u8, 101u8, 99u8, 116u8];
    let ca: Vec<u8> = vec![97u8, 99u8, 107u8];
    let cl: Vec<u8> = vec![99u8, 108u8, 111u8, 115u8, 101u8];
    let cd: Vec<u8> = vec![100u8, 97u8, 116u8, 97u8];
    proof {
        assert(cc@ =~= connect_cmd());
        assert(ca@ =~= ack_cmd());
        assert(cl@ =~= close_cmd());
        assert(cd@ =~= data_cmd());
    }
    if crate::util::bytes_eq(cmd, cc.as_slice()) {
        let (sid, j) = match read_num_field(d, e + 1) {
            Some(x) => x,
            None => {
                return None;
            },
        };
        if j == d.len() {
            Some(Packet::Connect { session: sid })
        } else {
            None
        }
    } else if crate::util::bytes_eq(cmd, ca.as_slice()) {
        let (sid, j) = match read_num_field(d, e + 1) {
            Some(x) => x,
            None => {
                return None;
            },
        };
        let (n, j2) = match read_num_field(d, j) {
            Some(x) => x,
            None => {
                return None;
            },
        };
        if j2 == d.len() {
            Some(Packet::Ack { session: sid, length: n })
        } else {
            None
        }
    } else if crate::util::bytes_eq(cmd, cl.as_slice()) {
        let (sid, j) = match read_num_field(d, e + 1) {
            Some(x) => x,
            None => {
                return None;
            },
        };
        if j == d.len() {
            Some(Packet::Close { session: sid })
        } else {
            None
        }
    } else if crate::util::bytes_eq(cmd, cd.as_slice()) {
        let (sid, j) = match read_num_field(d, e + 1) {
            Some(x) => x,
            None => {
                return None;
            },
        };
        let (pos, j2) = match read_num_field(d, j) {
            Some(x) => x,
            None => {
                return None;
            },
        };
        if j2 >= d.len() || d[d.len() - 1] != 47 {
            return None;
        }
        let raw = &d[j2..d.len() - 1];
        proof {
            assert(raw@ == d@.subrange(j2 as int, d@.len() - 1));
        }
        if raw.len() < 1 || !check_escaped(raw) {
            return None;
        }
        let payload = unescape_bytes(raw);
        Some(Packet::Data { session: sid, pos, data: payload })
    } else {
        None
    }
}


/// One thing the server must do after handling a datagram.
pub enum OutMsg {
    /// Stop retransmitting for this session.
    Cancel { session: u32 },
    /// Send one datagram, fire and forget.
    Datagram { session: u32, data: Vec<u8> },
    /// Send one datagram and retransmit it until its ack arrives.
    Reliable { session: u32, data: Vec<u8> },
    /// Send `/close/SID/`.
    Close { session: u32 },
}

/// Mathematical image of an outgoing instruction.
#[verifier::ext_equal]
pub enum OutView {
    Cancel { session: u32 },
    Datagram { session: u32, data: Seq<u8> },
    Reliable { session: u32, data: Seq<u8> },
    Close { session: u32 },
}

impl View for OutMsg {
    type V = OutView;

    open spec fn view(&self) -> OutView {
        match self {
            OutMsg::Cancel { session } => OutView::Cancel { session: *session },
            OutMsg::Datagram { session, data } => OutView::Datagram {
                session: *session,
                data: data@,
            },
            OutMsg::Reliable { session, data } => OutView::Reliable {
                session: *session,
                data: data@,
            },
            OutMsg::Close { session } => OutView::Close { session: *session },
        }
    }
}

pub open spec fn mviews(ms: Seq<OutMsg>) -> Seq<OutView> {
    ms.map_values(|m: OutMsg| m@)
}

pub open spec fn sviews(ss: Seq<(u32, Session)>) -> Seq<(u32, SessionView)> {
    ss.map_values(|p: (u32, Session)| (p.0, p.1@))
}

/// The index of a session id in the table, or -1.
pub open spec fn sidx(sv: Seq<(u32, SessionView)>, sid: u32) -> int
    decreases sv.len(),
{
    if sv.len() == 0 {
        -1
    } else if sv[0].0 == sid {
        0
    } else {
        let r = sidx(sv.drop_first(), sid);
        if r < 0 {
            -1
        } else {
            r + 1
        }
    }
}

pub proof fn lemma_sidx_from(sv: Seq<(u32, SessionView)>, sid: u32, i: int)
    requires
        0 <= i <= sv.len(),
        forall|k: int| 0 <= k < i ==> (#[trigger] sv[k]).0 != sid,
        i == sv.len() || sv[i].0 == sid,
    ensures
        sidx(sv, sid) == if i == sv.len() {
            -1int
        } else {
            i
        },
    decreases sv.len(),
{
    if sv.len() > 0 {
        if i == 0 {
        } else {
            assert(sv[0].0 != sid);
            assert forall|k: int| 0 <= k < i - 1 implies (#[trigger] sv.drop_first()[k]).0
                != sid by {
                assert(sv.drop_first()[k] == sv[k + 1]);
            }
            if i < sv.len() {
                assert(sv.drop_first()[i - 1] == sv[i]);
            }
            lemma_sidx_from(sv.drop_first(), sid, i - 1);
        }
    }
}

/// Session ids are unique and every session is well formed.
pub open spec fn table_wf(sv: Seq<(u32, SessionView)>) -> bool {
    &&& forall|i: int, j: int| 0 <= i < j < sv.len() ==> (#[trigger] sv[i]).0 != (#[trigger] sv[j]).0
    &&& forall|i: int| 0 <= i < sv.len() ==> session_wf((#[trigger] sv[i]).1)
}

/// The session-table response to a data packet for a known session:
/// accepted payloads are acknowledged at the new received length and
/// may release the next outgoing slice; anything else repeats the
/// current acknowledgement.
pub open spec fn data_step(sid: u32, s: SessionView, pos: u32, payload: Seq<u8>) -> (
    SessionView,
    Seq<OutView>,
) {
    if pos == s.received {
        let rx2 = rev_push(s.rx, s.tx, payload).0;
        let tx2 = rev_push(s.rx, s.tx, payload).1;
        let ackmsg = OutView::Datagram {
            session: sid,
            data: ack_wire(sid, (s.received + payload.len()) as u64),
        };
        if s.acked == s.sent && tx2.len() > 0 {
            let chunk = chunk_of(tx2);
            (
                SessionView {
                    rx: rx2,
                    tx: tx2,
                    received: (s.received + payload.len()) as u64,
                    sent: (s.sent + chunk.len()) as u64,
                    acked: s.acked,
                },
                seq![
                    ackmsg,
                    OutView::Reliable { session: sid, data: data_wire(sid, s.acked, chunk) },
                ],
            )
        } else {
            (
                SessionView {
                    rx: rx2,
                    tx: tx2,
                    received: (s.received + payload.len()) as u64,
                    sent: s.sent,
                    acked: s.acked,
                },
                seq![ackmsg],
            )
        }
    } else {
        (s, seq![OutView::Datagram { session: sid, data: ack_wire(sid, s.received) }])
    }
}

/// The per-session response to an ack that keeps the session: a
/// stale ack is ignored, an ack of everything sent advances the
/// window and may release the next slice, anything in between
/// provokes a retransmission from the acknowledged length.  An ack
/// past what was sent is not a session step: it removes the session
/// from the table (see `receive_ack`).
pub open spec fn ack_step(sid: u32, s: SessionView, n: u32) -> (SessionView, Seq<OutView>)
    recommends
        n <= s.sent,
{
    let cancel = OutView::Cancel { session: sid };
    if n < s.acked {
        (s, seq![cancel])
    } else if n == s.sent {
        let tx2 = s.tx.skip(s.sent - s.acked);
        let s2 = SessionView { rx: s.rx, tx: tx2, received: s.received, sent: s.sent, acked: s.sent };
        if tx2.len() > 0 {
            let chunk = chunk_of(tx2);
            (
                SessionView {
                    rx: s.rx,
                    tx: tx2,
                    received: s.received,
                    sent: (s.sent + chunk.len()) as u64,
                    acked: s.sent,
                },
                seq![
                    cancel,
                    OutView::Reliable { session: sid, data: data_wire(sid, s.sent, chunk) },
                ],
            )
        } else {
            (s2, seq![cancel])
        }
    } else {
        (
            s,
            seq![
                cancel,
                OutView::Reliable { session: sid, data: data_wire(sid, s.acked, chunk_of(s.tx)) },
            ],
        )
    }
}

/// The acknowledged length never retreats and never passes the sent
/// length, whatever ack arrives.
pub proof fn lemma_ack_step_monotonic(sid: u32, s: SessionView, n: u32)
    requires
        session_wf(s),
    ensures
        ack_step(sid, s, n).0.acked >= s.acked,
        session_wf(ack_step(sid, s, n).0),
{
}

/// Accepting payload never retreats any counter, and the received
/// length grows by exactly the payload accepted.
pub proof fn lemma_data_step_monotonic(sid: u32, s: SessionView, pos: u32, payload: Seq<u8>)
    requires
        session_wf(s),
        pos + payload.len() <= u64::MAX,
    ensures
        data_step(sid, s, pos, payload).0.acked == s.acked,
        data_step(sid, s, pos, payload).0.received >= s.received,
        pos == s.received ==> data_step(sid, s, pos, payload).0.received == s.received
            + payload.len(),
        session_wf(data_step(sid, s, pos, payload).0),
{
    if pos == s.received {
        lemma_rev_push_len(s.rx, s.tx, payload);
        lemma_rev_push_tx_prefix(s.rx, s.tx, payload);
    }
}

/// The table of live sessions.
pub struct ServerState {
    pub sessions: Vec<(u32, Session)>,
}

impl ServerState {
    pub fn new() -> (r: ServerState)
        ensures
            sviews(r.sessions@) == Seq::<(u32, SessionView)>::empty(),
            table_wf(sviews(r.sessions@)),
    {
        let r = ServerState { sessions: Vec::new() };
        proof {
            assert(sviews(r.sessions@) =~= Seq::<(u32, SessionView)>::empty());
        }
        r
    }

    /// The index of `sid` in the table.
    fn find_session(&self, sid: u32) -> (r: Option<usize>)
        ensures
            match r {
                Some(i) => i < self.sessions@.len() && sidx(sviews(self.sessions@), sid)
                    == i as int,
                None => sidx(sviews(self.sessions@), sid) == -1,
            },
    {
        let ghost sv = sviews(self.sessions@);
        let mut i: usize = 0;
        while i < self.sessions.len()
            invariant
                0 <= i <= self.sessions@.len(),
                sv == sviews(self.sessions@),
                sv.len() == self.sessions@.len(),
                forall|k: int| 0 <= k < i ==> (#[trigger] sv[k]).0 != sid,
            decreases self.sessions@.len() - i,
        {
            if self.sessions[i].0 == sid {
                proof {
                    assert(sv[i as int].0 == sid);
                    lemma_sidx_from(sv, sid, i as int);
                }
                return Some(i);
            }
            proof {
                assert(sv[i as int].0 != sid);
            }
            i = i + 1;
        }
        proof {
            lemma_sidx_from(sv, sid, sv.len() as int);
        }
        None
    }

    /// A connect packet: create the session if it is new (it starts
    /// with every counter at zero), and acknowledge position zero
    /// either way.
    pub fn connect_session(&mut self, session: u32) -> (r: Vec<OutMsg>)
        requires
            table_wf(sviews(old(self).sessions@)),
        ensures
            table_wf(sviews(final (self).sessions@)),
            mviews(r@) == seq![OutView::Datagram { session, data: ack_wire(session, 0) }],
            ({
                let sv = sviews(old(self).sessions@);
                if sidx(sv, session) >= 0 {
                    final (self).sessions@ == old(self).sessions@
                } else {
                    sviews(final (self).sessions@) =~= sv.push(
                        (
                            session,
                            SessionView {
                                rx: Seq::<u8>::empty(),
                                tx: Seq::<u8>::empty(),
                                received: 0,
                                sent: 0,
                                acked: 0,
                            },
                        ),
                    )
                }
            }),
    {
        let ghost sv = sviews(old(self).sessions@);
        if self.find_session(session).is_none() {
            let fresh = Session::new();
            self.sessions.push((session, fresh));
            proof {
                assert(sviews(self.sessions@) =~= sv.push((session, fresh@)));
                assert forall|k: int| 0 <= k < sv.len() implies (#[trigger] sv[k]).0 != session by {
                    if sv[k].0 == session {
                        lemma_sidx_at_least(sv, session, k);
                    }
                }
            }
        }
        let mut r: Vec<OutMsg> = Vec::new();
        r.push(OutMsg::Datagram { session, data: make_ack(session, 0) });
        proof {
            assert(mviews(r@) =~= seq![
                OutView::Datagram { session, data: ack_wire(session, 0) },
            ]);
        }
        r
    }

    /// A data packet: unknown sessions are told to close; a known
    /// session takes the `data_step` transition.
    pub fn receive_data(&mut self, session: u32, pos: u32, data: &[u8]) -> (r: Vec<OutMsg>)
        requires
            table_wf(sviews(old(self).sessions@)),
            pos + data@.len() <= u64::MAX,
        ensures
            table_wf(sviews(final (self).sessions@)),
            ({
                let sv = sviews(old(self).sessions@);
                let i = sidx(sv, session);
                if i < 0 {
                    final (self).sessions@ == old(self).sessions@ && mviews(r@) =~= seq![
                        OutView::Close { session },
                    ]
                } else {
                    sviews(final (self).sessions@) =~= sv.update(
                        i,
                        (session, data_step(session, sv[i].1, pos, data@).0),
                    ) && mviews(r@) =~= data_step(session, sv[i].1, pos, data@).1
                }
            }),
    {
        let ghost sv = sviews(old(self).sessions@);
        let i = match self.find_session(session) {
            Some(i) => i,
            None => {
                let mut r: Vec<OutMsg> = Vec::new();
                r.push(OutMsg::Close { session });
                proof {
                    assert(mviews(r@) =~= seq![OutView::Close { session }]);
                }
                return r;
            },
        };
        proof {
            assert(sv[i as int].1 == self.sessions@[i as int].1@);
            assert(session_wf(sv[i as int].1));
            lemma_sidx_is_match(sv, session);
        }
        let mut r: Vec<OutMsg> = Vec::new();
        if pos as u64 == self.sessions[i].1.length_received {
            r.push(
                OutMsg::Datagram {
                    session,
                    data: make_ack(session, pos as u64 + data.len() as u64),
                },
            );
            self.sessions[i].1.push(data);
            if self.sessions[i].1.length_acked == self.sessions[i].1.length_sent
                && self.sessions[i].1.data_to_send.len() > 0 {
                let msg = match self.sessions[i].1.get_message() {
                    Some(m) => m,
                    None => {
                        proof {
                            assert(false);
                        }
                        Vec::new()
                    },
                };
                let mlen = msg.len() as u64;
                r.push(
                    OutMsg::Reliable {
                        session,
                        data: make_data(session, self.sessions[i].1.length_acked, msg.as_slice()),
                    },
                );
                self.sessions[i].1.length_sent = self.sessions[i].1.length_sent + mlen;
            }
        } else {
            r.push(OutMsg::Datagram { session, data: make_ack(session, self.sessions[i].1.length_received) });
        }
        proof {
            assert(sviews(self.sessions@) =~= sv.update(
                i as int,
                (session, data_step(session, sv[i as int].1, pos, data@).0),
            ));
            assert(mviews(r@) =~= data_step(session, sv[i as int].1, pos, data@).1);
            assert forall|a: int|
                0 <= a < sviews(self.sessions@).len() implies session_wf(
                (#[trigger] sviews(self.sessions@)[a]).1,
            ) by {
                if a == i as int {
                    lemma_data_step_monotonic(session, sv[i as int].1, pos, data@);
                }
            }
        }
        r
    }

    /// An ack packet: unknown sessions are told to close; an ack past
    /// what was sent removes the session and closes it; any other ack
    /// takes the `ack_step` transition.
    pub fn receive_ack(&mut self, session: u32, length: u32) -> (r: Vec<OutMsg>)
        requires
            table_wf(sviews(old(self).sessions@)),
        ensures
            table_wf(sviews(final (self).sessions@)),
            ({
                let sv = sviews(old(self).sessions@);
                let i = sidx(sv, session);
                if i < 0 {
                    final (self).sessions@ == old(self).sessions@ && mviews(r@) =~= seq![
                        OutView::Close { session },
                    ]
                } else if length > sv[i].1.sent {
                    sviews(final (self).sessions@) =~= sv.update(i, sv.last()).drop_last()
                        && mviews(r@) =~= seq![
                        OutView::Cancel { session },
                        OutView::Close { session },
                    ]
                } else {
                    sviews(final (self).sessions@) =~= sv.update(
                        i,
                        (session, ack_step(session, sv[i].1, length).0),
                    ) && mviews(r@) =~= ack_step(session, sv[i].1, length).1
                }
            }),
    {
        let ghost sv = sviews(old(self).sessions@);
        let i = match self.find_session(session) {
            Some(i) => i,
            None => {
                let mut r: Vec<OutMsg> = Vec::new();
                r.push(OutMsg::Close { session });
                proof {
                    assert(mviews(r@) =~= seq![OutView::Close { session }]);
                }
                return r;
            },
        };
        proof {
            assert(sv[i as int].1 == self.sessions@[i as int].1@);
            assert(session_wf(sv[i as int].1));
            lemma_sidx_is_match(sv, session);
        }
        let mut r: Vec<OutMsg> = Vec::new();
        r.push(OutMsg::Cancel { session });
        let n = length as u64;
        if n < self.sessions[i].1.length_acked {
            // stale: ignore
        } else if n == self.sessions[i].1.length_sent {
            self.sessions[i].1.acknowledge();
            if self.sessions[i].1.data_to_send.len() > 0 {
                let msg = match self.sessions[i].1.get_message() {
                    Some(m) => m,
                    None => {
                        proof {
                            assert(false);
                        }
                        Vec::new()
                    },
                };
                let mlen = msg.len() as u64;
                proof {
                    assert(self.sessions@[i as int].1@.sent + mlen <= u64::MAX);
                }
                r.push(
                    OutMsg::Reliable {
                        session,
                        data: make_data(session, self.sessions[i].1.length_acked, msg.as_slice()),
                    },
                );
                self.sessions[i].1.length_sent = self.sessions[i].1.length_sent + mlen;
            }
        } else if n > self.sessions[i].1.length_sent {
            self.sessions.swap_remove(i);
            r.push(OutMsg::Close { session });
            proof {
                assert(sviews(self.sessions@) =~= sv.update(i as int, sv.last()).drop_last());
                assert(mviews(r@) =~= seq![
                    OutView::Cancel { session },
                    OutView::Close { session },
                ]);
            }
            return r;
        } else {
            let msg = match self.sessions[i].1.get_message() {
                Some(m) => m,
                None => {
                    proof {
                        assert(false);
                    }
                    Vec::new()
                },
            };
            r.push(
                OutMsg::Reliable {
                    session,
                    data: make_data(session, self.sessions[i].1.length_acked, msg.as_slice()),
                },
            );
        }
        proof {
            assert(sviews(self.sessions@) =~= sv.update(
                i as int,
                (session, ack_step(session, sv[i as int].1, length).0),
            ));
            assert(mviews(r@) =~= ack_step(session, sv[i as int].1, length).1);
            assert forall|a: int|
                0 <= a < sviews(self.sessions@).len() implies session_wf(
                (#[trigger] sviews(self.sessions@)[a]).1,
            ) by {
                if a == i as int {
                    lemma_ack_step_monotonic(session, sv[i as int].1, length);
                }
            }
        }
        r
    }

    /// A close packet: drop the session and confirm the close.
    pub fn close_session(&mut self, session: u32) -> (r: Vec<OutMsg>)
        requires
            table_wf(sviews(old(self).sessions@)),
        ensures
            table_wf(sviews(final (self).sessions@)),
            mviews(r@) == seq![OutView::Close { session }],
            ({
                let sv = sviews(old(self).sessions@);
                let i = sidx(sv, session);
                if i < 0 {
                    final (self).sessions@ == old(self).sessions@
                } else {
                    sviews(final (self).sessions@) =~= sv.update(i, sv.last()).drop_last()
                }
            }),
    {
        let ghost sv = sviews(old(self).sessions@);
        if let Some(i) = self.find_session(session) {
            self.sessions.swap_remove(i);
            proof {
                assert(sviews(self.sessions@) =~= sv.update(i as int, sv.last()).drop_last());
            }
        }
        let mut r: Vec<OutMsg> = Vec::new();
        r.push(OutMsg::Close { session });
        proof {
            assert(mviews(r@) =~= seq![OutView::Close { session }]);
        }
        r
    }

    /// Handle one datagram: parse it and take the step it demands.
    /// A malformed or oversized datagram demands nothing.
    pub fn process_request(&mut self, datagram: &[u8]) -> (r: Vec<OutMsg>)
        requires
            table_wf(sviews(old(self).sessions@)),
        ensures
            table_wf(sviews(final (self).sessions@)),
            ({
                let sv = sviews(old(self).sessions@);
                match spec_parse_packet(datagram@) {
                    None => final (self).sessions@ == old(self).sessions@ && r@.len() == 0,
                    Some(PacketView::Connect { session }) => mviews(r@) =~~= seq![
                        OutView::Datagram { session, data: ack_wire(session, 0) },
                    ] && (if sidx(sv, session) >= 0 {
                        final (self).sessions@ == old(self).sessions@
                    } else {
                        sviews(final (self).sessions@) =~~= sv.push(
                            (
                                session,
                                SessionView {
                                    rx: Seq::<u8>::empty(),
                                    tx: Seq::<u8>::empty(),
                                    received: 0,
                                    sent: 0,
                                    acked: 0,
                                },
                            ),
                        )
                    }),
                    Some(PacketView::Data { session, pos, data }) => {
                        let i = sidx(sv, session);
                        if i < 0 {
                            final (self).sessions@ == old(self).sessions@ && mviews(r@) =~~= seq![
                                OutView::Close { session },
                            ]
                        } else {
                            sviews(final (self).sessions@) =~~= sv.update(
                                i,
                                (session, data_step(session, sv[i].1, pos, data).0),
                            ) && mviews(r@) =~~= data_step(session, sv[i].1, pos, data).1
                        }
                    },
                    Some(PacketView::Ack { session, length }) => {
                        let i = sidx(sv, session);
                        if i < 0 {
                            final (self).sessions@ == old(self).sessions@ && mviews(r@) =~~= seq![
                                OutView::Close { session },
                            ]
                        } else if length > sv[i].1.sent {
                            sviews(final (self).sessions@) =~~= sv.update(i, sv.last()).drop_last()
                                && mviews(r@) =~~= seq![
                                OutView::Cancel { session },
                                OutView::Close { session },
                            ]
                        } else {
                            sviews(final (self).sessions@) =~~= sv.update(
                                i,
                                (session, ack_step(session, sv[i].1, length).0),
                            ) && mviews(r@) =~~= ack_step(session, sv[i].1, length).1
                        }
                    },
                    Some(PacketView::Close { session }) => mviews(r@) =~~= seq![
                        OutView::Close { session },
                    ] && ({
                        let i = sidx(sv, session);
                        if i < 0 {
                            final (self).sessions@ == old(self).sessions@
                        } else {
                            sviews(final (self).sessions@) =~~= sv.update(i, sv.last()).drop_last()
                        }
                    }),
                }
            }),
    {
        match parse_packet(datagram) {
            Some(Packet::Connect { session }) => self.connect_session(session),
            Some(Packet::Data { session, pos, data }) => {
                proof {
                    lemma_parsed_data_short(datagram@);
                }
                self.receive_data(session, pos, data.as_slice())
            },
            Some(Packet::Ack { session, length }) => self.receive_ack(session, length),
            Some(Packet::Close { session }) => self.close_session(session),
            None => Vec::new(),
        }
    }
}

/// Where `sidx` lands, the id matches.
pub proof fn lemma_sidx_is_match(sv: Seq<(u32, SessionView)>, sid: u32)
    ensures
        sidx(sv, sid) >= 0 ==> sidx(sv, sid) < sv.len() && sv[sidx(sv, sid)].0 == sid,
    decreases sv.len(),
{
    if sv.len() > 0 && sv[0].0 != sid {
        lemma_sidx_is_match(sv.drop_first(), sid);
        if sidx(sv, sid) >= 0 {
            assert(sv.drop_first()[sidx(sv.drop_first(), sid)] == sv[sidx(sv, sid)]);
        }
    }
}

/// A match anywhere means `sidx` finds one no later.
pub proof fn lemma_sidx_at_least(sv: Seq<(u32, SessionView)>, sid: u32, k: int)
    requires
        0 <= k < sv.len(),
        sv[k].0 == sid,
    ensures
        0 <= sidx(sv, sid) <= k,
    decreases sv.len(),
{
    if sv[0].0 != sid {
        assert(sv.drop_first()[k - 1] == sv[k]);
        lemma_sidx_at_least(sv.drop_first(), sid, k - 1);
    }
}

} // verus!
