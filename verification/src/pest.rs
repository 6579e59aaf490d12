//! Pest-control gateway: the framed binary protocol spoken with
//! site-visit clients and the authority server, and the policy
//! reconciliation rules.
//!
//! A frame is `[type][length:u32 BE][payload][checksum]`, where the
//! length counts the whole frame and the checksum byte makes the sum
//! of the whole frame zero modulo 256.

use vstd::prelude::*;

use crate::util::be32_at;
use crate::util::enc_u32;
use crate::util::lemma_be32_of_enc;
use crate::util::lemma_parse_u32_at_enc;
use crate::util::parse_u32_at;
use crate::util::parse_u8_at;

verus! {

/// A length-prefixed string: four length bytes, then the bytes.
pub open spec fn enc_str(s: Seq<u8>) -> Seq<u8> {
    enc_u32(s.len() as u32) + s
}

/// Read a length-prefixed string at `i`.
pub open spec fn parse_str_at(d: Seq<u8>, i: int) -> Option<(Seq<u8>, int)> {
    match parse_u32_at(d, i) {
        Some((n, j)) => if j + n <= d.len() {
            Some((d.subrange(j, j + n), j + n))
        } else {
            None
        },
        None => None,
    }
}

pub proof fn lemma_parse_str_at_enc(d: Seq<u8>, i: int, s: Seq<u8>)
    requires
        0 <= i,
        s.len() <= u32::MAX,
        i + 4 + s.len() <= d.len(),
        d.subrange(i, i + 4 + s.len()) == enc_str(s),
    ensures
        parse_str_at(d, i) == Some((s, i + 4 + s.len())),
{
    assert(d.subrange(i, i + 4) =~= enc_str(s).subrange(0, 4)) by {
        assert forall|k: int| 0 <= k < 4 implies d.subrange(i, i + 4)[k] == enc_str(s).subrange(
            0,
            4,
        )[k] by {
            assert(d.subrange(i, i + 4 + s.len())[k] == d[i + k]);
        }
    }
    assert(enc_str(s).subrange(0, 4) =~= enc_u32(s.len() as u32));
    lemma_parse_u32_at_enc(d, i, s.len() as u32);
    assert(d.subrange(i + 4, i + 4 + s.len()) =~= s) by {
        assert forall|k: int| 0 <= k < s.len() implies d.subrange(i + 4, i + 4 + s.len())[k]
            == s[k] by {
            assert(d.subrange(i, i + 4 + s.len())[k + 4] == d[i + 4 + k]);
            assert(enc_str(s)[k + 4] == s[k]);
        }
    }
}

/// Running sum of a byte string.
pub open spec fn sum_bytes(s: Seq<u8>) -> int
    decreases s.len(),
{
    if s.len() == 0 {
        0
    } else {
        sum_bytes(s.drop_last()) + s.last()
    }
}

/// The byte that brings the sum of `s` to zero modulo 256.
pub open spec fn neg_sum(s: Seq<u8>) -> u8 {
    ((256 - (sum_bytes(s) % 256)) % 256) as u8
}

pub proof fn lemma_sum_bytes_nonneg(s: Seq<u8>)
    ensures
        sum_bytes(s) >= 0,
    decreases s.len(),
{
    if s.len() > 0 {
        lemma_sum_bytes_nonneg(s.drop_last());
    }
}

/// A frame closed by its checksum byte sums to zero modulo 256.
pub proof fn lemma_neg_sum_closes(s: Seq<u8>)
    ensures
        sum_bytes(s.push(neg_sum(s))) % 256 == 0,
{
    lemma_sum_bytes_nonneg(s);
    assert(s.push(neg_sum(s)).drop_last() =~= s);
    assert(sum_bytes(s.push(neg_sum(s))) == sum_bytes(s) + neg_sum(s));
}

/// Read one byte, advancing `index`.
pub fn parse_u8(data: &[u8], index: &mut usize) -> (r: Option<u8>)
    ensures
        match r {
            Some(v) => parse_u8_at(data@, (*old(index)) as int) == Some((v, (*final (index)) as int)),
            None => parse_u8_at(data@, (*old(index)) as int) is None && *final (index) == *old(index),
        },
{
    if *index < data.len() {
        let v = data[*index];
        *index = *index + 1;
        Some(v)
    } else {
        None
    }
}

/// Read a big-endian `u32`, advancing `index`.
pub fn parse_u32(data: &[u8], index: &mut usize) -> (r: Option<u32>)
    ensures
        match r {
            Some(v) => parse_u32_at(data@, (*old(index)) as int) == Some((v, (*final (index)) as int)),
            None => parse_u32_at(data@, (*old(index)) as int) is None && *final (index) == *old(index),
        },
{
    if *index < data.len() && data.len() - *index >= 4 {
        let i = *index;
        let v: u32 = ((data[i] as u32) << 24) | ((data[i + 1] as u32) << 16) | ((data[i
            + 2] as u32) << 8) | (data[i + 3] as u32);
        *index = i + 4;
        Some(v)
    } else {
        None
    }
}

/// Read a length-prefixed string, advancing `index`.
pub fn parse_str(data: &[u8], index: &mut usize) -> (r: Option<Vec<u8>>)
    ensures
        match r {
            Some(v) => parse_str_at(data@, (*old(index)) as int) == Some((v@, (*final (index)) as int)),
            None => parse_str_at(data@, (*old(index)) as int) is None && *final (index) == *old(index),
        },
{
    let saved = *index;
    let n = match parse_u32(data, index) {
        Some(n) => n,
        None => {
            return None;
        },
    };
    let j = *index;
    if n as u64 > (data.len() - j) as u64 {
        *index = saved;
        return None;
    }
    let n = n as usize;
    let mut out: Vec<u8> = Vec::new();
    let mut k: usize = 0;
    while k < n
        invariant
            0 <= k <= n,
            j + n <= data@.len(),
            data@.len() <= usize::MAX,
            out@ =~= data@.subrange(j as int, j + k),
        decreases n - k,
    {
        out.push(data[j + k]);
        proof {
            assert(out@ =~= data@.subrange(j as int, j + k + 1));
        }
        k = k + 1;
    }
    *index = j + n;
    Some(out)
}

/// Write `v` big endian.
pub fn push_u32(out: &mut Vec<u8>, v: u32)
    ensures
        final (out)@ == old(out)@ + enc_u32(v),
{
    out.push(((v >> 24) & 0xff) as u8);
    out.push(((v >> 16) & 0xff) as u8);
    out.push(((v >> 8) & 0xff) as u8);
    out.push((v & 0xff) as u8);
    proof {
        assert(out@ =~= old(out)@ + enc_u32(v));
    }
}

/// Write a length-prefixed string.
pub fn push_str(out: &mut Vec<u8>, s: &[u8])
    requires
        s@.len() <= u32::MAX,
    ensures
        final (out)@ == old(out)@ + enc_str(s@),
{
    push_u32(out, s.len() as u32);
    let mut k: usize = 0;
    while k < s.len()
        invariant
            0 <= k <= s@.len(),
            out@ =~= old(out)@ + enc_u32(s@.len() as u32) + s@.subrange(0, k as int),
        decreases s@.len() - k,
    {
        out.push(s[k]);
        proof {
            assert(out@ =~= old(out)@ + enc_u32(s@.len() as u32) + s@.subrange(0, k + 1));
        }
        k = k + 1;
    }
    proof {
        assert(s@.subrange(0, s@.len() as int) =~= s@);
        assert(old(out)@ + enc_u32(s@.len() as u32) + s@ =~= old(out)@ + enc_str(s@));
    }
}


/// A species population band wanted by the authority.
#[derive(Clone, PartialEq, Eq, Debug)]
pub struct PopulationTarget {
    pub species: Vec<u8>,
    pub min: u32,
    pub max: u32,
}

/// One observed species count in a site visit.
#[derive(Clone, PartialEq, Eq, Debug)]
pub struct PopulationObs {
    pub species: Vec<u8>,
    pub count: u32,
}

/// Mathematical image of a target.
#[verifier::ext_equal]
pub struct TargetView {
    pub species: Seq<u8>,
    pub min: u32,
    pub max: u32,
}

/// Mathematical image of an observation.
#[verifier::ext_equal]
pub struct ObsView {
    pub species: Seq<u8>,
    pub count: u32,
}

impl View for PopulationTarget {
    type V = TargetView;

    open spec fn view(&self) -> TargetView {
        TargetView { species: self.species@, min: self.min, max: self.max }
    }
}

impl View for PopulationObs {
    type V = ObsView;

    open spec fn view(&self) -> ObsView {
        ObsView { species: self.species@, count: self.count }
    }
}

pub open spec fn tviews(ts: Seq<PopulationTarget>) -> Seq<TargetView> {
    ts.map_values(|t: PopulationTarget| t@)
}

pub open spec fn oviews(os: Seq<PopulationObs>) -> Seq<ObsView> {
    os.map_values(|o: PopulationObs| o@)
}

/// A protocol message, either direction.
#[derive(Clone, PartialEq, Eq, Debug)]
pub enum ServerMessage {
    Hello { protocol: Vec<u8>, version: u32 },
    Error { msg: Vec<u8> },
    Okay,
    DialAuthority { site: u32 },
    TargetPopulations { site: u32, targets: Vec<PopulationTarget> },
    CreatePolicy { species: Vec<u8>, action: u8 },
    DeletePolicy { policy: u32 },
    PolicyResult { policy: u32 },
    SiteVisit { site: u32, observations: Vec<PopulationObs> },
}

/// Mathematical image of a message.
#[verifier::ext_equal]
pub enum MsgView {
    Hello { protocol: Seq<u8>, version: u32 },
    Error { msg: Seq<u8> },
    Okay,
    DialAuthority { site: u32 },
    TargetPopulations { site: u32, targets: Seq<TargetView> },
    CreatePolicy { species: Seq<u8>, action: u8 },
    DeletePolicy { policy: u32 },
    PolicyResult { policy: u32 },
    SiteVisit { site: u32, observations: Seq<ObsView> },
}

impl View for ServerMessage {
    type V = MsgView;

    open spec fn view(&self) -> MsgView {
        match self {
            ServerMessage::Hello { protocol, version } => MsgView::Hello {
                protocol: protocol@,
                version: *version,
            },
            ServerMessage::Error { msg } => MsgView::Error { msg: msg@ },
            ServerMessage::Okay => MsgView::Okay,
            ServerMessage::DialAuthority { site } => MsgView::DialAuthority { site: *site },
            ServerMessage::TargetPopulations { site, targets } => MsgView::TargetPopulations {
                site: *site,
                targets: tviews(targets@),
            },
            ServerMessage::CreatePolicy { species, action } => MsgView::CreatePolicy {
                species: species@,
                action: *action,
            },
            ServerMessage::DeletePolicy { policy } => MsgView::DeletePolicy { policy: *policy },
            ServerMessage::PolicyResult { policy } => MsgView::PolicyResult { policy: *policy },
            ServerMessage::SiteVisit { site, observations } => MsgView::SiteVisit {
                site: *site,
                observations: oviews(observations@),
            },
        }
    }
}

pub open spec fn enc_target(t: TargetView) -> Seq<u8> {
    enc_str(t.species) + enc_u32(t.min) + enc_u32(t.max)
}

pub open spec fn enc_target_list(ts: Seq<TargetView>) -> Seq<u8>
    decreases ts.len(),
{
    if ts.len() == 0 {
        Seq::empty()
    } else {
        enc_target(ts[0]) + enc_target_list(ts.drop_first())
    }
}

pub open spec fn enc_obs(o: ObsView) -> Seq<u8> {
    enc_str(o.species) + enc_u32(o.count)
}

pub open spec fn enc_obs_list(os: Seq<ObsView>) -> Seq<u8>
    decreases os.len(),
{
    if os.len() == 0 {
        Seq::empty()
    } else {
        enc_obs(os[0]) + enc_obs_list(os.drop_first())
    }
}

/// The type byte of a message.
pub open spec fn tag_of(m: MsgView) -> u8 {
    match m {
        MsgView::Hello { .. } => 0x50,
        MsgView::Error { .. } => 0x51,
        MsgView::Okay => 0x52,
        MsgView::DialAuthority { .. } => 0x53,
        MsgView::TargetPopulations { .. } => 0x54,
        MsgView::CreatePolicy { .. } => 0x55,
        MsgView::DeletePolicy { .. } => 0x56,
        MsgView::PolicyResult { .. } => 0x57,
        MsgView::SiteVisit { .. } => 0x58,
    }
}

/// The payload bytes of a message: everything between the length
/// field and the checksum.
pub open spec fn payload_of(m: MsgView) -> Seq<u8> {
    match m {
        MsgView::Hello { protocol, version } => enc_str(protocol) + enc_u32(version),
        MsgView::Error { msg } => enc_str(msg),
        MsgView::Okay => Seq::empty(),
        MsgView::DialAuthority { site } => enc_u32(site),
        MsgView::TargetPopulations { site, targets } => enc_u32(site) + enc_u32(
            targets.len() as u32,
        ) + enc_target_list(targets),
        MsgView::CreatePolicy { species, action } => enc_str(species) + seq![action],
        MsgView::DeletePolicy { policy } => enc_u32(policy),
        MsgView::PolicyResult { policy } => enc_u32(policy),
        MsgView::SiteVisit { site, observations } => enc_u32(site) + enc_u32(
            observations.len() as u32,
        ) + enc_obs_list(observations),
    }
}

/// The full frame of a message: type, length, payload, checksum.
pub open spec fn frame_of(m: MsgView) -> Seq<u8> {
    let body = seq![tag_of(m)] + enc_u32((payload_of(m).len() + 6) as u32) + payload_of(m);
    body.push(neg_sum(body))
}

/// Two observations of one species with different counts.
pub open spec fn obs_conflict(os: Seq<ObsView>) -> bool {
    exists|i: int, j: int|
        0 <= i < j < os.len() && os[i].species == os[j].species && os[i].count != os[j].count
}

/// Every length field of the message fits its `u32` wire slot.
pub open spec fn msg_wf(m: MsgView) -> bool {
    &&& payload_of(m).len() + 6 <= u32::MAX
    &&& match m {
        MsgView::Hello { protocol, .. } => protocol.len() <= u32::MAX,
        MsgView::Error { msg } => msg.len() <= u32::MAX,
        MsgView::TargetPopulations { targets, .. } => targets.len() <= u32::MAX && forall|k: int|
            0 <= k < targets.len() ==> (#[trigger] targets[k]).species.len() <= u32::MAX,
        MsgView::CreatePolicy { species, .. } => species.len() <= u32::MAX,
        MsgView::SiteVisit { observations, .. } => observations.len() <= u32::MAX && forall|k: int|
            0 <= k < observations.len() ==> (#[trigger] observations[k]).species.len()
                <= u32::MAX,
        _ => true,
    }
}

/// Read `cnt` targets at `i`.
pub open spec fn parse_targets_at(d: Seq<u8>, i: int, cnt: nat) -> Option<(Seq<TargetView>, int)>
    decreases cnt,
{
    if cnt == 0 {
        Some((Seq::empty(), i))
    } else {
        match parse_str_at(d, i) {
            Some((sp, j)) => match parse_u32_at(d, j) {
                Some((mn, j2)) => match parse_u32_at(d, j2) {
                    Some((mx, j3)) => match parse_targets_at(d, j3, (cnt - 1) as nat) {
                        Some((ts, end)) => Some(
                            (seq![TargetView { species: sp, min: mn, max: mx }] + ts, end),
                        ),
                        None => None,
                    },
                    None => None,
                },
                None => None,
            },
            None => None,
        }
    }
}

/// Read `cnt` observations at `i`.
pub open spec fn parse_obs_at(d: Seq<u8>, i: int, cnt: nat) -> Option<(Seq<ObsView>, int)>
    decreases cnt,
{
    if cnt == 0 {
        Some((Seq::empty(), i))
    } else {
        match parse_str_at(d, i) {
            Some((sp, j)) => match parse_u32_at(d, j) {
                Some((c, j2)) => match parse_obs_at(d, j2, (cnt - 1) as nat) {
                    Some((os, end)) => Some((seq![ObsView { species: sp, count: c }] + os, end)),
                    None => None,
                },
                None => None,
            },
            None => None,
        }
    }
}

/// The message written by payload `d` under type byte `tag`; `None`
/// when the payload is malformed, has bytes left over, or (for a
/// site visit) holds two different counts for one species.
pub open spec fn spec_parse_msg(tag: u8, d: Seq<u8>) -> Option<MsgView> {
    if tag == 0x50 {
        match parse_str_at(d, 0) {
            Some((p, i)) => match parse_u32_at(d, i) {
                Some((v, j)) => if j == d.len() {
                    Some(MsgView::Hello { protocol: p, version: v })
                } else {
                    None
                },
                None => None,
            },
            None => None,
        }
    } else if tag == 0x51 {
        match parse_str_at(d, 0) {
            Some((msg, i)) => if i == d.len() {
                Some(MsgView::Error { msg })
            } else {
                None
            },
            None => None,
        }
    } else if tag == 0x52 {
        if d.len() == 0 {
            Some(MsgView::Okay)
        } else {
            None
        }
    } else if tag == 0x53 {
        match parse_u32_at(d, 0) {
            Some((site, i)) => if i == d.len() {
                Some(MsgView::DialAuthority { site })
            } else {
                None
            },
            None => None,
        }
    } else if tag == 0x54 {
        match parse_u32_at(d, 0) {
            Some((site, i)) => match parse_u32_at(d, i) {
                Some((cnt, j)) => match parse_targets_at(d, j, cnt as nat) {
                    Some((targets, end)) => if end == d.len() {
                        Some(MsgView::TargetPopulations { site, targets })
                    } else {
                        None
                    },
                    None => None,
                },
                None => None,
            },
            None => None,
        }
    } else if tag == 0x55 {
        match parse_str_at(d, 0) {
            Some((species, i)) => match parse_u8_at(d, i) {
                Some((action, j)) => if j == d.len() {
                    Some(MsgView::CreatePolicy { species, action })
                } else {
                    None
                },
                None => None,
            },
            None => None,
        }
    } else if tag == 0x56 {
        match parse_u32_at(d, 0) {
            Some((policy, i)) => if i == d.len() {
                Some(MsgView::DeletePolicy { policy })
            } else {
                None
            },
            None => None,
        }
    } else if tag == 0x57 {
        match parse_u32_at(d, 0) {
            Some((policy, i)) => if i == d.len() {
                Some(MsgView::PolicyResult { policy })
            } else {
                None
            },
            None => None,
        }
    } else if tag == 0x58 {
        match parse_u32_at(d, 0) {
            Some((site, i)) => match parse_u32_at(d, i) {
                Some((cnt, j)) => match parse_obs_at(d, j, cnt as nat) {
                    Some((observations, end)) => if end == d.len() && !obs_conflict(observations) {
                        Some(MsgView::SiteVisit { site, observations })
                    } else {
                        None
                    },
                    None => None,
                },
                None => None,
            },
            None => None,
        }
    } else {
        None
    }
}


pub proof fn lemma_enc_target_list_snoc(ts: Seq<TargetView>, t: TargetView)
    ensures
        enc_target_list(ts.push(t)) == enc_target_list(ts) + enc_target(t),
    decreases ts.len(),
{
    if ts.len() == 0 {
        assert(ts.push(t)[0] == t);
        assert(ts.push(t).drop_first() =~= Seq::<TargetView>::empty());
        assert(enc_target_list(ts.push(t)) == enc_target(t) + enc_target_list(
            Seq::<TargetView>::empty(),
        ));
        assert(enc_target_list(ts.push(t)) =~= enc_target_list(ts) + enc_target(t));
    } else {
        assert(ts.push(t)[0] == ts[0]);
        assert(ts.push(t).drop_first() =~= ts.drop_first().push(t));
        lemma_enc_target_list_snoc(ts.drop_first(), t);
        assert(enc_target_list(ts.push(t)) == enc_target(ts[0]) + enc_target_list(
            ts.drop_first().push(t),
        ));
        assert(enc_target_list(ts.push(t)) =~= enc_target_list(ts) + enc_target(t));
    }
}

pub proof fn lemma_enc_obs_list_snoc(os: Seq<ObsView>, o: ObsView)
    ensures
        enc_obs_list(os.push(o)) == enc_obs_list(os) + enc_obs(o),
    decreases os.len(),
{
    if os.len() == 0 {
        assert(os.push(o)[0] == o);
        assert(os.push(o).drop_first() =~= Seq::<ObsView>::empty());
        assert(enc_obs_list(os.push(o)) == enc_obs(o) + enc_obs_list(Seq::<ObsView>::empty()));
        assert(enc_obs_list(os.push(o)) =~= enc_obs_list(os) + enc_obs(o));
    } else {
        assert(os.push(o)[0] == os[0]);
        assert(os.push(o).drop_first() =~= os.drop_first().push(o));
        lemma_enc_obs_list_snoc(os.drop_first(), o);
        assert(enc_obs_list(os.push(o)) == enc_obs(os[0]) + enc_obs_list(
            os.drop_first().push(o),
        ));
        assert(enc_obs_list(os.push(o)) =~= enc_obs_list(os) + enc_obs(o));
    }
}

/// A prefix of a target list never encodes to more bytes.
pub proof fn lemma_enc_target_list_take_le(ts: Seq<TargetView>, i: int)
    requires
        0 <= i <= ts.len(),
    ensures
        enc_target_list(ts.take(i)).len() <= enc_target_list(ts).len(),
    decreases ts.len() - i,
{
    if i < ts.len() {
        lemma_enc_target_list_snoc(ts.take(i), ts[i]);
        assert(ts.take(i + 1) =~= ts.take(i).push(ts[i]));
        lemma_enc_target_list_take_le(ts, i + 1);
    } else {
        assert(ts.take(i) =~= ts);
    }
}

/// A prefix of an observation list never encodes to more bytes.
pub proof fn lemma_enc_obs_list_take_le(os: Seq<ObsView>, i: int)
    requires
        0 <= i <= os.len(),
    ensures
        enc_obs_list(os.take(i)).len() <= enc_obs_list(os).len(),
    decreases os.len() - i,
{
    if i < os.len() {
        lemma_enc_obs_list_snoc(os.take(i), os[i]);
        assert(os.take(i + 1) =~= os.take(i).push(os[i]));
        lemma_enc_obs_list_take_le(os, i + 1);
    } else {
        assert(os.take(i) =~= os);
    }
}

/// Write a target list, elements only (no count prefix).
fn push_targets(out: &mut Vec<u8>, ts: &Vec<PopulationTarget>)
    requires
        forall|k: int| 0 <= k < ts@.len() ==> (#[trigger] ts@[k]).species@.len() <= u32::MAX,
    ensures
        final (out)@ == old(out)@ + enc_target_list(tviews(ts@)),
{
    let mut i: usize = 0;
    while i < ts.len()
        invariant
            0 <= i <= ts@.len(),
            forall|k: int| 0 <= k < ts@.len() ==> (#[trigger] ts@[k]).species@.len() <= u32::MAX,
            out@ =~= old(out)@ + enc_target_list(tviews(ts@).take(i as int)),
        decreases ts@.len() - i,
    {
        let t = &ts[i];
        push_str(out, t.species.as_slice());
        push_u32(out, t.min);
        push_u32(out, t.max);
        proof {
            lemma_enc_target_list_snoc(tviews(ts@).take(i as int), ts@[i as int]@);
            assert(tviews(ts@).take(i + 1) =~= tviews(ts@).take(i as int).push(ts@[i as int]@));
            assert(out@ =~= old(out)@ + enc_target_list(tviews(ts@).take(i + 1)));
        }
        i = i + 1;
    }
    proof {
        assert(tviews(ts@).take(ts@.len() as int) =~= tviews(ts@));
    }
}

/// Write an observation list, elements only (no count prefix).
fn push_obs(out: &mut Vec<u8>, os: &Vec<PopulationObs>)
    requires
        forall|k: int| 0 <= k < os@.len() ==> (#[trigger] os@[k]).species@.len() <= u32::MAX,
    ensures
        final (out)@ == old(out)@ + enc_obs_list(oviews(os@)),
{
    let mut i: usize = 0;
    while i < os.len()
        invariant
            0 <= i <= os@.len(),
            forall|k: int| 0 <= k < os@.len() ==> (#[trigger] os@[k]).species@.len() <= u32::MAX,
            out@ =~= old(out)@ + enc_obs_list(oviews(os@).take(i as int)),
        decreases os@.len() - i,
    {
        let o = &os[i];
        push_str(out, o.species.as_slice());
        push_u32(out, o.count);
        proof {
            lemma_enc_obs_list_snoc(oviews(os@).take(i as int), os@[i as int]@);
            assert(oviews(os@).take(i + 1) =~= oviews(os@).take(i as int).push(os@[i as int]@));
            assert(out@ =~= old(out)@ + enc_obs_list(oviews(os@).take(i + 1)));
        }
        i = i + 1;
    }
    proof {
        assert(oviews(os@).take(os@.len() as int) =~= oviews(os@));
    }
}

impl ServerMessage {
    /// The type byte of this message.
    pub fn tag(&self) -> (r: u8)
        ensures
            r == tag_of(self@),
    {
        match self {
            ServerMessage::Hello { .. } => 0x50,
            ServerMessage::Error { .. } => 0x51,
            ServerMessage::Okay => 0x52,
            ServerMessage::DialAuthority { .. } => 0x53,
            ServerMessage::TargetPopulations { .. } => 0x54,
            ServerMessage::CreatePolicy { .. } => 0x55,
            ServerMessage::DeletePolicy { .. } => 0x56,
            ServerMessage::PolicyResult { .. } => 0x57,
            ServerMessage::SiteVisit { .. } => 0x58,
        }
    }

    /// Whether every length field of this message fits its wire slot,
    /// so that `to_bytes` may be called.
    #[verifier::loop_isolation(false)]
    pub fn fits_wire(&self) -> (r: bool)
        ensures
            r == msg_wf(self@),
    {
        let payload_len: u64 = match self {
            ServerMessage::Hello { protocol, version } => {
                if protocol.len() as u64 > u32::MAX as u64 {
                    return false;
                }
                8 + protocol.len() as u64
            },
            ServerMessage::Error { msg } => {
                if msg.len() as u64 > u32::MAX as u64 {
                    return false;
                }
                4 + msg.len() as u64
            },
            ServerMessage::Okay => 0,
            ServerMessage::DialAuthority { .. } => 4,
            ServerMessage::TargetPopulations { site: _, targets } => {
                if targets.len() as u64 > u32::MAX as u64 {
                    return false;
                }
                let mut acc: u64 = 8;
                let mut i: usize = 0;
                while i < targets.len()
                    invariant
                        0 <= i <= targets@.len(),
                        forall|k: int|
                            0 <= k < i ==> (#[trigger] targets@[k]).species@.len() <= u32::MAX,
                        acc == 8 + enc_target_list(tviews(targets@).take(i as int)).len(),
                        acc <= u32::MAX as u64,
                    decreases targets@.len() - i,
                {
                    let t = &targets[i];
                    if t.species.len() as u64 > u32::MAX as u64 {
                        proof {
                            assert(tviews(targets@)[i as int] == targets@[i as int]@);
                            assert(tviews(targets@)[i as int].species.len() > u32::MAX);
                        }
                        return false;
                    }
                    proof {
                        lemma_enc_target_list_snoc(
                            tviews(targets@).take(i as int),
                            targets@[i as int]@,
                        );
                        assert(tviews(targets@).take(i + 1) =~= tviews(targets@).take(
                            i as int,
                        ).push(targets@[i as int]@));
                    }
                    acc = acc + 12 + t.species.len() as u64;
                    i = i + 1;
                    if acc > u32::MAX as u64 {
                        proof {
                            lemma_enc_target_list_take_le(tviews(targets@), i as int);
                        }
                        return false;
                    }
                }
                proof {
                    assert(tviews(targets@).take(targets@.len() as int) =~= tviews(targets@));
                }
                acc
            },
            ServerMessage::CreatePolicy { species, action: _ } => {
                if species.len() as u64 > u32::MAX as u64 {
                    return false;
                }
                5 + species.len() as u64
            },
            ServerMessage::DeletePolicy { .. } => 4,
            ServerMessage::PolicyResult { .. } => 4,
            ServerMessage::SiteVisit { site: _, observations } => {
                if observations.len() as u64 > u32::MAX as u64 {
                    return false;
                }
                let mut acc: u64 = 8;
                let mut i: usize = 0;
                while i < observations.len()
                    invariant
                        0 <= i <= observations@.len(),
                        forall|k: int|
                            0 <= k < i ==> (#[trigger] observations@[k]).species@.len()
                                <= u32::MAX,
                        acc == 8 + enc_obs_list(oviews(observations@).take(i as int)).len(),
                        acc <= u32::MAX as u64,
                    decreases observations@.len() - i,
                {
                    let o = &observations[i];
                    if o.species.len() as u64 > u32::MAX as u64 {
                        proof {
                            assert(oviews(observations@)[i as int] == observations@[i as int]@);
                            assert(oviews(observations@)[i as int].species.len() > u32::MAX);
                        }
                        return false;
                    }
                    proof {
                        lemma_enc_obs_list_snoc(
                            oviews(observations@).take(i as int),
                            observations@[i as int]@,
                        );
                        assert(oviews(observations@).take(i + 1) =~= oviews(observations@).take(
                            i as int,
                        ).push(observations@[i as int]@));
                    }
                    acc = acc + 8 + o.species.len() as u64;
                    i = i + 1;
                    if acc > u32::MAX as u64 {
                        proof {
                            lemma_enc_obs_list_take_le(oviews(observations@), i as int);
                        }
                        return false;
                    }
                }
                proof {
                    assert(oviews(observations@).take(observations@.len() as int) =~= oviews(
                        observations@,
                    ));
                }
                acc
            },
        };
        proof {
            assert(payload_len == payload_of(self@).len());
        }
        payload_len + 6 <= u32::MAX as u64
    }
}


/// The wrapping byte-sum of `s`, as the checksum is computed.
fn sum_mod_256(s: &[u8]) -> (r: u8)
    ensures
        r as int == sum_bytes(s@) % 256,
{
    let mut acc: u8 = 0;
    let mut i: usize = 0;
    proof {
        vstd::arithmetic::div_mod::lemma_small_mod(0nat, 256nat);
    }
    while i < s.len()
        invariant
            0 <= i <= s@.len(),
            acc as int == sum_bytes(s@.take(i as int)) % 256,
        decreases s@.len() - i,
    {
        let b = s[i];
        proof {
            assert(s@.take(i + 1).drop_last() =~= s@.take(i as int));
            assert(s@.take(i + 1).last() == s@[i as int]);
            assert(sum_bytes(s@.take(i + 1)) == sum_bytes(s@.take(i as int)) + b);
            vstd::arithmetic::div_mod::lemma_add_mod_noop(
                sum_bytes(s@.take(i as int)),
                b as int,
                256,
            );
            lemma_sum_bytes_nonneg(s@.take(i as int));
            vstd::arithmetic::div_mod::lemma_small_mod(b as nat, 256nat);
        }
        acc = acc.wrapping_add(b);
        i = i + 1;
    }
    proof {
        assert(s@.take(s@.len() as int) =~= s@);
    }
    acc
}

impl ServerMessage {
    /// The full frame of this message: type byte, length, payload and
    /// the checksum byte that brings the frame sum to zero mod 256.
    pub fn to_bytes(&self) -> (r: Vec<u8>)
        requires
            msg_wf(self@),
        ensures
            r@ == frame_of(self@),
    {
        let mut payload: Vec<u8> = Vec::new();
        match self {
            ServerMessage::Hello { protocol, version } => {
                push_str(&mut payload, protocol.as_slice());
                push_u32(&mut payload, *version);
            },
            ServerMessage::Error { msg } => {
                push_str(&mut payload, msg.as_slice());
            },
            ServerMessage::Okay => {},
            ServerMessage::DialAuthority { site } => {
                push_u32(&mut payload, *site);
            },
            ServerMessage::TargetPopulations { site, targets } => {
                push_u32(&mut payload, *site);
                push_u32(&mut payload, targets.len() as u32);
                proof {
                    assert forall|k: int|
                        0 <= k < targets@.len() implies (#[trigger] targets@[k]).species@.len()
                        <= u32::MAX by {
                        assert(tviews(targets@)[k] == targets@[k]@);
                    }
                }
                push_targets(&mut payload, targets);
            },
            ServerMessage::CreatePolicy { species, action } => {
                push_str(&mut payload, species.as_slice());
                payload.push(*action);
            },
            ServerMessage::DeletePolicy { policy } => {
                push_u32(&mut payload, *policy);
            },
            ServerMessage::PolicyResult { policy } => {
                push_u32(&mut payload, *policy);
            },
            ServerMessage::SiteVisit { site, observations } => {
                push_u32(&mut payload, *site);
                push_u32(&mut payload, observations.len() as u32);
                proof {
                    assert forall|k: int|
                        0 <= k < observations@.len() implies (
                        #[trigger] observations@[k]).species@.len() <= u32::MAX by {
                        assert(oviews(observations@)[k] == observations@[k]@);
                    }
                }
                push_obs(&mut payload, observations);
            },
        }
        proof {
            assert(payload@ =~= payload_of(self@));
        }
        let mut out: Vec<u8> = Vec::new();
        out.push(self.tag());
        push_u32(&mut out, (payload.len() + 6) as u32);
        out.append(&mut payload);
        proof {
            assert(out@ =~= seq![tag_of(self@)] + enc_u32((payload_of(self@).len() + 6) as u32)
                + payload_of(self@));
        }
        let chk_base = sum_mod_256(out.as_slice());
        let chk: u8 = if chk_base == 0 {
            0
        } else {
            (255 - chk_base) + 1
        };
        proof {
            lemma_sum_bytes_nonneg(out@);
            assert(chk == neg_sum(out@));
        }
        out.push(chk);
        out
    }
}

/// The message carried by a complete frame; `None` when the frame is
/// shorter than six bytes, its length field does not match its
/// length, its bytes do not sum to zero modulo 256, or its payload
/// does not parse under its type byte.
pub open spec fn spec_decode_frame(f: Seq<u8>) -> Option<MsgView> {
    if f.len() < 6 {
        None
    } else if be32_at(f, 1) != f.len() {
        None
    } else if sum_bytes(f) % 256 != 0 {
        None
    } else {
        spec_parse_msg(f[0], f.subrange(5, f.len() - 1))
    }
}

/// Check and parse a complete frame.
pub fn decode_frame(frame: &[u8]) -> (r: Option<ServerMessage>)
    ensures
        match r {
            Some(m) => spec_decode_frame(frame@) == Some(m@),
            None => spec_decode_frame(frame@) is None,
        },
{
    if frame.len() < 6 {
        return None;
    }
    let mut index: usize = 1;
    let len = match parse_u32(frame, &mut index) {
        Some(v) => v,
        None => {
            return None;
        },
    };
    if len as u64 != frame.len() as u64 {
        return None;
    }
    if sum_mod_256(frame) != 0 {
        return None;
    }
    let mut data: Vec<u8> = Vec::new();
    let mut k: usize = 5;
    while k < frame.len() - 1
        invariant
            5 <= k <= frame@.len() - 1,
            frame@.len() >= 6,
            frame@.len() <= usize::MAX,
            data@ =~= frame@.subrange(5, k as int),
        decreases frame@.len() - k,
    {
        data.push(frame[k]);
        proof {
            assert(data@ =~= frame@.subrange(5, k + 1));
        }
        k = k + 1;
    }
    ServerMessage::parse(frame[0], data.as_slice())
}


/// Read a count, then that many targets.
pub open spec fn parse_counted_targets_at(d: Seq<u8>, i: int) -> Option<(Seq<TargetView>, int)> {
    match parse_u32_at(d, i) {
        Some((n, j)) => parse_targets_at(d, j, n as nat),
        None => None,
    }
}

/// Read a count, then that many observations.
pub open spec fn parse_counted_obs_at(d: Seq<u8>, i: int) -> Option<(Seq<ObsView>, int)> {
    match parse_u32_at(d, i) {
        Some((n, j)) => parse_obs_at(d, j, n as nat),
        None => None,
    }
}

impl ServerMessage {
    /// Read a count-prefixed target list, advancing `index`.
    pub fn parse_target_populations(data: &[u8], index: &mut usize) -> (r: Option<
        Vec<PopulationTarget>,
    >)
        ensures
            match r {
                Some(ts) => parse_counted_targets_at(data@, (*old(index)) as int) == Some(
                    (tviews(ts@), (*final (index)) as int),
                ),
                None => parse_counted_targets_at(data@, (*old(index)) as int) is None && *final (
                index) == *old(index),
            },
    {
        let saved: usize = *index;
        let n = match parse_u32(data, index) {
            Some(n) => n,
            None => {
                return None;
            },
        };
        let ghost d = data@;
        let mut ts: Vec<PopulationTarget> = Vec::new();
        let mut k: u32 = 0;
        while k < n
            invariant
                0 <= k <= n,
                parse_counted_targets_at(d, saved as int) == (match parse_targets_at(
                    d,
                    (*index) as int,
                    (n - k) as nat,
                ) {
                    Some((rest, e)) => Some((tviews(ts@) + rest, e)),
                    None => None::<(Seq<TargetView>, int)>,
                }),
                d == data@,
                saved == *old(index),
            decreases n - k,
        {
            let species = match parse_str(data, index) {
                Some(v) => v,
                None => {
                    *index = saved;
                    return None;
                },
            };
            let min = match parse_u32(data, index) {
                Some(v) => v,
                None => {
                    *index = saved;
                    return None;
                },
            };
            let max = match parse_u32(data, index) {
                Some(v) => v,
                None => {
                    *index = saved;
                    return None;
                },
            };
            let t = PopulationTarget { species, min, max };
            proof {
                let tv = t@;
                assert forall|rest: Seq<TargetView>|
                    tviews(ts@) + (seq![tv] + rest) =~= tviews(ts@.push(t)) + rest by {
                    assert(tviews(ts@.push(t)) =~= tviews(ts@).push(tv));
                }
            }
            ts.push(t);
            k = k + 1;
        }
        proof {
            assert(parse_targets_at(d, (*index) as int, 0) == Some(
                (Seq::<TargetView>::empty(), (*index) as int),
            ));
            assert(tviews(ts@) + Seq::<TargetView>::empty() =~= tviews(ts@));
        }
        Some(ts)
    }

    /// Read a count-prefixed observation list, advancing `index`; a
    /// list giving one species two different counts is rejected.
    pub fn parse_population_obs(data: &[u8], index: &mut usize) -> (r: Option<Vec<PopulationObs>>)
        ensures
            match r {
                Some(os) => parse_counted_obs_at(data@, (*old(index)) as int) == Some(
                    (oviews(os@), (*final (index)) as int),
                ) && !obs_conflict(oviews(os@)),
                None => (match parse_counted_obs_at(data@, (*old(index)) as int) {
                    Some((os, _)) => obs_conflict(os),
                    None => true,
                }) && *final (index) == *old(index),
            },
    {
        let saved: usize = *index;
        let n = match parse_u32(data, index) {
            Some(n) => n,
            None => {
                return None;
            },
        };
        let ghost d = data@;
        let mut os: Vec<PopulationObs> = Vec::new();
        let mut k: u32 = 0;
        while k < n
            invariant
                0 <= k <= n,
                parse_counted_obs_at(d, saved as int) == (match parse_obs_at(
                    d,
                    (*index) as int,
                    (n - k) as nat,
                ) {
                    Some((rest, e)) => Some((oviews(os@) + rest, e)),
                    None => None::<(Seq<ObsView>, int)>,
                }),
                d == data@,
                saved == *old(index),
            decreases n - k,
        {
            let species = match parse_str(data, index) {
                Some(v) => v,
                None => {
                    *index = saved;
                    return None;
                },
            };
            let count = match parse_u32(data, index) {
                Some(v) => v,
                None => {
                    *index = saved;
                    return None;
                },
            };
            let o = PopulationObs { species, count };
            proof {
                let ov = o@;
                assert forall|rest: Seq<ObsView>|
                    oviews(os@) + (seq![ov] + rest) =~= oviews(os@.push(o)) + rest by {
                    assert(oviews(os@.push(o)) =~= oviews(os@).push(ov));
                }
            }
            os.push(o);
            k = k + 1;
        }
        proof {
            assert(parse_obs_at(d, (*index) as int, 0) == Some(
                (Seq::<ObsView>::empty(), (*index) as int),
            ));
            assert(oviews(os@) + Seq::<ObsView>::empty() =~= oviews(os@));
        }
        if obs_list_conflict(&os) {
            *index = saved;
            return None;
        }
        Some(os)
    }
}

/// Whether two observations give one species different counts.
pub fn obs_list_conflict(os: &Vec<PopulationObs>) -> (r: bool)
    ensures
        r == obs_conflict(oviews(os@)),
{
    let ghost ov = oviews(os@);
    let mut i: usize = 1;
    while i < os.len()
        invariant
            1 <= i <= os@.len() || os@.len() == 0,
            ov == oviews(os@),
            forall|a: int, b: int|
                0 <= a < b < i ==> !(ov[a].species == ov[b].species && ov[a].count != ov[b].count),
        decreases os@.len() - i,
    {
        let mut j: usize = 0;
        while j < i
            invariant
                0 <= j <= i < os@.len(),
                ov == oviews(os@),
                forall|a: int|
                    0 <= a < j ==> !(ov[a].species == ov[i as int].species && ov[a].count != ov[
                        i as int
                    ].count),
            decreases i - j,
        {
            if crate::util::bytes_eq(os[j].species.as_slice(), os[i].species.as_slice()) && os[
                j
            ].count != os[i].count {
                proof {
                    assert(ov[j as int].species == ov[i as int].species && ov[j as int].count
                        != ov[i as int].count);
                    assert(obs_conflict(ov));
                }
                return true;
            }
            j = j + 1;
        }
        i = i + 1;
    }
    proof {
        assert(!obs_conflict(ov)) by {
            if obs_conflict(ov) {
                let (a, b) = choose|a: int, b: int|
                    0 <= a < b < ov.len() && ov[a].species == ov[b].species && ov[a].count != ov[
                        b
                    ].count;
                assert(false);
            }
        }
    }
    false
}

impl ServerMessage {
    fn parse_msg_hello(data: &[u8]) -> (r: Option<ServerMessage>)
        ensures
            match r {
                Some(m) => spec_parse_msg(0x50, data@) == Some(m@),
                None => spec_parse_msg(0x50, data@) is None,
            },
    {
        let mut index: usize = 0;
        let protocol = match parse_str(data, &mut index) {
            Some(v) => v,
            None => {
                return None;
            },
        };
        let version = match parse_u32(data, &mut index) {
            Some(v) => v,
            None => {
                return None;
            },
        };
        if index != data.len() {
            return None;
        }
        Some(ServerMessage::Hello { protocol, version })
    }

    fn parse_msg_error(data: &[u8]) -> (r: Option<ServerMessage>)
        ensures
            match r {
                Some(m) => spec_parse_msg(0x51, data@) == Some(m@),
                None => spec_parse_msg(0x51, data@) is None,
            },
    {
        let mut index: usize = 0;
        let msg = match parse_str(data, &mut index) {
            Some(v) => v,
            None => {
                return None;
            },
        };
        if index != data.len() {
            return None;
        }
        Some(ServerMessage::Error { msg })
    }

    fn parse_msg_ok(data: &[u8]) -> (r: Option<ServerMessage>)
        ensures
            match r {
                Some(m) => spec_parse_msg(0x52, data@) == Some(m@),
                None => spec_parse_msg(0x52, data@) is None,
            },
    {
        if data.len() != 0 {
            return None;
        }
        Some(ServerMessage::Okay)
    }

    fn parse_msg_dial_authority(data: &[u8]) -> (r: Option<ServerMessage>)
        ensures
            match r {
                Some(m) => spec_parse_msg(0x53, data@) == Some(m@),
                None => spec_parse_msg(0x53, data@) is None,
            },
    {
        let mut index: usize = 0;
        let site = match parse_u32(data, &mut index) {
            Some(v) => v,
            None => {
                return None;
            },
        };
        if index != data.len() {
            return None;
        }
        Some(ServerMessage::DialAuthority { site })
    }

    fn parse_msg_target_population(data: &[u8]) -> (r: Option<ServerMessage>)
        ensures
            match r {
                Some(m) => spec_parse_msg(0x54, data@) == Some(m@),
                None => spec_parse_msg(0x54, data@) is None,
            },
    {
        let mut index: usize = 0;
        let site = match parse_u32(data, &mut index) {
            Some(v) => v,
            None => {
                return None;
            },
        };
        let targets = match Self::parse_target_populations(data, &mut index) {
            Some(v) => v,
            None => {
                return None;
            },
        };
        if index != data.len() {
            return None;
        }
        Some(ServerMessage::TargetPopulations { site, targets })
    }

    fn parse_msg_create_policy(data: &[u8]) -> (r: Option<ServerMessage>)
        ensures
            match r {
                Some(m) => spec_parse_msg(0x55, data@) == Some(m@),
                None => spec_parse_msg(0x55, data@) is None,
            },
    {
        let mut index: usize = 0;
        let species = match parse_str(data, &mut index) {
            Some(v) => v,
            None => {
                return None;
            },
        };
        let action = match parse_u8(data, &mut index) {
            Some(v) => v,
            None => {
                return None;
            },
        };
        if index != data.len() {
            return None;
        }
        Some(ServerMessage::CreatePolicy { species, action })
    }

    fn parse_msg_delete_policy(data: &[u8]) -> (r: Option<ServerMessage>)
        ensures
            match r {
                Some(m) => spec_parse_msg(0x56, data@) == Some(m@),
                None => spec_parse_msg(0x56, data@) is None,
            },
    {
        let mut index: usize = 0;
        let policy = match parse_u32(data, &mut index) {
            Some(v) => v,
            None => {
                return None;
            },
        };
        if index != data.len() {
            return None;
        }
        Some(ServerMessage::DeletePolicy { policy })
    }

    fn parse_msg_policy_result(data: &[u8]) -> (r: Option<ServerMessage>)
        ensures
            match r {
                Some(m) => spec_parse_msg(0x57, data@) == Some(m@),
                None => spec_parse_msg(0x57, data@) is None,
            },
    {
        let mut index: usize = 0;
        let policy = match parse_u32(data, &mut index) {
            Some(v) => v,
            None => {
                return None;
            },
        };
        if index != data.len() {
            return None;
        }
        Some(ServerMessage::PolicyResult { policy })
    }

    fn parse_msg_site_visit(data: &[u8]) -> (r: Option<ServerMessage>)
        ensures
            match r {
                Some(m) => spec_parse_msg(0x58, data@) == Some(m@),
                None => spec_parse_msg(0x58, data@) is None,
            },
    {
        let mut index: usize = 0;
        let site = match parse_u32(data, &mut index) {
            Some(v) => v,
            None => {
                return None;
            },
        };
        let observations = match Self::parse_population_obs(data, &mut index) {
            Some(v) => v,
            None => {
                return None;
            },
        };
        if index != data.len() {
            return None;
        }
        Some(ServerMessage::SiteVisit { site, observations })
    }

    /// Parse the payload of a frame under its type byte.
    pub fn parse(msg_type: u8, data: &[u8]) -> (r: Option<ServerMessage>)
        ensures
            match r {
                Some(m) => spec_parse_msg(msg_type, data@) == Some(m@),
                None => spec_parse_msg(msg_type, data@) is None,
            },
    {
        if msg_type == 0x50 {
            Self::parse_msg_hello(data)
        } else if msg_type == 0x51 {
            Self::parse_msg_error(data)
        } else if msg_type == 0x52 {
            Self::parse_msg_ok(data)
        } else if msg_type == 0x53 {
            Self::parse_msg_dial_authority(data)
        } else if msg_type == 0x54 {
            Self::parse_msg_target_population(data)
        } else if msg_type == 0x55 {
            Self::parse_msg_create_policy(data)
        } else if msg_type == 0x56 {
            Self::parse_msg_delete_policy(data)
        } else if msg_type == 0x57 {
            Self::parse_msg_policy_result(data)
        } else if msg_type == 0x58 {
            Self::parse_msg_site_visit(data)
        } else {
            None
        }
    }
}


proof fn lemma_subrange_of_subrange(d: Seq<u8>, i: int, len: int, a: int, b: int)
    requires
        0 <= i,
        i + len <= d.len(),
        0 <= a <= b <= len,
    ensures
        d.subrange(i + a, i + b) == d.subrange(i, i + len).subrange(a, b),
{
    assert(d.subrange(i + a, i + b) =~= d.subrange(i, i + len).subrange(a, b));
}

proof fn lemma_parse_targets_of_enc(d: Seq<u8>, i: int, ts: Seq<TargetView>)
    requires
        0 <= i,
        i + enc_target_list(ts).len() <= d.len(),
        d.subrange(i, i + enc_target_list(ts).len()) == enc_target_list(ts),
        forall|k: int| 0 <= k < ts.len() ==> (#[trigger] ts[k]).species.len() <= u32::MAX,
    ensures
        parse_targets_at(d, i, ts.len()) == Some((ts, i + enc_target_list(ts).len())),
    decreases ts.len(),
{
    if ts.len() > 0 {
        let t = ts[0];
        let sp = t.species;
        let rest = ts.drop_first();
        let l0 = enc_target(t).len() as int;
        let ltot = enc_target_list(ts).len() as int;
        assert(enc_target_list(ts) == enc_target(t) + enc_target_list(rest));
        assert(l0 == 12 + sp.len());
        lemma_subrange_of_subrange(d, i, ltot, 0, 4 + sp.len() as int);
        assert(d.subrange(i, i + 4 + sp.len() as int) =~= enc_str(sp));
        lemma_parse_str_at_enc(d, i, sp);
        let j = i + 4 + sp.len() as int;
        lemma_subrange_of_subrange(d, i, ltot, 4 + sp.len() as int, 8 + sp.len() as int);
        assert(d.subrange(j, j + 4) =~= enc_u32(t.min));
        lemma_parse_u32_at_enc(d, j, t.min);
        lemma_subrange_of_subrange(d, i, ltot, 8 + sp.len() as int, 12 + sp.len() as int);
        assert(d.subrange(j + 4, j + 8) =~= enc_u32(t.max));
        lemma_parse_u32_at_enc(d, j + 4, t.max);
        let j3 = i + l0;
        lemma_subrange_of_subrange(d, i, ltot, l0, ltot);
        assert(d.subrange(j3, i + ltot) =~= enc_target_list(rest));
        assert forall|k: int| 0 <= k < rest.len() implies (#[trigger] rest[k]).species.len()
            <= u32::MAX by {
            assert(rest[k] == ts[k + 1]);
        }
        lemma_parse_targets_of_enc(d, j3, rest);
        assert(TargetView { species: sp, min: t.min, max: t.max } == t);
        assert(seq![t] + rest =~= ts);
    }
}

proof fn lemma_parse_obs_of_enc(d: Seq<u8>, i: int, os: Seq<ObsView>)
    requires
        0 <= i,
        i + enc_obs_list(os).len() <= d.len(),
        d.subrange(i, i + enc_obs_list(os).len()) == enc_obs_list(os),
        forall|k: int| 0 <= k < os.len() ==> (#[trigger] os[k]).species.len() <= u32::MAX,
    ensures
        parse_obs_at(d, i, os.len()) == Some((os, i + enc_obs_list(os).len())),
    decreases os.len(),
{
    if os.len() > 0 {
        let o = os[0];
        let sp = o.species;
        let rest = os.drop_first();
        let l0 = enc_obs(o).len() as int;
        let ltot = enc_obs_list(os).len() as int;
        assert(enc_obs_list(os) == enc_obs(o) + enc_obs_list(rest));
        assert(l0 == 8 + sp.len());
        lemma_subrange_of_subrange(d, i, ltot, 0, 4 + sp.len() as int);
        assert(d.subrange(i, i + 4 + sp.len() as int) =~= enc_str(sp));
        lemma_parse_str_at_enc(d, i, sp);
        let j = i + 4 + sp.len() as int;
        lemma_subrange_of_subrange(d, i, ltot, 4 + sp.len() as int, 8 + sp.len() as int);
        assert(d.subrange(j, j + 4) =~= enc_u32(o.count));
        lemma_parse_u32_at_enc(d, j, o.count);
        let j2 = i + l0;
        lemma_subrange_of_subrange(d, i, ltot, l0, ltot);
        assert(d.subrange(j2, i + ltot) =~= enc_obs_list(rest));
        assert forall|k: int| 0 <= k < rest.len() implies (#[trigger] rest[k]).species.len()
            <= u32::MAX by {
            assert(rest[k] == os[k + 1]);
        }
        lemma_parse_obs_of_enc(d, j2, rest);
        assert(ObsView { species: sp, count: o.count } == o);
        assert(seq![o] + rest =~= os);
    }
}

/// Parsing the payload a message encodes to gives the message back.
#[verifier::rlimit(60)]
#[verifier::spinoff_prover]
pub proof fn lemma_parse_of_payload(m: MsgView)
    requires
        msg_wf(m),
        m matches MsgView::SiteVisit { observations, .. } ==> !obs_conflict(observations),
    ensures
        spec_parse_msg(tag_of(m), payload_of(m)) == Some(m),
{
    let d = payload_of(m);
    match m {
        MsgView::Hello { protocol, version } => {
            assert(d.subrange(0, 4 + protocol.len() as int) =~= enc_str(protocol));
            lemma_parse_str_at_enc(d, 0, protocol);
            let i = 4 + protocol.len() as int;
            assert(d.subrange(i, i + 4) =~= enc_u32(version));
            lemma_parse_u32_at_enc(d, i, version);
        },
        MsgView::Error { msg } => {
            assert(d.subrange(0, 4 + msg.len() as int) =~= enc_str(msg));
            lemma_parse_str_at_enc(d, 0, msg);
        },
        MsgView::Okay => {},
        MsgView::DialAuthority { site } => {
            assert(d.subrange(0, 4) =~= enc_u32(site));
            lemma_parse_u32_at_enc(d, 0, site);
        },
        MsgView::TargetPopulations { site, targets } => {
            assert(d.subrange(0, 4) =~= enc_u32(site));
            lemma_parse_u32_at_enc(d, 0, site);
            assert(d.subrange(4, 8) =~= enc_u32(targets.len() as u32));
            lemma_parse_u32_at_enc(d, 4, targets.len() as u32);
            let l = enc_target_list(targets).len() as int;
            assert(d.subrange(8, 8 + l) =~= enc_target_list(targets));
            lemma_parse_targets_of_enc(d, 8, targets);
            assert((targets.len() as u32) as nat == targets.len());
        },
        MsgView::CreatePolicy { species, action } => {
            assert(d.subrange(0, 4 + species.len() as int) =~= enc_str(species));
            lemma_parse_str_at_enc(d, 0, species);
            assert(d[4 + species.len() as int] == action);
        },
        MsgView::DeletePolicy { policy } => {
            assert(d.subrange(0, 4) =~= enc_u32(policy));
            lemma_parse_u32_at_enc(d, 0, policy);
        },
        MsgView::PolicyResult { policy } => {
            assert(d.subrange(0, 4) =~= enc_u32(policy));
            lemma_parse_u32_at_enc(d, 0, policy);
        },
        MsgView::SiteVisit { site, observations } => {
            assert(d.subrange(0, 4) =~= enc_u32(site));
            lemma_parse_u32_at_enc(d, 0, site);
            assert(d.subrange(4, 8) =~= enc_u32(observations.len() as u32));
            lemma_parse_u32_at_enc(d, 4, observations.len() as u32);
            let l = enc_obs_list(observations).len() as int;
            assert(d.subrange(8, 8 + l) =~= enc_obs_list(observations));
            lemma_parse_obs_of_enc(d, 8, observations);
            assert((observations.len() as u32) as nat == observations.len());
        },
    }
}

/// Framing round-trip: decoding the frame a message encodes to gives
/// the message back, for every message whose fields fit the wire and
/// whose observations do not conflict.
pub proof fn lemma_frame_roundtrip(m: MsgView)
    requires
        msg_wf(m),
        m matches MsgView::SiteVisit { observations, .. } ==> !obs_conflict(observations),
    ensures
        spec_decode_frame(frame_of(m)) == Some(m),
{
    let payload = payload_of(m);
    let body = seq![tag_of(m)] + enc_u32((payload.len() + 6) as u32) + payload;
    let f = frame_of(m);
    assert(f == body.push(neg_sum(body)));
    assert(f.len() == payload.len() + 6);
    assert(f.subrange(1, 5) =~= enc_u32((payload.len() + 6) as u32));
    lemma_parse_u32_at_enc(f, 1, (payload.len() + 6) as u32);
    assert(be32_at(f, 1) == f.len());
    lemma_neg_sum_closes(body);
    assert(sum_bytes(f) % 256 == 0);
    assert(f.subrange(5, f.len() - 1) =~= payload);
    assert(f[0] == tag_of(m));
    lemma_parse_of_payload(m);
}


/// A policy directive: keep a species alive or thin it out.
#[derive(Clone, Copy, PartialEq, Eq, Structural, Debug)]
pub enum PolicyType {
    Conserve,
    Cull,
}

/// The wire byte of a policy type.
pub open spec fn policy_byte(t: PolicyType) -> u8 {
    match t {
        PolicyType::Conserve => 0xa0,
        PolicyType::Cull => 0x90,
    }
}

impl PolicyType {
    /// The action byte carried by a CreatePolicy message.
    pub fn to_byte(&self) -> (r: u8)
        ensures
            r == policy_byte(*self),
    {
        match self {
            PolicyType::Conserve => 0xa0,
            PolicyType::Cull => 0x90,
        }
    }
}

/// A policy the authority has acknowledged, with its server id.
#[derive(Clone, PartialEq, Eq, Debug)]
pub struct Policy {
    pub id: u32,
    pub species: Vec<u8>,
    pub policy_type: PolicyType,
}

/// Mathematical image of a policy.
#[verifier::ext_equal]
pub struct PolicyView {
    pub id: u32,
    pub species: Seq<u8>,
    pub policy_type: PolicyType,
}

impl View for Policy {
    type V = PolicyView;

    open spec fn view(&self) -> PolicyView {
        PolicyView { id: self.id, species: self.species@, policy_type: self.policy_type }
    }
}

/// What must be said to the authority to reconcile one species.
#[derive(Clone, PartialEq, Eq, Debug)]
pub enum PolicyAction {
    Delete { id: u32, species: Vec<u8> },
    Add { species: Vec<u8>, policy_type: PolicyType },
}

/// Mathematical image of an action.
#[verifier::ext_equal]
pub enum ActionView {
    Delete { id: u32, species: Seq<u8> },
    Add { species: Seq<u8>, policy_type: PolicyType },
}

impl View for PolicyAction {
    type V = ActionView;

    open spec fn view(&self) -> ActionView {
        match self {
            PolicyAction::Delete { id, species } => ActionView::Delete {
                id: *id,
                species: species@,
            },
            PolicyAction::Add { species, policy_type } => ActionView::Add {
                species: species@,
                policy_type: *policy_type,
            },
        }
    }
}

pub open spec fn pviews(ps: Seq<Policy>) -> Seq<PolicyView> {
    ps.map_values(|p: Policy| p@)
}

pub open spec fn aviews(acts: Seq<PolicyAction>) -> Seq<ActionView> {
    acts.map_values(|a: PolicyAction| a@)
}

/// The state kept for one site: the authority's target bands and the
/// policies currently standing at the authority.
pub struct SiteState {
    pub targets: Vec<PopulationTarget>,
    pub policies: Vec<Policy>,
}

/// Mathematical image of a site's state.
#[verifier::ext_equal]
pub struct SiteStateView {
    pub targets: Seq<TargetView>,
    pub policies: Seq<PolicyView>,
}

impl View for SiteState {
    type V = SiteStateView;

    open spec fn view(&self) -> SiteStateView {
        SiteStateView { targets: tviews(self.targets@), policies: pviews(self.policies@) }
    }
}

/// The first target band for `sp`, if any.
pub open spec fn find_target(ts: Seq<TargetView>, sp: Seq<u8>) -> Option<TargetView>
    decreases ts.len(),
{
    if ts.len() == 0 {
        None
    } else if ts[0].species == sp {
        Some(ts[0])
    } else {
        find_target(ts.drop_first(), sp)
    }
}

/// The first standing policy for `sp`, if any.
pub open spec fn find_policy(ps: Seq<PolicyView>, sp: Seq<u8>) -> Option<PolicyView>
    decreases ps.len(),
{
    if ps.len() == 0 {
        None
    } else if ps[0].species == sp {
        Some(ps[0])
    } else {
        find_policy(ps.drop_first(), sp)
    }
}

/// The policy a count calls for under a target band: conserve below
/// the band, cull above it, none inside it.
pub open spec fn desired_policy(count: u32, t: TargetView) -> Option<PolicyType> {
    if count < t.min {
        Some(PolicyType::Conserve)
    } else if count > t.max {
        Some(PolicyType::Cull)
    } else {
        None
    }
}

pub open spec fn type_of_policy(p: Option<PolicyView>) -> Option<PolicyType> {
    match p {
        Some(p) => Some(p.policy_type),
        None => None,
    }
}

/// The actions that reconcile one species: nothing when the standing
/// policy already matches the desired one, else delete the standing
/// policy (if any) and add the desired one (if any).  A species with
/// no target band is left alone.
pub open spec fn actions_for(st: SiteStateView, sp: Seq<u8>, count: u32) -> Seq<ActionView> {
    match find_target(st.targets, sp) {
        None => Seq::empty(),
        Some(t) => {
            let cur = find_policy(st.policies, sp);
            let des = desired_policy(count, t);
            if type_of_policy(cur) == des {
                Seq::empty()
            } else {
                (match cur {
                    Some(p) => seq![ActionView::Delete { id: p.id, species: sp }],
                    None => Seq::empty(),
                }) + (match des {
                    Some(ty) => seq![ActionView::Add { species: sp, policy_type: ty }],
                    None => Seq::empty(),
                })
            }
        },
    }
}

/// The count observed for `sp`: the first observation of it, or zero.
/// (A later observation of the same species can only repeat the
/// count, since conflicting visits are rejected at parse time.)
pub open spec fn obs_count_of(os: Seq<ObsView>, sp: Seq<u8>) -> u32
    decreases os.len(),
{
    if os.len() == 0 {
        0
    } else if os[0].species == sp {
        os[0].count
    } else {
        obs_count_of(os.drop_first(), sp)
    }
}

/// The actions of a whole visit: each target species from `i` on,
/// reconciled in order against its observed count.
pub open spec fn all_actions(st: SiteStateView, os: Seq<ObsView>, i: int) -> Seq<ActionView>
    decreases st.targets.len() - i,
{
    if i < 0 || i >= st.targets.len() {
        Seq::empty()
    } else {
        actions_for(st, st.targets[i].species, obs_count_of(os, st.targets[i].species))
            + all_actions(st, os, i + 1)
    }
}

/// Policies standing after the policy for `sp` is withdrawn.
pub open spec fn remove_species(ps: Seq<PolicyView>, sp: Seq<u8>) -> Seq<PolicyView>
    decreases ps.len(),
{
    if ps.len() == 0 {
        Seq::empty()
    } else {
        let r = remove_species(ps.drop_last(), sp);
        if ps.last().species == sp {
            r
        } else {
            r.push(ps.last())
        }
    }
}

impl SiteState {
    pub fn new() -> (r: SiteState)
        ensures
            r@.targets == Seq::<TargetView>::empty(),
            r@.policies == Seq::<PolicyView>::empty(),
    {
        let r = SiteState { targets: Vec::new(), policies: Vec::new() };
        proof {
            assert(r@.targets =~= Seq::<TargetView>::empty());
            assert(r@.policies =~= Seq::<PolicyView>::empty());
        }
        r
    }

    /// The index of the target band for `species`, if one stands.
    fn find_target_idx(&self, species: &[u8]) -> (r: Option<usize>)
        ensures
            match r {
                Some(i) => i < self.targets@.len() && find_target(self@.targets, species@) == Some(
                    self@.targets[i as int],
                ),
                None => find_target(self@.targets, species@) is None,
            },
    {
        let ghost ts = self@.targets;
        let mut i: usize = 0;
        proof {
            assert(ts.skip(0) =~= ts);
        }
        while i < self.targets.len()
            invariant
                0 <= i <= self.targets@.len(),
                ts == self@.targets,
                find_target(ts.skip(i as int), species@) == find_target(ts, species@),
            decreases self.targets@.len() - i,
        {
            proof {
                assert(ts.skip(i as int)[0] == ts[i as int]);
                assert(ts.skip(i as int).drop_first() =~= ts.skip(i + 1));
            }
            if crate::util::bytes_eq(self.targets[i].species.as_slice(), species) {
                return Some(i);
            }
            i = i + 1;
        }
        proof {
            assert(ts.skip(self.targets@.len() as int) =~= Seq::<TargetView>::empty());
        }
        None
    }

    /// The index of the standing policy for `species`, if one stands.
    fn find_policy_idx(&self, species: &[u8]) -> (r: Option<usize>)
        ensures
            match r {
                Some(i) => i < self.policies@.len() && find_policy(self@.policies, species@)
                    == Some(self@.policies[i as int]) && self.policies@[i as int].species@
                    == species@,
                None => find_policy(self@.policies, species@) is None,
            },
    {
        let ghost ps = self@.policies;
        let mut i: usize = 0;
        proof {
            assert(ps.skip(0) =~= ps);
        }
        while i < self.policies.len()
            invariant
                0 <= i <= self.policies@.len(),
                ps == self@.policies,
                find_policy(ps.skip(i as int), species@) == find_policy(ps, species@),
            decreases self.policies@.len() - i,
        {
            proof {
                assert(ps.skip(i as int)[0] == ps[i as int]);
                assert(ps.skip(i as int).drop_first() =~= ps.skip(i + 1));
            }
            if crate::util::bytes_eq(self.policies[i].species.as_slice(), species) {
                return Some(i);
            }
            i = i + 1;
        }
        proof {
            assert(ps.skip(self.policies@.len() as int) =~= Seq::<PolicyView>::empty());
        }
        None
    }

    /// The actions that reconcile one species' observed count.
    pub fn get_action(&self, species: &[u8], count: u32) -> (r: Vec<PolicyAction>)
        ensures
            aviews(r@) == actions_for(self@, species@, count),
    {
        let ti = match self.find_target_idx(species) {
            Some(i) => i,
            None => {
                let r: Vec<PolicyAction> = Vec::new();
                proof {
                    assert(aviews(r@) =~= actions_for(self@, species@, count));
                }
                return r;
            },
        };
        let t = &self.targets[ti];
        proof {
            assert(self@.targets[ti as int] == self.targets@[ti as int]@);
            assert(find_target(self@.targets, species@) == Some(t@));
        }
        let policy_idx = self.find_policy_idx(species);
        let mut actions: Vec<PolicyAction> = Vec::new();
        let wanted_conserve = count < t.min;
        let wanted_cull = count > t.max;
        match policy_idx {
            Some(pi) => {
                let p = &self.policies[pi];
                proof {
                    assert(self@.policies[pi as int] == self.policies@[pi as int]@);
                    assert(find_policy(self@.policies, species@) == Some(p@));
                }
                let keep = match p.policy_type {
                    PolicyType::Conserve => wanted_conserve,
                    PolicyType::Cull => !wanted_conserve && wanted_cull,
                };
                if keep {
                    proof {
                        assert(aviews(actions@) =~~= actions_for(self@, species@, count));
                    }
                    return actions;
                }
                let sp_del = p.species.clone();
                proof {
                    assert(sp_del@ =~= species@);
                }
                actions.push(PolicyAction::Delete { id: p.id, species: sp_del });
            },
            None => {
                if !wanted_conserve && !wanted_cull {
                    proof {
                        assert(aviews(actions@) =~= actions_for(self@, species@, count));
                    }
                    return actions;
                }
            },
        }
        if wanted_conserve {
            let mut sp: Vec<u8> = Vec::new();
            sp.extend_from_slice(species);
            actions.push(PolicyAction::Add { species: sp, policy_type: PolicyType::Conserve });
        } else if wanted_cull {
            let mut sp: Vec<u8> = Vec::new();
            sp.extend_from_slice(species);
            actions.push(PolicyAction::Add { species: sp, policy_type: PolicyType::Cull });
        }
        proof {
            assert(aviews(actions@) =~~= actions_for(self@, species@, count));
        }
        actions
    }

    /// The actions that reconcile a whole visit: every target species
    /// in order, against its observed count (zero when unobserved).
    pub fn get_actions(&mut self, observations: &[PopulationObs]) -> (r: Vec<PolicyAction>)
        ensures
            *final (self) == *old(self),
            aviews(r@) == all_actions(old(self)@, oviews(observations@), 0),
    {
        let ghost st = self@;
        let ghost os = oviews(observations@);
        let mut out: Vec<PolicyAction> = Vec::new();
        let mut i: usize = 0;
        proof {
            assert(aviews(out@) =~= Seq::<ActionView>::empty());
            assert(aviews(out@) + all_actions(st, os, 0) =~= all_actions(st, os, 0));
        }
        while i < self.targets.len()
            invariant
                0 <= i <= self.targets@.len(),
                st == self@,
                *self == *old(self),
                os == oviews(observations@),
                all_actions(st, os, 0) == aviews(out@) + all_actions(st, os, i as int),
            decreases self.targets@.len() - i,
        {
            let count = obs_count(observations, self.targets[i].species.as_slice());
            let mut acts = self.get_action_at(i, count);
            proof {
                assert(st.targets[i as int] == self.targets@[i as int]@);
            }
            let ghost prev = out@;
            let ghost added = acts@;
            out.append(&mut acts);
            proof {
                assert(out@ == prev + added);
                assert(aviews(out@) =~= aviews(prev) + aviews(added));
                assert(aviews(prev) + (aviews(added) + all_actions(st, os, i + 1)) =~= (aviews(
                    prev,
                ) + aviews(added)) + all_actions(st, os, i + 1));
            }
            i = i + 1;
        }
        proof {
            assert(all_actions(st, os, self.targets@.len() as int) =~= Seq::<ActionView>::empty());
            assert(aviews(out@) + Seq::<ActionView>::empty() =~= aviews(out@));
        }
        out
    }

    /// `get_action` for the target at `idx`, against `count`.
    fn get_action_at(&self, idx: usize, count: u32) -> (r: Vec<PolicyAction>)
        requires
            idx < self.targets@.len(),
        ensures
            aviews(r@) == actions_for(self@, self.targets@[idx as int]@.species, count),
    {
        let species = self.targets[idx].species.clone();
        proof {
            assert(species@ =~= self.targets@[idx as int].species@);
        }
        self.get_action(species.as_slice(), count)
    }

    /// Record a policy the authority has acknowledged.
    pub fn record_policy(&mut self, species: Vec<u8>, policy_type: PolicyType, id: u32)
        ensures
            final (self)@.targets == old(self)@.targets,
            final (self)@.policies == old(self)@.policies.push(
                PolicyView { id, species: species@, policy_type },
            ),
    {
        let ghost sp = species@;
        self.policies.push(Policy { id, species, policy_type });
        proof {
            assert(self@.policies =~= old(self)@.policies.push(
                PolicyView { id, species: sp, policy_type },
            ));
        }
    }

    /// Forget the standing policy for a species, after the authority
    /// has confirmed its deletion.
    pub fn remove_policy(&mut self, species: &[u8])
        ensures
            final (self)@.targets == old(self)@.targets,
            final (self)@.policies == remove_species(old(self)@.policies, species@),
    {
        let ghost ps = old(self)@.policies;
        let mut kept: Vec<Policy> = Vec::new();
        let mut i: usize = 0;
        proof {
            assert(pviews(kept@) =~= remove_species(ps.take(0), species@));
        }
        while i < self.policies.len()
            invariant
                0 <= i <= self.policies@.len(),
                *self == *old(self),
                ps == old(self)@.policies,
                pviews(kept@) =~= remove_species(ps.take(i as int), species@),
            decreases self.policies@.len() - i,
        {
            proof {
                assert(ps.take(i + 1).drop_last() =~= ps.take(i as int));
                assert(ps.take(i + 1).last() == ps[i as int]);
            }
            if !crate::util::bytes_eq(self.policies[i].species.as_slice(), species) {
                let ghost prev = kept@;
                let src = &self.policies[i];
                let cloned_species = src.species.clone();
                let kp = Policy { id: src.id, species: cloned_species, policy_type: src.policy_type };
                proof {
                    assert(kp@.species =~= ps[i as int].species);
                    assert(kp@ == ps[i as int]);
                }
                kept.push(kp);
                proof {
                    assert(pviews(kept@) =~= pviews(prev).push(ps[i as int]));
                }
            }
            i = i + 1;
        }
        proof {
            assert(ps.take(ps.len() as int) =~= ps);
        }
        self.policies = kept;
    }
}

/// The observed count for a species: the first observation of it, or
/// zero when it was not observed.
pub fn obs_count(observations: &[PopulationObs], species: &[u8]) -> (r: u32)
    ensures
        r == obs_count_of(oviews(observations@), species@),
{
    let ghost os = oviews(observations@);
    let mut i: usize = 0;
    proof {
        assert(os.skip(0) =~= os);
    }
    while i < observations.len()
        invariant
            0 <= i <= observations@.len(),
            os == oviews(observations@),
            obs_count_of(os.skip(i as int), species@) == obs_count_of(os, species@),
        decreases observations@.len() - i,
    {
        proof {
            assert(os.skip(i as int)[0] == os[i as int]);
            assert(os.skip(i as int).drop_first() =~= os.skip(i + 1));
        }
        if crate::util::bytes_eq(observations[i].species.as_slice(), species) {
            return observations[i].count;
        }
        i = i + 1;
    }
    proof {
        assert(os.skip(observations@.len() as int) =~= Seq::<ObsView>::empty());
    }
    0
}

} // verus!
