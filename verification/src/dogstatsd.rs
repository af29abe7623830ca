//! Text metrics/events wire codec (DogStatsD v1.2).
//!
//! A datagram is UTF-8 and one of three shapes, told apart by its first two
//! bytes: `_e` starts an event, `_s` a service check, anything else a
//! metric. Decoding yields a structured record; encoding emits the
//! datagram's sections in a fixed order. For every canonical datagram —
//! one that the encoder can produce from a well-formed record — decoding
//! succeeds and re-encoding reproduces the input byte for byte.
//!
//! Numeric metric values and sample rates are carried as their numeral
//! text, validated against the floating-point grammar; that keeps the
//! round-trip exact without any floating-point arithmetic.

use vstd::prelude::*;

use crate::segments::{join_bytes, join_with, push_all, split_at, split_bytes};
use crate::text::{
    dec_of, dec_of_i32, float_text, i32_numeral, i32_numeral_val, is_utf8, unsigned_numeral,
    unsigned_numeral_val,
};

verus! {

/// The codec's one error class: any malformed datagram.
#[derive(Clone, Copy, Debug, PartialEq, Eq, Structural)]
pub enum CodecError {
    InvalidProtocol,
}

/// The metric error value, as the decoder returns it.
pub fn invalid() -> (e: CodecError)
    ensures
        e == CodecError::InvalidProtocol,
{
    CodecError::InvalidProtocol
}

/// Metric type letter: `c`, `d`, `g`, `h`, `s` or `ms`.
#[derive(Clone, Copy, Debug, PartialEq, Eq, Structural)]
pub enum MetricKind {
    Count,
    Distribution,
    Gauge,
    Histogram,
    Sets,
    Timing,
}

pub open spec fn kind_bytes(k: MetricKind) -> Seq<u8> {
    match k {
        MetricKind::Count => seq![0x63u8],
        MetricKind::Distribution => seq![0x64u8],
        MetricKind::Gauge => seq![0x67u8],
        MetricKind::Histogram => seq![0x68u8],
        MetricKind::Sets => seq![0x73u8],
        MetricKind::Timing => seq![0x6du8, 0x73u8],
    }
}

/// A decoded metric datagram. Values and the sample rate are numeral
/// texts.
#[derive(Clone, Debug, PartialEq, Eq)]
pub struct Metric {
    pub name: Vec<u8>,
    pub values: Vec<Vec<u8>>,
    pub kind: MetricKind,
    pub sample_rate: Option<Vec<u8>>,
    pub tags: Option<Vec<Vec<u8>>>,
    pub container_id: Option<Vec<u8>>,
}

/// A decoded event datagram. The title and text lengths are carried
/// verbatim, never recomputed from the strings.
#[derive(Clone, Debug, PartialEq, Eq)]
pub struct Event {
    pub title_length: i32,
    pub text_length: i32,
    pub title: Vec<u8>,
    pub text: Vec<u8>,
    pub timestamp: Option<u32>,
    pub hostname: Option<Vec<u8>>,
    pub aggregation_key: Option<Vec<u8>>,
    pub priority: Option<Vec<u8>>,
    pub source: Option<Vec<u8>>,
    pub event_type: Option<Vec<u8>>,
    pub tags: Option<Vec<Vec<u8>>>,
    pub container_id: Option<Vec<u8>>,
}

/// A decoded service-check datagram. The status is a single digit 0..=3.
#[derive(Clone, Debug, PartialEq, Eq)]
pub struct ServiceCheck {
    pub name: Vec<u8>,
    pub status: i32,
    pub timestamp: Option<u32>,
    pub hostname: Option<Vec<u8>>,
    pub tags: Option<Vec<Vec<u8>>>,
    pub message: Option<Vec<u8>>,
    pub container_id: Option<Vec<u8>>,
}

#[derive(Clone, Debug, PartialEq, Eq)]
pub enum Datagram {
    Metric(Metric),
    Event(Event),
    ServiceCheck(ServiceCheck),
}

#[verifier::ext_equal]
pub ghost struct MetricV {
    pub name: Seq<u8>,
    pub values: Seq<Seq<u8>>,
    pub kind: MetricKind,
    pub sample_rate: Option<Seq<u8>>,
    pub tags: Option<Seq<Seq<u8>>>,
    pub container_id: Option<Seq<u8>>,
}

#[verifier::ext_equal]
pub ghost struct EventV {
    pub title_length: int,
    pub text_length: int,
    pub title: Seq<u8>,
    pub text: Seq<u8>,
    pub timestamp: Option<u32>,
    pub hostname: Option<Seq<u8>>,
    pub aggregation_key: Option<Seq<u8>>,
    pub priority: Option<Seq<u8>>,
    pub source: Option<Seq<u8>>,
    pub event_type: Option<Seq<u8>>,
    pub tags: Option<Seq<Seq<u8>>>,
    pub container_id: Option<Seq<u8>>,
}

#[verifier::ext_equal]
pub ghost struct ServiceCheckV {
    pub name: Seq<u8>,
    pub status: int,
    pub timestamp: Option<u32>,
    pub hostname: Option<Seq<u8>>,
    pub tags: Option<Seq<Seq<u8>>>,
    pub message: Option<Seq<u8>>,
    pub container_id: Option<Seq<u8>>,
}

#[verifier::ext_equal]
pub ghost enum DatagramV {
    Metric(MetricV),
    Event(EventV),
    ServiceCheck(ServiceCheckV),
}

pub open spec fn ov(o: Option<Vec<u8>>) -> Option<Seq<u8>> {
    match o {
        Some(v) => Some(v@),
        None => None,
    }
}

pub open spec fn ovv(o: Option<Vec<Vec<u8>>>) -> Option<Seq<Seq<u8>>> {
    match o {
        Some(v) => Some(v@.map_values(|p: Vec<u8>| p@)),
        None => None,
    }
}

impl View for Metric {
    type V = MetricV;

    open spec fn view(&self) -> MetricV {
        MetricV {
            name: self.name@,
            values: self.values@.map_values(|p: Vec<u8>| p@),
            kind: self.kind,
            sample_rate: ov(self.sample_rate),
            tags: ovv(self.tags),
            container_id: ov(self.container_id),
        }
    }
}

impl View for Event {
    type V = EventV;

    open spec fn view(&self) -> EventV {
        EventV {
            title_length: self.title_length as int,
            text_length: self.text_length as int,
            title: self.title@,
            text: self.text@,
            timestamp: self.timestamp,
            hostname: ov(self.hostname),
            aggregation_key: ov(self.aggregation_key),
            priority: ov(self.priority),
            source: ov(self.source),
            event_type: ov(self.event_type),
            tags: ovv(self.tags),
            container_id: ov(self.container_id),
        }
    }
}

impl View for ServiceCheck {
    type V = ServiceCheckV;

    open spec fn view(&self) -> ServiceCheckV {
        ServiceCheckV {
            name: self.name@,
            status: self.status as int,
            timestamp: self.timestamp,
            hostname: ov(self.hostname),
            tags: ovv(self.tags),
            message: ov(self.message),
            container_id: ov(self.container_id),
        }
    }
}

impl View for Datagram {
    type V = DatagramV;

    open spec fn view(&self) -> DatagramV {
        match self {
            Datagram::Metric(m) => DatagramV::Metric(m@),
            Datagram::Event(e) => DatagramV::Event(e@),
            Datagram::ServiceCheck(s) => DatagramV::ServiceCheck(s@),
        }
    }
}

// ------------------------------------------------------------------
// Specification of the encoder: each datagram is a '|'-join of sections.
// ------------------------------------------------------------------
/// `@RATE` section of a metric.
pub open spec fn sr_segs(o: Option<Seq<u8>>) -> Seq<Seq<u8>> {
    match o {
        Some(sr) => seq![seq![0x40u8] + sr],
        None => seq![],
    }
}

/// `#tag1,tag2` section.
pub open spec fn tag_segs(o: Option<Seq<Seq<u8>>>) -> Seq<Seq<u8>> {
    match o {
        Some(ts) => seq![seq![0x23u8] + join_with(ts, 0x2cu8)],
        None => seq![],
    }
}

/// A `x:VALUE` section for sigil byte `x`.
pub open spec fn str_segs(sig: u8, o: Option<Seq<u8>>) -> Seq<Seq<u8>> {
    match o {
        Some(v) => seq![seq![sig, 0x3au8] + v],
        None => seq![],
    }
}

/// `d:TIMESTAMP` section.
pub open spec fn ts_segs(o: Option<u32>) -> Seq<Seq<u8>> {
    match o {
        Some(t) => seq![seq![0x64u8, 0x3au8] + dec_of(t as nat)],
        None => seq![],
    }
}

pub open spec fn metric_segments(m: MetricV) -> Seq<Seq<u8>> {
    seq![join_with(seq![m.name] + m.values, 0x3au8), kind_bytes(m.kind)] + sr_segs(m.sample_rate)
        + tag_segs(m.tags) + str_segs(0x63u8, m.container_id)
}

pub open spec fn enc_metric(m: MetricV) -> Seq<u8> {
    join_with(metric_segments(m), 0x7cu8)
}

/// First section of an event: `_e{TLEN,XLEN}:TITLE`.
pub open spec fn event_head(e: EventV) -> Seq<u8> {
    seq![0x5fu8, 0x65u8, 0x7bu8] + dec_of_i32(e.title_length) + seq![0x2cu8] + dec_of_i32(e.text_length)
        + seq![0x7du8, 0x3au8] + e.title
}

pub open spec fn event_segments(e: EventV) -> Seq<Seq<u8>> {
    seq![event_head(e), e.text] + ts_segs(e.timestamp) + str_segs(0x68u8, e.hostname) + str_segs(
        0x6bu8,
        e.aggregation_key,
    ) + str_segs(0x70u8, e.priority) + str_segs(0x73u8, e.source) + str_segs(0x74u8, e.event_type)
        + tag_segs(e.tags) + str_segs(0x63u8, e.container_id)
}

pub open spec fn enc_event(e: EventV) -> Seq<u8> {
    join_with(event_segments(e), 0x7cu8)
}

pub open spec fn sc_segments(s: ServiceCheckV) -> Seq<Seq<u8>> {
    seq![seq![0x5fu8, 0x73u8, 0x63u8], s.name, dec_of_i32(s.status)] + ts_segs(s.timestamp) + str_segs(
        0x68u8,
        s.hostname,
    ) + tag_segs(s.tags) + str_segs(0x6du8, s.message) + str_segs(0x63u8, s.container_id)
}

pub open spec fn enc_service_check(s: ServiceCheckV) -> Seq<u8> {
    join_with(sc_segments(s), 0x7cu8)
}

pub open spec fn enc_datagram(d: DatagramV) -> Seq<u8> {
    match d {
        DatagramV::Metric(m) => enc_metric(m),
        DatagramV::Event(e) => enc_event(e),
        DatagramV::ServiceCheck(s) => enc_service_check(s),
    }
}

// ------------------------------------------------------------------
// Executable encoder.
// ------------------------------------------------------------------
/// Copy a byte slice into an owned vector.
fn to_vec(s: &[u8]) -> (r: Vec<u8>)
    ensures
        r@ == s@,
{
    let mut r: Vec<u8> = Vec::new();
    push_all(&mut r, s);
    proof {
        assert(Seq::<u8>::empty() + s@ =~= s@);
    }
    r
}

fn kind_to_vec(k: MetricKind) -> (r: Vec<u8>)
    ensures
        r@ == kind_bytes(k),
{
    let mut r: Vec<u8> = Vec::new();
    match k {
        MetricKind::Count => r.push(0x63u8),
        MetricKind::Distribution => r.push(0x64u8),
        MetricKind::Gauge => r.push(0x67u8),
        MetricKind::Histogram => r.push(0x68u8),
        MetricKind::Sets => r.push(0x73u8),
        MetricKind::Timing => {
            r.push(0x6du8);
            r.push(0x73u8);
        },
    }
    proof {
        assert(r@ =~= kind_bytes(k));
    }
    r
}

/// Build a `x:VALUE` section.
fn sig_section(sig: u8, v: &[u8]) -> (r: Vec<u8>)
    ensures
        r@ == seq![sig, 0x3au8] + v@,
{
    let mut r: Vec<u8> = Vec::new();
    r.push(sig);
    r.push(0x3au8);
    push_all(&mut r, v);
    proof {
        assert(r@ =~= seq![sig, 0x3au8] + v@);
    }
    r
}

/// Build a `#tags` or `@rate` section with a one-byte sigil.
fn one_sig_section(sig: u8, v: &[u8]) -> (r: Vec<u8>)
    ensures
        r@ == seq![sig] + v@,
{
    let mut r: Vec<u8> = Vec::new();
    r.push(sig);
    push_all(&mut r, v);
    proof {
        assert(r@ =~= seq![sig] + v@);
    }
    r
}

/// Join tag texts with commas.
fn tags_joined(ts: &Vec<Vec<u8>>) -> (r: Vec<u8>)
    ensures
        r@ == join_with(ts@.map_values(|p: Vec<u8>| p@), 0x2cu8),
{
    join_bytes(ts, 0x2cu8)
}

/// Append the `x:VALUE` section for an optional field.
fn push_str_seg(segs: &mut Vec<Vec<u8>>, sig: u8, o: &Option<Vec<u8>>)
    ensures
        final(segs)@.map_values(|p: Vec<u8>| p@) == old(segs)@.map_values(|p: Vec<u8>| p@)
            + str_segs(sig, ov(*o)),
{
    let ghost before = segs@.map_values(|p: Vec<u8>| p@);
    match o {
        Some(v) => {
            segs.push(sig_section(sig, v.as_slice()));
            proof {
                assert(segs@.map_values(|p: Vec<u8>| p@) =~= before + str_segs(sig, ov(*o)));
            }
        },
        None => {
            proof {
                assert(segs@.map_values(|p: Vec<u8>| p@) =~= before + str_segs(sig, ov(*o)));
            }
        },
    }
}

/// Append the `@RATE` section for an optional sample rate.
fn push_sr_seg(segs: &mut Vec<Vec<u8>>, o: &Option<Vec<u8>>)
    ensures
        final(segs)@.map_values(|p: Vec<u8>| p@) == old(segs)@.map_values(|p: Vec<u8>| p@)
            + sr_segs(ov(*o)),
{
    let ghost before = segs@.map_values(|p: Vec<u8>| p@);
    match o {
        Some(v) => {
            segs.push(one_sig_section(0x40u8, v.as_slice()));
            proof {
                assert(segs@.map_values(|p: Vec<u8>| p@) =~= before + sr_segs(ov(*o)));
            }
        },
        None => {
            proof {
                assert(segs@.map_values(|p: Vec<u8>| p@) =~= before + sr_segs(ov(*o)));
            }
        },
    }
}

/// Append the `#tags` section for an optional tag list.
fn push_tag_seg(segs: &mut Vec<Vec<u8>>, o: &Option<Vec<Vec<u8>>>)
    ensures
        final(segs)@.map_values(|p: Vec<u8>| p@) == old(segs)@.map_values(|p: Vec<u8>| p@)
            + tag_segs(ovv(*o)),
{
    let ghost before = segs@.map_values(|p: Vec<u8>| p@);
    match o {
        Some(ts) => {
            let joined = tags_joined(ts);
            segs.push(one_sig_section(0x23u8, joined.as_slice()));
            proof {
                assert(segs@.map_values(|p: Vec<u8>| p@) =~= before + tag_segs(ovv(*o)));
            }
        },
        None => {
            proof {
                assert(segs@.map_values(|p: Vec<u8>| p@) =~= before + tag_segs(ovv(*o)));
            }
        },
    }
}

/// Append the `d:TIMESTAMP` section for an optional timestamp.
fn push_ts_seg(segs: &mut Vec<Vec<u8>>, o: &Option<u32>)
    ensures
        final(segs)@.map_values(|p: Vec<u8>| p@) == old(segs)@.map_values(|p: Vec<u8>| p@)
            + ts_segs(*o),
{
    let ghost before = segs@.map_values(|p: Vec<u8>| p@);
    match o {
        Some(t) => {
            let digits = crate::text::format_u32(*t);
            segs.push(sig_section(0x64u8, digits.as_slice()));
            proof {
                assert(seq![0x64u8, 0x3au8] + digits@ =~= seq![0x64u8, 0x3au8] + dec_of(
                    *t as nat,
                ));
                assert(segs@.map_values(|p: Vec<u8>| p@) =~= before + ts_segs(*o));
            }
        },
        None => {
            proof {
                assert(segs@.map_values(|p: Vec<u8>| p@) =~= before + ts_segs(*o));
            }
        },
    }
}

/// Emit a metric datagram: `NAME:VAL(:VAL)*|TYPE` then the optional
/// sections in the fixed order `@`, `#`, `c:`. A sample rate that is not
/// a floating-point numeral fails the metric, and nothing is emitted.
pub fn encode_metric(m: &Metric) -> (r: Result<Vec<u8>, CodecError>)
    ensures
        r is Ok <==> wf_opt_float(m@.sample_rate),
        r matches Ok(v) ==> v@ == enc_metric(m@),
        r matches Err(e) ==> e == CodecError::InvalidProtocol,
{
    match &m.sample_rate {
        Some(sr) => {
            if !crate::text::is_float_text(sr.as_slice()) {
                return Err(invalid());
            }
        },
        None => {},
    }
    let ghost mv = m@;
    let mut headparts: Vec<Vec<u8>> = Vec::new();
    headparts.push(to_vec(m.name.as_slice()));
    let mut i: usize = 0;
    while i < m.values.len()
        invariant
            i <= m.values@.len(),
            headparts@.map_values(|p: Vec<u8>| p@) == seq![m.name@] + m.values@.map_values(
                |p: Vec<u8>| p@,
            ).take(i as int),
        decreases m.values@.len() - i,
    {
        let ghost before = headparts@.map_values(|p: Vec<u8>| p@);
        headparts.push(to_vec(m.values[i].as_slice()));
        proof {
            assert(headparts@.map_values(|p: Vec<u8>| p@) =~= before.push(m.values@[i as int]@));
            assert(seq![m.name@] + m.values@.map_values(|p: Vec<u8>| p@).take(i + 1) =~= before.push(
                m.values@[i as int]@,
            ));
        }
        i = i + 1;
    }
    proof {
        assert(m.values@.map_values(|p: Vec<u8>| p@).take(m.values@.len() as int)
            =~= m.values@.map_values(|p: Vec<u8>| p@));
        assert(headparts@.map_values(|p: Vec<u8>| p@) =~= seq![mv.name] + mv.values);
    }
    let head = join_bytes(&headparts, 0x3au8);

    let mut segs: Vec<Vec<u8>> = Vec::new();
    segs.push(head);
    segs.push(kind_to_vec(m.kind));
    proof {
        assert(segs@.map_values(|p: Vec<u8>| p@) =~= seq![
            join_with(seq![mv.name] + mv.values, 0x3au8),
            kind_bytes(mv.kind),
        ]);
    }
    push_sr_seg(&mut segs, &m.sample_rate);
    push_tag_seg(&mut segs, &m.tags);
    push_str_seg(&mut segs, 0x63u8, &m.container_id);
    proof {
        assert(segs@.map_values(|p: Vec<u8>| p@) == metric_segments(mv));
    }
    Ok(join_bytes(&segs, 0x7cu8))
}

/// Emit an event datagram: `_e{TLEN,XLEN}:TITLE|TEXT` then the optional
/// sections in the fixed order `d`, `h`, `k`, `p`, `s`, `t`, `#`, `c`.
pub fn encode_event(e: &Event) -> (r: Result<Vec<u8>, CodecError>)
    ensures
        r is Ok,
        r matches Ok(v) ==> v@ == enc_event(e@),
{
    let ghost ev = e@;
    let mut head: Vec<u8> = Vec::new();
    head.push(0x5fu8);
    head.push(0x65u8);
    head.push(0x7bu8);
    proof {
        assert(head@ =~= seq![0x5fu8, 0x65u8, 0x7bu8]);
    }
    let tl = crate::text::format_i32(e.title_length);
    push_all(&mut head, tl.as_slice());
    head.push(0x2cu8);
    let xl = crate::text::format_i32(e.text_length);
    push_all(&mut head, xl.as_slice());
    head.push(0x7du8);
    head.push(0x3au8);
    push_all(&mut head, e.title.as_slice());
    proof {
        assert(head@ =~= event_head(ev));
    }

    let mut segs: Vec<Vec<u8>> = Vec::new();
    segs.push(head);
    segs.push(to_vec(e.text.as_slice()));
    proof {
        assert(segs@.map_values(|p: Vec<u8>| p@) =~= seq![event_head(ev), ev.text]);
    }
    push_ts_seg(&mut segs, &e.timestamp);
    push_str_seg(&mut segs, 0x68u8, &e.hostname);
    push_str_seg(&mut segs, 0x6bu8, &e.aggregation_key);
    push_str_seg(&mut segs, 0x70u8, &e.priority);
    push_str_seg(&mut segs, 0x73u8, &e.source);
    push_str_seg(&mut segs, 0x74u8, &e.event_type);
    push_tag_seg(&mut segs, &e.tags);
    push_str_seg(&mut segs, 0x63u8, &e.container_id);
    proof {
        assert(segs@.map_values(|p: Vec<u8>| p@) == event_segments(ev));
    }
    Ok(join_bytes(&segs, 0x7cu8))
}

/// Emit a service-check datagram: `_sc|NAME|STATUS` then the optional
/// sections in the fixed order `d`, `h`, `#`, `m`, `c`.
pub fn encode_service_check(s: &ServiceCheck) -> (r: Result<Vec<u8>, CodecError>)
    ensures
        r is Ok,
        r matches Ok(v) ==> v@ == enc_service_check(s@),
{
    let ghost sv = s@;
    let mut lead: Vec<u8> = Vec::new();
    lead.push(0x5fu8);
    lead.push(0x73u8);
    lead.push(0x63u8);
    proof {
        assert(lead@ =~= seq![0x5fu8, 0x73u8, 0x63u8]);
    }
    let mut segs: Vec<Vec<u8>> = Vec::new();
    segs.push(lead);
    segs.push(to_vec(s.name.as_slice()));
    segs.push(crate::text::format_i32(s.status));
    proof {
        assert(segs@.map_values(|p: Vec<u8>| p@) =~= seq![
            seq![0x5fu8, 0x73u8, 0x63u8],
            sv.name,
            dec_of_i32(sv.status),
        ]);
    }
    push_ts_seg(&mut segs, &s.timestamp);
    push_str_seg(&mut segs, 0x68u8, &s.hostname);
    push_tag_seg(&mut segs, &s.tags);
    push_str_seg(&mut segs, 0x6du8, &s.message);
    push_str_seg(&mut segs, 0x63u8, &s.container_id);
    proof {
        assert(segs@.map_values(|p: Vec<u8>| p@) == sc_segments(sv));
    }
    Ok(join_bytes(&segs, 0x7cu8))
}

// ------------------------------------------------------------------
// Specification of the decoder.
// ------------------------------------------------------------------
/// The optional sections a metric may carry.
#[verifier::ext_equal]
pub ghost struct MetricOpts {
    pub sample_rate: Option<Seq<u8>>,
    pub tags: Option<Seq<Seq<u8>>>,
    pub container_id: Option<Seq<u8>>,
}

/// One optional metric section: `@` sample rate (a float numeral), `#`
/// tags, `c:` container id (the `:` is required); a section with an
/// unknown sigil is ignored.
pub open spec fn metric_sec_step(acc: MetricOpts, sec: Seq<u8>) -> Option<MetricOpts> {
    if sec.len() > 0 && sec[0] == 0x40 {
        if float_text(sec.skip(1)) {
            Some(MetricOpts { sample_rate: Some(sec.skip(1)), ..acc })
        } else {
            None
        }
    } else if sec.len() > 0 && sec[0] == 0x23 {
        Some(MetricOpts { tags: Some(split_at(sec.skip(1), 0x2cu8)), ..acc })
    } else if sec.len() > 0 && sec[0] == 0x63 {
        if sec.len() >= 2 && sec[1] == 0x3a {
            Some(MetricOpts { container_id: Some(sec.skip(2)), ..acc })
        } else {
            None
        }
    } else {
        Some(acc)
    }
}

pub open spec fn fold_metric_secs(acc: MetricOpts, secs: Seq<Seq<u8>>) -> Option<MetricOpts>
    decreases secs.len(),
{
    if secs.len() == 0 {
        Some(acc)
    } else {
        match metric_sec_step(acc, secs[0]) {
            Some(a) => fold_metric_secs(a, secs.skip(1)),
            None => None,
        }
    }
}

pub open spec fn kind_of(s: Seq<u8>) -> Option<MetricKind> {
    if s.len() == 1 && s[0] == 0x63 {
        Some(MetricKind::Count)
    } else if s.len() == 1 && s[0] == 0x64 {
        Some(MetricKind::Distribution)
    } else if s.len() == 1 && s[0] == 0x67 {
        Some(MetricKind::Gauge)
    } else if s.len() == 1 && s[0] == 0x68 {
        Some(MetricKind::Histogram)
    } else if s.len() == 1 && s[0] == 0x73 {
        Some(MetricKind::Sets)
    } else if s.len() == 2 && s[0] == 0x6d && s[1] == 0x73 {
        Some(MetricKind::Timing)
    } else {
        None
    }
}

pub open spec fn all_float_texts(vs: Seq<Seq<u8>>) -> bool {
    forall|i: int| 0 <= i < vs.len() ==> float_text(#[trigger] vs[i])
}

/// Parse a metric datagram: `NAME:VAL(:VAL)*|TYPE('|'SECTION)*`. The
/// datagram must be UTF-8.
pub open spec fn parse_metric(d: Seq<u8>) -> Option<MetricV> {
    let segs = split_at(d, 0x7cu8);
    if !is_utf8(d) {
        None
    } else if segs.len() < 2 {
        None
    } else {
        let head = split_at(segs[0], 0x3au8);
        if head.len() < 2 {
            None
        } else if !all_float_texts(head.skip(1)) {
            None
        } else {
            match kind_of(segs[1]) {
                Some(k) => match fold_metric_secs(
                    MetricOpts { sample_rate: None, tags: None, container_id: None },
                    segs.skip(2),
                ) {
                    Some(o) => Some(
                        MetricV {
                            name: head[0],
                            values: head.skip(1),
                            kind: k,
                            sample_rate: o.sample_rate,
                            tags: o.tags,
                            container_id: o.container_id,
                        },
                    ),
                    None => None,
                },
                None => None,
            }
        }
    }
}

/// The optional sections an event may carry.
#[verifier::ext_equal]
pub ghost struct EventOpts {
    pub timestamp: Option<u32>,
    pub hostname: Option<Seq<u8>>,
    pub aggregation_key: Option<Seq<u8>>,
    pub priority: Option<Seq<u8>>,
    pub source: Option<Seq<u8>>,
    pub event_type: Option<Seq<u8>>,
    pub tags: Option<Seq<Seq<u8>>>,
    pub container_id: Option<Seq<u8>>,
}

/// One optional event section, dispatched on its sigil byte; each sigil
/// demands its `:`, and `d:` must carry an unsigned 32-bit numeral.
pub open spec fn event_sec_step(acc: EventOpts, sec: Seq<u8>) -> Option<EventOpts> {
    if sec.len() > 0 && sec[0] == 0x64 {
        if sec.len() >= 2 && sec[1] == 0x3a && unsigned_numeral(sec.skip(2), u32::MAX as nat) {
            Some(EventOpts { timestamp: Some(unsigned_numeral_val(sec.skip(2)) as u32), ..acc })
        } else {
            None
        }
    } else if sec.len() > 0 && sec[0] == 0x68 {
        if sec.len() >= 2 && sec[1] == 0x3a {
            Some(EventOpts { hostname: Some(sec.skip(2)), ..acc })
        } else {
            None
        }
    } else if sec.len() > 0 && sec[0] == 0x70 {
        if sec.len() >= 2 && sec[1] == 0x3a {
            Some(EventOpts { priority: Some(sec.skip(2)), ..acc })
        } else {
            None
        }
    } else if sec.len() > 0 && sec[0] == 0x73 {
        if sec.len() >= 2 && sec[1] == 0x3a {
            Some(EventOpts { source: Some(sec.skip(2)), ..acc })
        } else {
            None
        }
    } else if sec.len() > 0 && sec[0] == 0x74 {
        if sec.len() >= 2 && sec[1] == 0x3a {
            Some(EventOpts { event_type: Some(sec.skip(2)), ..acc })
        } else {
            None
        }
    } else if sec.len() > 0 && sec[0] == 0x6b {
        if sec.len() >= 2 && sec[1] == 0x3a {
            Some(EventOpts { aggregation_key: Some(sec.skip(2)), ..acc })
        } else {
            None
        }
    } else if sec.len() > 0 && sec[0] == 0x23 {
        Some(EventOpts { tags: Some(split_at(sec.skip(1), 0x2cu8)), ..acc })
    } else if sec.len() > 0 && sec[0] == 0x63 {
        if sec.len() >= 2 && sec[1] == 0x3a {
            Some(EventOpts { container_id: Some(sec.skip(2)), ..acc })
        } else {
            None
        }
    } else {
        Some(acc)
    }
}

pub open spec fn fold_event_secs(acc: EventOpts, secs: Seq<Seq<u8>>) -> Option<EventOpts>
    decreases secs.len(),
{
    if secs.len() == 0 {
        Some(acc)
    } else {
        match event_sec_step(acc, secs[0]) {
            Some(a) => fold_event_secs(a, secs.skip(1)),
            None => None,
        }
    }
}

pub open spec fn empty_event_opts() -> EventOpts {
    EventOpts {
        timestamp: None,
        hostname: None,
        aggregation_key: None,
        priority: None,
        source: None,
        event_type: None,
        tags: None,
        container_id: None,
    }
}

/// Parse an event datagram: `_e{TLEN,XLEN}:TITLE|TEXT('|'SECTION)*`. The
/// lengths are read verbatim, never recomputed from the strings.
pub open spec fn parse_event(d: Seq<u8>) -> Option<EventV> {
    let segs = split_at(d, 0x7cu8);
    if !is_utf8(d) {
        None
    } else if segs.len() < 2 {
        None
    } else if segs[1].len() == 0 {
        None
    } else {
        let h = segs[0];
        let ci = crate::segments::first_ix(h, 0x3au8);
        if ci < 0 {
            None
        } else {
            let hdr = h.take(ci);
            let title = h.skip(ci + 1);
            if hdr.len() < 4 || hdr[0] != 0x5f || hdr[1] != 0x65 || hdr[2] != 0x7b || hdr[hdr.len()
                - 1] != 0x7d {
                None
            } else {
                let lens = split_at(hdr.subrange(3, hdr.len() - 1), 0x2cu8);
                if lens.len() != 2 {
                    None
                } else if !i32_numeral(lens[0]) || !i32_numeral(lens[1]) {
                    None
                } else {
                    match fold_event_secs(empty_event_opts(), segs.skip(2)) {
                        Some(o) => Some(
                            EventV {
                                title_length: i32_numeral_val(lens[0]),
                                text_length: i32_numeral_val(lens[1]),
                                title: title,
                                text: segs[1],
                                timestamp: o.timestamp,
                                hostname: o.hostname,
                                aggregation_key: o.aggregation_key,
                                priority: o.priority,
                                source: o.source,
                                event_type: o.event_type,
                                tags: o.tags,
                                container_id: o.container_id,
                            },
                        ),
                        None => None,
                    }
                }
            }
        }
    }
}

/// The optional sections a service check may carry.
#[verifier::ext_equal]
pub ghost struct ScOpts {
    pub timestamp: Option<u32>,
    pub hostname: Option<Seq<u8>>,
    pub tags: Option<Seq<Seq<u8>>>,
    pub message: Option<Seq<u8>>,
    pub container_id: Option<Seq<u8>>,
}

/// One optional service-check section, dispatched on its sigil byte;
/// each sigil but `#` demands its `:`.
pub open spec fn sc_sec_step(acc: ScOpts, sec: Seq<u8>) -> Option<ScOpts> {
    if sec.len() > 0 && sec[0] == 0x64 {
        if sec.len() >= 2 && sec[1] == 0x3a && unsigned_numeral(sec.skip(2), u32::MAX as nat) {
            Some(ScOpts { timestamp: Some(unsigned_numeral_val(sec.skip(2)) as u32), ..acc })
        } else {
            None
        }
    } else if sec.len() > 0 && sec[0] == 0x68 {
        if sec.len() >= 2 && sec[1] == 0x3a {
            Some(ScOpts { hostname: Some(sec.skip(2)), ..acc })
        } else {
            None
        }
    } else if sec.len() > 0 && sec[0] == 0x23 {
        Some(ScOpts { tags: Some(split_at(sec.skip(1), 0x2cu8)), ..acc })
    } else if sec.len() > 0 && sec[0] == 0x6d {
        if sec.len() >= 2 && sec[1] == 0x3a {
            Some(ScOpts { message: Some(sec.skip(2)), ..acc })
        } else {
            None
        }
    } else if sec.len() > 0 && sec[0] == 0x63 {
        if sec.len() >= 2 && sec[1] == 0x3a {
            Some(ScOpts { container_id: Some(sec.skip(2)), ..acc })
        } else {
            None
        }
    } else {
        Some(acc)
    }
}

pub open spec fn fold_sc_secs(acc: ScOpts, secs: Seq<Seq<u8>>) -> Option<ScOpts>
    decreases secs.len(),
{
    if secs.len() == 0 {
        Some(acc)
    } else {
        match sc_sec_step(acc, secs[0]) {
            Some(a) => fold_sc_secs(a, secs.skip(1)),
            None => None,
        }
    }
}

pub open spec fn empty_sc_opts() -> ScOpts {
    ScOpts { timestamp: None, hostname: None, tags: None, message: None, container_id: None }
}

/// Parse a service check: `_sc|NAME|STATUS('|'SECTION)*`; the status is a
/// single digit 0..=3.
pub open spec fn parse_service_check(d: Seq<u8>) -> Option<ServiceCheckV> {
    let segs = split_at(d, 0x7cu8);
    if !is_utf8(d) {
        None
    } else if segs.len() < 3 {
        None
    } else {
        let st = segs[2];
        if st.len() != 1 || !(0x30 <= st[0] <= 0x33) {
            None
        } else {
            match fold_sc_secs(empty_sc_opts(), segs.skip(3)) {
                Some(o) => Some(
                    ServiceCheckV {
                        name: segs[1],
                        status: st[0] - 0x30,
                        timestamp: o.timestamp,
                        hostname: o.hostname,
                        tags: o.tags,
                        message: o.message,
                        container_id: o.container_id,
                    },
                ),
                None => None,
            }
        }
    }
}

/// Parse any datagram: it must be UTF-8; the first two bytes pick the
/// shape (`_e` event, `_s` service check, otherwise metric).
pub open spec fn parse_datagram(d: Seq<u8>) -> Option<DatagramV> {
    if d.len() < 2 {
        None
    } else if d[0] == 0x5f && d[1] == 0x65 {
        match parse_event(d) {
            Some(e) => Some(DatagramV::Event(e)),
            None => None,
        }
    } else if d[0] == 0x5f && d[1] == 0x73 {
        match parse_service_check(d) {
            Some(s) => Some(DatagramV::ServiceCheck(s)),
            None => None,
        }
    } else {
        match parse_metric(d) {
            Some(m) => Some(DatagramV::Metric(m)),
            None => None,
        }
    }
}

// ------------------------------------------------------------------
// Executable decoder.
// ------------------------------------------------------------------
/// Find the first occurrence of a byte.
fn find_byte(s: &[u8], b: u8) -> (r: Option<usize>)
    ensures
        match r {
            Some(i) => crate::segments::first_ix(s@, b) == i,
            None => crate::segments::first_ix(s@, b) < 0,
        },
{
    let mut i: usize = 0;
    while i < s.len()
        invariant
            i <= s@.len(),
            forall|j: int| 0 <= j < i ==> s@[j] != b,
        decreases s@.len() - i,
    {
        if s[i] == b {
            proof {
                crate::segments::lemma_first_ix_bounds(s@, b);
                let fi = crate::segments::first_ix(s@, b);
                if fi < 0 {
                    assert(s@[i as int] == b);
                    assert(s@.contains(b));
                }
                if fi < i {
                    assert(s@[fi] != b);
                }
                if fi > i {
                    assert(s@[i as int] != b);
                }
            }
            return Some(i);
        }
        i = i + 1;
    }
    proof {
        crate::segments::lemma_first_ix_bounds(s@, b);
        let fi = crate::segments::first_ix(s@, b);
        if fi >= 0 {
            assert(s@[fi] != b);
        }
    }
    None
}

/// Copy the tail of a slice from index `k`.
fn tail_vec(s: &[u8], k: usize) -> (r: Vec<u8>)
    requires
        k <= s@.len(),
    ensures
        r@ == s@.skip(k as int),
{
    let sub = vstd::slice::slice_subrange(s, k, s.len());
    let v = to_vec(sub);
    proof {
        assert(s@.subrange(k as int, s@.len() as int) =~= s@.skip(k as int));
    }
    v
}

/// Recognise a metric type segment.
fn parse_kind(s: &[u8]) -> (r: Option<MetricKind>)
    ensures
        r == kind_of(s@),
{
    if s.len() == 1 {
        let b = s[0];
        if b == 0x63 {
            Some(MetricKind::Count)
        } else if b == 0x64 {
            Some(MetricKind::Distribution)
        } else if b == 0x67 {
            Some(MetricKind::Gauge)
        } else if b == 0x68 {
            Some(MetricKind::Histogram)
        } else if b == 0x73 {
            Some(MetricKind::Sets)
        } else {
            None
        }
    } else if s.len() == 2 && s[0] == 0x6d && s[1] == 0x73 {
        Some(MetricKind::Timing)
    } else {
        None
    }
}

/// Decode a metric datagram, exactly as `parse_metric` describes.
#[verifier::loop_isolation(false)]
pub fn decode_metric(data: &[u8]) -> (r: Result<Metric, CodecError>)
    ensures
        r matches Ok(m) ==> parse_metric(data@) == Some(m@),
        r is Err <==> parse_metric(data@) is None,
        r matches Err(e) ==> e == CodecError::InvalidProtocol,
{
    if !crate::text::check_utf8(data) {
        return Err(invalid());
    }
    let ghost gsegs = split_at(data@, 0x7cu8);
    let segs = split_bytes(data, 0x7cu8);
    if segs.len() < 2 {
        return Err(invalid());
    }
    let ghost gshead = split_at(gsegs[0], 0x3au8);
    proof {
        assert(segs@[0]@ == gsegs[0]);
    }
    let mut head = split_bytes((&segs[0]).as_slice(), 0x3au8);
    if head.len() < 2 {
        return Err(invalid());
    }
    let mut i: usize = 1;
    while i < head.len()
        invariant
            1 <= i <= head@.len(),
            gshead == head@.map_values(|p: Vec<u8>| p@),
            forall|j: int| 1 <= j < i ==> float_text(#[trigger] gshead[j]),
        decreases head@.len() - i,
    {
        proof {
            assert(head@[i as int]@ == gshead[i as int]);
        }
        if !crate::text::is_float_text((&head[i]).as_slice()) {
            proof {
                assert(gshead.skip(1)[i - 1] == gshead[i as int]);
                assert(!all_float_texts(gshead.skip(1)));
            }
            return Err(invalid());
        }
        i = i + 1;
    }
    proof {
        assert forall|k: int| 0 <= k < gshead.skip(1).len() implies float_text(
            #[trigger] gshead.skip(1)[k],
        ) by {
            assert(gshead.skip(1)[k] == gshead[k + 1]);
        }
        assert(all_float_texts(gshead.skip(1)));
        assert(segs@[1]@ == gsegs[1]);
    }
    let kind = match parse_kind((&segs[1]).as_slice()) {
        Some(k) => k,
        None => {
            return Err(invalid());
        },
    };

    let ghost init = MetricOpts { sample_rate: None, tags: None, container_id: None };
    let mut sr: Option<Vec<u8>> = None;
    let mut tags: Option<Vec<Vec<u8>>> = None;
    let mut cid: Option<Vec<u8>> = None;
    let mut i: usize = 2;
    proof {
        assert(MetricOpts { sample_rate: ov(sr), tags: ovv(tags), container_id: ov(cid) }
            =~= init);
    }
    while i < segs.len()
        invariant
            2 <= i <= segs@.len(),
            gsegs == segs@.map_values(|p: Vec<u8>| p@),
            fold_metric_secs(init, gsegs.skip(2)) == fold_metric_secs(
                MetricOpts { sample_rate: ov(sr), tags: ovv(tags), container_id: ov(cid) },
                gsegs.skip(i as int),
            ),
        decreases segs@.len() - i,
    {
        let ghost cur = MetricOpts { sample_rate: ov(sr), tags: ovv(tags), container_id: ov(cid) };
        let ghost gsec = gsegs[i as int];
        proof {
            assert(segs@[i as int]@ == gsec);
            assert(gsegs.skip(i as int)[0] == gsec);
            assert(gsegs.skip(i as int).skip(1) =~= gsegs.skip(i + 1));
        }
        let sec = &segs[i];
        if sec.len() > 0 && sec[0] == 0x40 {
            let rest = vstd::slice::slice_subrange(sec.as_slice(), 1, sec.len());
            proof {
                assert(rest@ =~= gsec.skip(1));
            }
            if crate::text::is_float_text(rest) {
                sr = Some(to_vec(rest));
            } else {
                return Err(invalid());
            }
        } else if sec.len() > 0 && sec[0] == 0x23 {
            let rest = vstd::slice::slice_subrange(sec.as_slice(), 1, sec.len());
            proof {
                assert(rest@ =~= gsec.skip(1));
            }
            tags = Some(split_bytes(rest, 0x2cu8));
        } else if sec.len() > 0 && sec[0] == 0x63 {
            if sec.len() >= 2 && sec[1] == 0x3a {
                cid = Some(tail_vec(sec.as_slice(), 2));
            } else {
                return Err(invalid());
            }
        }
        proof {
            let cur2 = MetricOpts { sample_rate: ov(sr), tags: ovv(tags), container_id: ov(cid) };
            assert(metric_sec_step(cur, gsec) == Some(cur2)) by {
                assert(metric_sec_step(cur, gsec) matches Some(a) ==> a =~= cur2);
            }
        }
        i = i + 1;
    }
    proof {
        assert(gsegs.skip(gsegs.len() as int) =~= Seq::<Seq<u8>>::empty());
    }
    let name = to_vec((&head[0]).as_slice());
    let vals = head.split_off(1);
    let m = Metric {
        name: name,
        values: vals,
        kind: kind,
        sample_rate: sr,
        tags: tags,
        container_id: cid,
    };
    proof {
        assert(m@.values =~= gshead.skip(1));
        assert(m@ =~= parse_metric(data@)->0);
    }
    Ok(m)
}

/// Decode an event datagram, exactly as `parse_event` describes.
#[verifier::loop_isolation(false)]
pub fn decode_event(data: &[u8]) -> (r: Result<Event, CodecError>)
    ensures
        r matches Ok(e) ==> parse_event(data@) == Some(e@),
        r is Err <==> parse_event(data@) is None,
        r matches Err(e) ==> e == CodecError::InvalidProtocol,
{
    if !crate::text::check_utf8(data) {
        return Err(invalid());
    }
    let ghost gsegs = split_at(data@, 0x7cu8);
    let segs = split_bytes(data, 0x7cu8);
    if segs.len() < 2 {
        return Err(invalid());
    }
    if segs[1].len() == 0 {
        proof {
            assert(gsegs[1].len() == 0);
        }
        return Err(invalid());
    }
    let h = &segs[0];
    let ghost gh = gsegs[0];
    proof {
        assert(segs@[0]@ == gh);
    }
    let ci = match find_byte(h.as_slice(), 0x3au8) {
        Some(ci) => ci,
        None => {
            return Err(invalid());
        },
    };
    proof {
        crate::segments::lemma_first_ix_bounds(gh, 0x3au8);
    }
    let ghost ghdr = gh.take(ci as int);
    if ci < 4 {
        return Err(invalid());
    }
    if h[0] != 0x5f || h[1] != 0x65 || h[2] != 0x7b || h[ci - 1] != 0x7d {
        proof {
            assert(ghdr[0] == gh[0] && ghdr[1] == gh[1] && ghdr[2] == gh[2]);
            assert(ghdr[ghdr.len() - 1] == gh[ci - 1]);
        }
        return Err(invalid());
    }
    proof {
        assert(ghdr[0] == gh[0] && ghdr[1] == gh[1] && ghdr[2] == gh[2]);
        assert(ghdr[ghdr.len() - 1] == gh[ci - 1]);
    }
    let inner = vstd::slice::slice_subrange(h.as_slice(), 3, ci - 1);
    proof {
        assert(inner@ =~= ghdr.subrange(3, ghdr.len() - 1));
    }
    let ghost glens = split_at(ghdr.subrange(3, ghdr.len() - 1), 0x2cu8);
    let lens = split_bytes(inner, 0x2cu8);
    if lens.len() != 2 {
        return Err(invalid());
    }
    proof {
        assert(lens@[0]@ == glens[0] && lens@[1]@ == glens[1]);
    }
    let tl = match crate::text::parse_i32((&lens[0]).as_slice()) {
        Some(v) => v,
        None => {
            return Err(invalid());
        },
    };
    let xl = match crate::text::parse_i32((&lens[1]).as_slice()) {
        Some(v) => v,
        None => {
            return Err(invalid());
        },
    };
    let hlen = h.len();
    proof {
        crate::segments::lemma_first_ix_bounds(gh, 0x3au8);
        assert(ci < hlen);
    }
    let title = tail_vec(h.as_slice(), ci + 1);
    let text = to_vec((&segs[1]).as_slice());
    proof {
        assert(segs@[1]@ == gsegs[1]);
    }

    let ghost init = empty_event_opts();
    let mut ts: Option<u32> = None;
    let mut hostname: Option<Vec<u8>> = None;
    let mut agg: Option<Vec<u8>> = None;
    let mut prio: Option<Vec<u8>> = None;
    let mut src: Option<Vec<u8>> = None;
    let mut etyp: Option<Vec<u8>> = None;
    let mut tags: Option<Vec<Vec<u8>>> = None;
    let mut cid: Option<Vec<u8>> = None;
    let mut i: usize = 2;
    proof {
        assert(EventOpts {
            timestamp: ts,
            hostname: ov(hostname),
            aggregation_key: ov(agg),
            priority: ov(prio),
            source: ov(src),
            event_type: ov(etyp),
            tags: ovv(tags),
            container_id: ov(cid),
        } =~= init);
    }
    while i < segs.len()
        invariant
            2 <= i <= segs@.len(),
            fold_event_secs(init, gsegs.skip(2)) == fold_event_secs(
                EventOpts {
                    timestamp: ts,
                    hostname: ov(hostname),
                    aggregation_key: ov(agg),
                    priority: ov(prio),
                    source: ov(src),
                    event_type: ov(etyp),
                    tags: ovv(tags),
                    container_id: ov(cid),
                },
                gsegs.skip(i as int),
            ),
        decreases segs@.len() - i,
    {
        let ghost cur = EventOpts {
            timestamp: ts,
            hostname: ov(hostname),
            aggregation_key: ov(agg),
            priority: ov(prio),
            source: ov(src),
            event_type: ov(etyp),
            tags: ovv(tags),
            container_id: ov(cid),
        };
        let ghost gsec = gsegs[i as int];
        proof {
            assert(segs@[i as int]@ == gsec);
            assert(gsegs.skip(i as int)[0] == gsec);
            assert(gsegs.skip(i as int).skip(1) =~= gsegs.skip(i + 1));
        }
        let sec = &segs[i];
        if sec.len() > 0 && sec[0] == 0x64 {
            if sec.len() < 2 || sec[1] != 0x3a {
                return Err(invalid());
            }
            let rest = vstd::slice::slice_subrange(sec.as_slice(), 2, sec.len());
            proof {
                assert(rest@ =~= gsec.skip(2));
            }
            match crate::text::parse_u32(rest) {
                Some(v) => {
                    ts = Some(v);
                },
                None => {
                    return Err(invalid());
                },
            }
        } else if sec.len() > 0 && sec[0] == 0x68 {
            if sec.len() < 2 || sec[1] != 0x3a {
                return Err(invalid());
            }
            hostname = Some(tail_vec(sec.as_slice(), 2));
        } else if sec.len() > 0 && sec[0] == 0x70 {
            if sec.len() < 2 || sec[1] != 0x3a {
                return Err(invalid());
            }
            prio = Some(tail_vec(sec.as_slice(), 2));
        } else if sec.len() > 0 && sec[0] == 0x73 {
            if sec.len() < 2 || sec[1] != 0x3a {
                return Err(invalid());
            }
            src = Some(tail_vec(sec.as_slice(), 2));
        } else if sec.len() > 0 && sec[0] == 0x74 {
            if sec.len() < 2 || sec[1] != 0x3a {
                return Err(invalid());
            }
            etyp = Some(tail_vec(sec.as_slice(), 2));
        } else if sec.len() > 0 && sec[0] == 0x6b {
            if sec.len() < 2 || sec[1] != 0x3a {
                return Err(invalid());
            }
            agg = Some(tail_vec(sec.as_slice(), 2));
        } else if sec.len() > 0 && sec[0] == 0x23 {
            let rest = vstd::slice::slice_subrange(sec.as_slice(), 1, sec.len());
            proof {
                assert(rest@ =~= gsec.skip(1));
            }
            tags = Some(split_bytes(rest, 0x2cu8));
        } else if sec.len() > 0 && sec[0] == 0x63 {
            if sec.len() < 2 || sec[1] != 0x3a {
                return Err(invalid());
            }
            cid = Some(tail_vec(sec.as_slice(), 2));
        }
        proof {
            let cur2 = EventOpts {
                timestamp: ts,
                hostname: ov(hostname),
                aggregation_key: ov(agg),
                priority: ov(prio),
                source: ov(src),
                event_type: ov(etyp),
                tags: ovv(tags),
                container_id: ov(cid),
            };
            assert(event_sec_step(cur, gsec) == Some(cur2)) by {
                assert(event_sec_step(cur, gsec) matches Some(a) ==> a =~= cur2);
            }
        }
        i = i + 1;
    }
    proof {
        assert(gsegs.skip(gsegs.len() as int) =~= Seq::<Seq<u8>>::empty());
    }
    let e = Event {
        title_length: tl,
        text_length: xl,
        title: title,
        text: text,
        timestamp: ts,
        hostname: hostname,
        aggregation_key: agg,
        priority: prio,
        source: src,
        event_type: etyp,
        tags: tags,
        container_id: cid,
    };
    proof {
        assert(e@ =~= parse_event(data@)->0);
    }
    Ok(e)
}

/// Decode a service-check datagram, exactly as `parse_service_check`
/// describes.
#[verifier::loop_isolation(false)]
pub fn decode_service_check(data: &[u8]) -> (r: Result<ServiceCheck, CodecError>)
    ensures
        r matches Ok(s) ==> parse_service_check(data@) == Some(s@),
        r is Err <==> parse_service_check(data@) is None,
        r matches Err(e) ==> e == CodecError::InvalidProtocol,
{
    if !crate::text::check_utf8(data) {
        return Err(invalid());
    }
    let ghost gsegs = split_at(data@, 0x7cu8);
    let segs = split_bytes(data, 0x7cu8);
    if segs.len() < 3 {
        return Err(invalid());
    }
    let st = &segs[2];
    proof {
        assert(segs@[2]@ == gsegs[2]);
    }
    if st.len() != 1 {
        return Err(invalid());
    }
    let b = st[0];
    if b < 0x30 || b > 0x33 {
        return Err(invalid());
    }
    let status: i32 = (b - 0x30) as i32;
    let name = to_vec((&segs[1]).as_slice());
    proof {
        assert(segs@[1]@ == gsegs[1]);
    }

    let ghost init = empty_sc_opts();
    let mut ts: Option<u32> = None;
    let mut hostname: Option<Vec<u8>> = None;
    let mut tags: Option<Vec<Vec<u8>>> = None;
    let mut message: Option<Vec<u8>> = None;
    let mut cid: Option<Vec<u8>> = None;
    let mut i: usize = 3;
    proof {
        assert(ScOpts {
            timestamp: ts,
            hostname: ov(hostname),
            tags: ovv(tags),
            message: ov(message),
            container_id: ov(cid),
        } =~= init);
    }
    while i < segs.len()
        invariant
            3 <= i <= segs@.len(),
            fold_sc_secs(init, gsegs.skip(3)) == fold_sc_secs(
                ScOpts {
                    timestamp: ts,
                    hostname: ov(hostname),
                    tags: ovv(tags),
                    message: ov(message),
                    container_id: ov(cid),
                },
                gsegs.skip(i as int),
            ),
        decreases segs@.len() - i,
    {
        let ghost cur = ScOpts {
            timestamp: ts,
            hostname: ov(hostname),
            tags: ovv(tags),
            message: ov(message),
            container_id: ov(cid),
        };
        let ghost gsec = gsegs[i as int];
        proof {
            assert(segs@[i as int]@ == gsec);
            assert(gsegs.skip(i as int)[0] == gsec);
            assert(gsegs.skip(i as int).skip(1) =~= gsegs.skip(i + 1));
        }
        let sec = &segs[i];
        if sec.len() > 0 && sec[0] == 0x64 {
            if sec.len() < 2 || sec[1] != 0x3a {
                return Err(invalid());
            }
            let rest = vstd::slice::slice_subrange(sec.as_slice(), 2, sec.len());
            proof {
                assert(rest@ =~= gsec.skip(2));
            }
            match crate::text::parse_u32(rest) {
                Some(v) => {
                    ts = Some(v);
                },
                None => {
                    return Err(invalid());
                },
            }
        } else if sec.len() > 0 && sec[0] == 0x68 {
            if sec.len() < 2 || sec[1] != 0x3a {
                return Err(invalid());
            }
            hostname = Some(tail_vec(sec.as_slice(), 2));
        } else if sec.len() > 0 && sec[0] == 0x23 {
            let rest = vstd::slice::slice_subrange(sec.as_slice(), 1, sec.len());
            proof {
                assert(rest@ =~= gsec.skip(1));
            }
            tags = Some(split_bytes(rest, 0x2cu8));
        } else if sec.len() > 0 && sec[0] == 0x6d {
            if sec.len() < 2 || sec[1] != 0x3a {
                return Err(invalid());
            }
            message = Some(tail_vec(sec.as_slice(), 2));
        } else if sec.len() > 0 && sec[0] == 0x63 {
            if sec.len() < 2 || sec[1] != 0x3a {
                return Err(invalid());
            }
            cid = Some(tail_vec(sec.as_slice(), 2));
        }
        proof {
            let cur2 = ScOpts {
                timestamp: ts,
                hostname: ov(hostname),
                tags: ovv(tags),
                message: ov(message),
                container_id: ov(cid),
            };
            assert(sc_sec_step(cur, gsec) == Some(cur2)) by {
                assert(sc_sec_step(cur, gsec) matches Some(a) ==> a =~= cur2);
            }
        }
        i = i + 1;
    }
    proof {
        assert(gsegs.skip(gsegs.len() as int) =~= Seq::<Seq<u8>>::empty());
    }
    let s = ServiceCheck {
        name: name,
        status: status,
        timestamp: ts,
        hostname: hostname,
        tags: tags,
        message: message,
        container_id: cid,
    };
    proof {
        assert(s@ =~= parse_service_check(data@)->0);
    }
    Ok(s)
}

/// Decode any datagram. The whole datagram must be UTF-8; the first two
/// bytes pick the shape.
pub fn decode(data: &[u8], _ingest_ns: u64) -> (r: Result<Datagram, CodecError>)
    ensures
        r matches Ok(dg) ==> parse_datagram(data@) == Some(dg@),
        r is Err <==> parse_datagram(data@) is None,
        r matches Err(e) ==> e == CodecError::InvalidProtocol,
{
    if data.len() < 2 {
        return Err(invalid());
    }
    if data[0] == 0x5f && data[1] == 0x65 {
        match decode_event(data) {
            Ok(e) => Ok(Datagram::Event(e)),
            Err(e) => Err(e),
        }
    } else if data[0] == 0x5f && data[1] == 0x73 {
        match decode_service_check(data) {
            Ok(s) => Ok(Datagram::ServiceCheck(s)),
            Err(e) => Err(e),
        }
    } else {
        match decode_metric(data) {
            Ok(m) => Ok(Datagram::Metric(m)),
            Err(e) => Err(e),
        }
    }
}

/// Extract `data[start..end]` when in bounds and valid UTF-8, as the
/// decoder's slicing demands.
pub fn substr<'a>(data: &'a [u8], start: usize, end: usize) -> (r: Result<
    &'a [u8],
    CodecError,
>)
    ensures
        r matches Ok(v) ==> start <= end <= data@.len() && is_utf8(
            data@.subrange(start as int, end as int),
        ) && v@ == data@.subrange(start as int, end as int),
        r is Err <==> !(start <= end <= data@.len() && is_utf8(
            data@.subrange(start as int, end as int),
        )),
        r matches Err(e) ==> e == CodecError::InvalidProtocol,
{
    if start > end || end > data.len() {
        return Err(invalid());
    }
    let sub = vstd::slice::slice_subrange(data, start, end);
    if !crate::text::check_utf8(sub) {
        return Err(invalid());
    }
    Ok(sub)
}

/// The wire codec itself: stateless; `decode` and `encode` are the two
/// directions.
#[derive(Clone)]
pub struct DogStatsD {}

impl DogStatsD {
    /// The codec's registry name.
    pub fn name(&self) -> (r: &'static str)
        ensures
            r@ == "dogstatsd"@,
    {
        "dogstatsd"
    }

    /// Decode one datagram; a decoded value is always produced on success.
    pub fn decode(&self, data: &[u8], ingest_ns: u64) -> (r: Result<Option<Datagram>, CodecError>)
        ensures
            r matches Ok(o) ==> o matches Some(dg) && parse_datagram(data@) == Some(dg@),
            r is Err <==> parse_datagram(data@) is None,
            r matches Err(e) ==> e == CodecError::InvalidProtocol,
    {
        match decode(data, ingest_ns) {
            Ok(d) => Ok(Some(d)),
            Err(e) => Err(e),
        }
    }

    /// Encode a decoded record back to its datagram; only a metric whose
    /// sample rate is not a floating-point numeral is refused.
    pub fn encode(&self, data: &Datagram) -> (r: Result<Vec<u8>, CodecError>)
        ensures
            r is Ok <==> (match data@ {
                DatagramV::Metric(mv) => wf_opt_float(mv.sample_rate),
                _ => true,
            }),
            r matches Ok(v) ==> v@ == enc_datagram(data@),
            r matches Err(e) ==> e == CodecError::InvalidProtocol,
    {
        match data {
            Datagram::Metric(m) => encode_metric(m),
            Datagram::Event(e) => encode_event(e),
            Datagram::ServiceCheck(s) => encode_service_check(s),
        }
    }
}

// ------------------------------------------------------------------
// The round-trip law: encoding a well-formed record yields a datagram
// that decodes back to the record; hence every canonical datagram
// survives decode-then-encode byte for byte.
// ------------------------------------------------------------------
/// A field that may stand between `|` separators.
pub open spec fn wf_field(s: Seq<u8>) -> bool {
    !s.contains(0x7cu8) && is_utf8(s)
}

pub open spec fn wf_opt_field(o: Option<Seq<u8>>) -> bool {
    match o {
        Some(v) => wf_field(v),
        None => true,
    }
}

/// Tags are joined with commas, so a tag may hold neither `,` nor `|`.
pub open spec fn wf_tags(o: Option<Seq<Seq<u8>>>) -> bool {
    match o {
        Some(ts) => ts.len() >= 1 && (forall|i: int|
            0 <= i < ts.len() ==> !(#[trigger] ts[i]).contains(0x2cu8) && !ts[i].contains(0x7cu8)
                && is_utf8(ts[i])),
        None => true,
    }
}

pub open spec fn wf_opt_float(o: Option<Seq<u8>>) -> bool {
    match o {
        Some(v) => float_text(v),
        None => true,
    }
}

/// A metric record the encoder can emit canonically.
pub open spec fn wf_metric(m: MetricV) -> bool {
    &&& !m.name.contains(0x3au8)
    &&& wf_field(m.name)
    &&& !(m.name.len() >= 2 && m.name[0] == 0x5f && (m.name[1] == 0x65 || m.name[1] == 0x73))
    &&& m.values.len() >= 1
    &&& all_float_texts(m.values)
    &&& wf_opt_float(m.sample_rate)
    &&& wf_tags(m.tags)
    &&& wf_opt_field(m.container_id)
}

/// An event record the encoder can emit canonically. The decoder demands
/// a non-empty text, so a canonical event has one.
pub open spec fn wf_event(e: EventV) -> bool {
    &&& -0x8000_0000 <= e.title_length <= 0x7fff_ffff
    &&& -0x8000_0000 <= e.text_length <= 0x7fff_ffff
    &&& wf_field(e.title)
    &&& wf_field(e.text)
    &&& e.text.len() >= 1
    &&& wf_opt_field(e.hostname)
    &&& wf_opt_field(e.aggregation_key)
    &&& wf_opt_field(e.priority)
    &&& wf_opt_field(e.source)
    &&& wf_opt_field(e.event_type)
    &&& wf_tags(e.tags)
    &&& wf_opt_field(e.container_id)
}

/// A service-check record the encoder can emit canonically.
pub open spec fn wf_service_check(s: ServiceCheckV) -> bool {
    &&& wf_field(s.name)
    &&& 0 <= s.status <= 3
    &&& wf_opt_field(s.hostname)
    &&& wf_tags(s.tags)
    &&& wf_opt_field(s.message)
    &&& wf_opt_field(s.container_id)
}

pub open spec fn wf_datagram(d: DatagramV) -> bool {
    match d {
        DatagramV::Metric(m) => wf_metric(m),
        DatagramV::Event(e) => wf_event(e),
        DatagramV::ServiceCheck(s) => wf_service_check(s),
    }
}

/// A canonical datagram: one some well-formed record encodes to.
pub open spec fn canonical(d: Seq<u8>) -> bool {
    exists|m: DatagramV| wf_datagram(m) && d == enc_datagram(m)
}

/// Sections that can stand in a '|'-joined datagram.
pub open spec fn secs_ok(segs: Seq<Seq<u8>>) -> bool {
    forall|i: int|
        0 <= i < segs.len() ==> !(#[trigger] segs[i]).contains(0x7cu8) && is_utf8(segs[i])
}

proof fn lemma_secs_ok_app(a: Seq<Seq<u8>>, b: Seq<Seq<u8>>)
    requires
        secs_ok(a),
        secs_ok(b),
    ensures
        secs_ok(a + b),
{
    assert forall|i: int| 0 <= i < (a + b).len() implies !(#[trigger] (a + b)[i]).contains(0x7cu8)
        && is_utf8((a + b)[i]) by {
        if i < a.len() {
            assert((a + b)[i] == a[i]);
        } else {
            assert((a + b)[i] == b[i - a.len()]);
        }
    }
}

proof fn lemma_sections_split(segs: Seq<Seq<u8>>)
    requires
        segs.len() >= 1,
        secs_ok(segs),
    ensures
        split_at(join_with(segs, 0x7cu8), 0x7cu8) == segs,
        is_utf8(join_with(segs, 0x7cu8)),
{
    crate::segments::lemma_split_join(segs, 0x7cu8);
    crate::segments::lemma_join_utf8(segs, 0x7cu8);
}

/// Floating-point numerals hold no separator bytes and are ASCII.
proof fn lemma_float_ok(v: Seq<u8>)
    requires
        float_text(v),
    ensures
        !v.contains(0x7cu8),
        !v.contains(0x3au8),
        !v.contains(0x2cu8),
        is_utf8(v),
        v.len() >= 1,
{
    crate::text::lemma_float_text_bytes(v);
    crate::text::lemma_ascii_is_utf8(v);
}

/// Unsigned numerals hold digits only.
proof fn lemma_dec_u_ok(n: nat)
    ensures
        !dec_of(n).contains(0x7cu8),
        !dec_of(n).contains(0x3au8),
        !dec_of(n).contains(0x2cu8),
        is_utf8(dec_of(n)),
{
    crate::text::lemma_dec_of_digits(n);
    crate::text::lemma_dec_of_no_byte(n, 0x7cu8);
    crate::text::lemma_dec_of_no_byte(n, 0x3au8);
    crate::text::lemma_dec_of_no_byte(n, 0x2cu8);
    assert forall|i: int| 0 <= i < dec_of(n).len() implies dec_of(n)[i] < 0x80 by {
        assert(crate::text::is_digit(dec_of(n)[i]));
    }
    crate::text::lemma_ascii_is_utf8(dec_of(n));
}

/// Signed numerals hold digits and at most a leading minus.
proof fn lemma_dec_i32_ok(v: int)
    ensures
        !dec_of_i32(v).contains(0x7cu8),
        !dec_of_i32(v).contains(0x3au8),
        !dec_of_i32(v).contains(0x2cu8),
        !dec_of_i32(v).contains(0x7bu8),
        !dec_of_i32(v).contains(0x7du8),
        is_utf8(dec_of_i32(v)),
        forall|i: int| 0 <= i < dec_of_i32(v).len() ==> dec_of_i32(v)[i] < 0x80,
{
    if v < 0 {
        let mag = (-v) as nat;
        crate::text::lemma_dec_of_digits(mag);
        assert forall|i: int| 0 <= i < dec_of_i32(v).len() implies (crate::text::is_digit(
            dec_of_i32(v)[i],
        ) || dec_of_i32(v)[i] == 0x2d) by {
            if i > 0 {
                assert(dec_of_i32(v)[i] == dec_of(mag)[i - 1]);
            }
        }
    } else {
        crate::text::lemma_dec_of_digits(v as nat);
        assert forall|i: int| 0 <= i < dec_of_i32(v).len() implies (crate::text::is_digit(
            dec_of_i32(v)[i],
        ) || dec_of_i32(v)[i] == 0x2d) by {}
    }
    let s = dec_of_i32(v);
    assert forall|b: u8|
        !(crate::text::is_digit(b) || b == 0x2d) implies !s.contains(b) by {
        if s.contains(b) {
            let i = choose|i: int| 0 <= i < s.len() && s[i] == b;
            assert(crate::text::is_digit(s[i]) || s[i] == 0x2d);
        }
    }
    assert forall|i: int| 0 <= i < s.len() implies s[i] < 0x80 by {
        assert(crate::text::is_digit(s[i]) || s[i] == 0x2d);
    }
    crate::text::lemma_ascii_is_utf8(s);
}

proof fn lemma_kind_ok(k: MetricKind)
    ensures
        kind_of(kind_bytes(k)) == Some(k),
        !kind_bytes(k).contains(0x7cu8),
        is_utf8(kind_bytes(k)),
{
    let s = kind_bytes(k);
    assert forall|i: int| 0 <= i < s.len() implies s[i] < 0x80 && s[i] != 0x7c by {
        match k {
            MetricKind::Timing => {
                assert(i == 0 || i == 1);
            },
            _ => {
                assert(i == 0);
            },
        }
    }
    crate::text::lemma_ascii_is_utf8(s);
    if s.contains(0x7cu8) {
        let i = choose|i: int| 0 <= i < s.len() && s[i] == 0x7c;
    }
}

proof fn lemma_sr_segs_ok(o: Option<Seq<u8>>)
    requires
        wf_opt_float(o),
    ensures
        secs_ok(sr_segs(o)),
{
    match o {
        Some(sr) => {
            lemma_float_ok(sr);
            let sec = seq![0x40u8] + sr;
            assert(!seq![0x40u8].contains(0x7cu8)) by {
                if seq![0x40u8].contains(0x7cu8) {
                    let i = choose|i: int| 0 <= i < 1 && seq![0x40u8][i] == 0x7c;
                }
            }
            crate::segments::lemma_concat_free(seq![0x40u8], sr, 0x7cu8);
            crate::text::lemma_ascii_is_utf8(seq![0x40u8]);
            crate::text::lemma_utf8_concat(seq![0x40u8], sr);
            assert forall|i: int| 0 <= i < sr_segs(o).len() implies !(
            #[trigger] sr_segs(o)[i]).contains(0x7cu8) && is_utf8(sr_segs(o)[i]) by {
                assert(sr_segs(o)[i] == sec);
            }
        },
        None => {},
    }
}

proof fn lemma_tag_segs_ok(o: Option<Seq<Seq<u8>>>)
    requires
        wf_tags(o),
    ensures
        secs_ok(tag_segs(o)),
        o matches Some(ts) ==> split_at(join_with(ts, 0x2cu8), 0x2cu8) == ts,
{
    match o {
        Some(ts) => {
            crate::segments::lemma_join_no_byte(ts, 0x2cu8, 0x7cu8);
            crate::segments::lemma_join_utf8(ts, 0x2cu8);
            crate::segments::lemma_split_join(ts, 0x2cu8);
            let j = join_with(ts, 0x2cu8);
            let sec = seq![0x23u8] + j;
            assert(!seq![0x23u8].contains(0x7cu8)) by {
                if seq![0x23u8].contains(0x7cu8) {
                    let i = choose|i: int| 0 <= i < 1 && seq![0x23u8][i] == 0x7c;
                }
            }
            crate::segments::lemma_concat_free(seq![0x23u8], j, 0x7cu8);
            crate::text::lemma_ascii_is_utf8(seq![0x23u8]);
            crate::text::lemma_utf8_concat(seq![0x23u8], j);
            assert forall|i: int| 0 <= i < tag_segs(o).len() implies !(
            #[trigger] tag_segs(o)[i]).contains(0x7cu8) && is_utf8(tag_segs(o)[i]) by {
                assert(tag_segs(o)[i] == sec);
            }
        },
        None => {},
    }
}

proof fn lemma_str_segs_ok(sig: u8, o: Option<Seq<u8>>)
    requires
        wf_opt_field(o),
        sig != 0x7c,
        sig < 0x80,
    ensures
        secs_ok(str_segs(sig, o)),
{
    match o {
        Some(v) => {
            let pre = seq![sig, 0x3au8];
            let sec = pre + v;
            assert(!pre.contains(0x7cu8)) by {
                if pre.contains(0x7cu8) {
                    let i = choose|i: int| 0 <= i < 2 && pre[i] == 0x7c;
                }
            }
            crate::segments::lemma_concat_free(pre, v, 0x7cu8);
            crate::text::lemma_ascii_is_utf8(pre);
            crate::text::lemma_utf8_concat(pre, v);
            assert forall|i: int| 0 <= i < str_segs(sig, o).len() implies !(#[trigger] str_segs(
                sig,
                o,
            )[i]).contains(0x7cu8) && is_utf8(str_segs(sig, o)[i]) by {
                assert(str_segs(sig, o)[i] == sec);
            }
        },
        None => {},
    }
}

proof fn lemma_ts_segs_ok(o: Option<u32>)
    ensures
        secs_ok(ts_segs(o)),
{
    match o {
        Some(t) => {
            lemma_dec_u_ok(t as nat);
            let pre = seq![0x64u8, 0x3au8];
            let sec = pre + dec_of(t as nat);
            assert(!pre.contains(0x7cu8)) by {
                if pre.contains(0x7cu8) {
                    let i = choose|i: int| 0 <= i < 2 && pre[i] == 0x7c;
                }
            }
            crate::segments::lemma_concat_free(pre, dec_of(t as nat), 0x7cu8);
            crate::text::lemma_ascii_is_utf8(pre);
            crate::text::lemma_utf8_concat(pre, dec_of(t as nat));
            assert forall|i: int| 0 <= i < ts_segs(o).len() implies !(
            #[trigger] ts_segs(o)[i]).contains(0x7cu8) && is_utf8(ts_segs(o)[i]) by {
                assert(ts_segs(o)[i] == sec);
            }
        },
        None => {},
    }
}

proof fn lemma_fold_metric_app(acc: MetricOpts, s1: Seq<Seq<u8>>, s2: Seq<Seq<u8>>)
    ensures
        fold_metric_secs(acc, s1 + s2) == match fold_metric_secs(acc, s1) {
            Some(a) => fold_metric_secs(a, s2),
            None => None,
        },
    decreases s1.len(),
{
    if s1.len() == 0 {
        assert(s1 + s2 =~= s2);
    } else {
        assert((s1 + s2)[0] == s1[0]);
        assert((s1 + s2).skip(1) =~= s1.skip(1) + s2);
        match metric_sec_step(acc, s1[0]) {
            Some(a) => {
                lemma_fold_metric_app(a, s1.skip(1), s2);
            },
            None => {},
        }
    }
}

proof fn lemma_fold_sr(acc: MetricOpts, o: Option<Seq<u8>>)
    requires
        wf_opt_float(o),
    ensures
        fold_metric_secs(acc, sr_segs(o)) == Some(
            match o {
                Some(sr) => MetricOpts { sample_rate: Some(sr), ..acc },
                None => acc,
            },
        ),
{
    match o {
        Some(sr) => {
            let sec = seq![0x40u8] + sr;
            assert(sr_segs(o)[0] == sec);
            assert(sec[0] == 0x40);
            assert(sec.skip(1) =~= sr);
            let a0 = MetricOpts { sample_rate: Some(sec.skip(1)), ..acc };
            assert(metric_sec_step(acc, sec) == Some(a0));
            assert(sr_segs(o).skip(1) =~= Seq::<Seq<u8>>::empty());
            assert(fold_metric_secs(a0, Seq::<Seq<u8>>::empty()) == Some(a0));
            assert(fold_metric_secs(acc, sr_segs(o)) == Some(a0));
            assert(a0 =~= MetricOpts { sample_rate: Some(sr), ..acc });
        },
        None => {},
    }
}

proof fn lemma_fold_tags(acc: MetricOpts, o: Option<Seq<Seq<u8>>>)
    requires
        wf_tags(o),
    ensures
        fold_metric_secs(acc, tag_segs(o)) == Some(
            match o {
                Some(ts) => MetricOpts { tags: Some(ts), ..acc },
                None => acc,
            },
        ),
{
    match o {
        Some(ts) => {
            lemma_tag_segs_ok(o);
            let sec = seq![0x23u8] + join_with(ts, 0x2cu8);
            assert(tag_segs(o)[0] == sec);
            assert(sec[0] == 0x23);
            assert(sec[0] != 0x40);
            assert(sec.skip(1) =~= join_with(ts, 0x2cu8));
            assert(split_at(sec.skip(1), 0x2cu8) == ts);
            let a0 = MetricOpts { tags: Some(split_at(sec.skip(1), 0x2cu8)), ..acc };
            assert(metric_sec_step(acc, sec) == Some(a0));
            assert(tag_segs(o).skip(1) =~= Seq::<Seq<u8>>::empty());
            assert(fold_metric_secs(a0, Seq::<Seq<u8>>::empty()) == Some(a0));
            assert(fold_metric_secs(acc, tag_segs(o)) == Some(a0));
            assert(a0 =~= MetricOpts { tags: Some(ts), ..acc });
        },
        None => {},
    }
}

proof fn lemma_fold_cid(acc: MetricOpts, o: Option<Seq<u8>>)
    requires
        wf_opt_field(o),
    ensures
        fold_metric_secs(acc, str_segs(0x63u8, o)) == Some(
            match o {
                Some(c) => MetricOpts { container_id: Some(c), ..acc },
                None => acc,
            },
        ),
{
    match o {
        Some(c) => {
            let sec = seq![0x63u8, 0x3au8] + c;
            assert(str_segs(0x63u8, o)[0] == sec);
            assert(sec[0] == 0x63);
            assert(sec[0] != 0x40 && sec[0] != 0x23);
            assert(sec.len() >= 2);
            assert(sec.skip(2) =~= c);
            let a0 = MetricOpts { container_id: Some(sec.skip(2)), ..acc };
            assert(metric_sec_step(acc, sec) == Some(a0));
            assert(str_segs(0x63u8, o).skip(1) =~= Seq::<Seq<u8>>::empty());
            assert(fold_metric_secs(a0, Seq::<Seq<u8>>::empty()) == Some(a0));
            assert(fold_metric_secs(acc, str_segs(0x63u8, o)) == Some(a0));
            assert(a0 =~= MetricOpts { container_id: Some(c), ..acc });
        },
        None => {},
    }
}

/// The metric head joins the name and values; it splits back and its two
/// leading bytes cannot look like an event or service-check marker.
proof fn lemma_metric_head(m: MetricV)
    requires
        wf_metric(m),
    ensures
        ({
            let pieces = seq![m.name] + m.values;
            let head = join_with(pieces, 0x3au8);
            &&& split_at(head, 0x3au8) == pieces
            &&& !head.contains(0x7cu8)
            &&& is_utf8(head)
            &&& head.len() >= 2
            &&& (m.name.len() >= 2 ==> head[0] == m.name[0] && head[1] == m.name[1])
            &&& (m.name.len() == 1 ==> head[0] == m.name[0] && head[1] == 0x3a)
            &&& (m.name.len() == 0 ==> head[0] == 0x3a)
        }),
{
    let pieces = seq![m.name] + m.values;
    let head = join_with(pieces, 0x3au8);
    assert forall|i: int| 0 <= i < pieces.len() implies !(#[trigger] pieces[i]).contains(0x3au8)
        && !pieces[i].contains(0x7cu8) && is_utf8(pieces[i]) by {
        if i == 0 {
            assert(pieces[i] == m.name);
        } else {
            assert(pieces[i] == m.values[i - 1]);
            assert(float_text(m.values[i - 1]));
            lemma_float_ok(m.values[i - 1]);
        }
    }
    crate::segments::lemma_join_no_byte(pieces, 0x3au8, 0x7cu8);
    crate::segments::lemma_join_utf8(pieces, 0x3au8);
    crate::segments::lemma_split_join(pieces, 0x3au8);
    assert(pieces.len() >= 2);
    assert(pieces[0] == m.name);
    assert(head == pieces[0] + seq![0x3au8] + join_with(pieces.skip(1), 0x3au8));
    assert(head.len() >= m.name.len() + 1);
}

/// The section list of a well-formed metric is fit for '|'-joining.
proof fn lemma_metric_secs_ok(m: MetricV)
    requires
        wf_metric(m),
    ensures
        secs_ok(metric_segments(m)),
{
    let head = join_with(seq![m.name] + m.values, 0x3au8);
    lemma_metric_head(m);
    lemma_kind_ok(m.kind);
    let base = seq![head, kind_bytes(m.kind)];
    assert forall|i: int| 0 <= i < base.len() implies !(#[trigger] base[i]).contains(0x7cu8)
        && is_utf8(base[i]) by {
        if i == 0 {
            assert(base[i] == head);
        } else {
            assert(base[i] == kind_bytes(m.kind));
        }
    }
    lemma_sr_segs_ok(m.sample_rate);
    lemma_tag_segs_ok(m.tags);
    lemma_str_segs_ok(0x63u8, m.container_id);
    lemma_secs_ok_app(base, sr_segs(m.sample_rate));
    lemma_secs_ok_app(base + sr_segs(m.sample_rate), tag_segs(m.tags));
    lemma_secs_ok_app(
        base + sr_segs(m.sample_rate) + tag_segs(m.tags),
        str_segs(0x63u8, m.container_id),
    );
}

/// Decoding recovers a well-formed metric from its encoding.
#[verifier::rlimit(100)]
#[verifier::spinoff_prover]
proof fn lemma_metric_roundtrip(m: MetricV)
    requires
        wf_metric(m),
    ensures
        parse_datagram(enc_metric(m)) == Some(DatagramV::Metric(m)),
{
    let pieces = seq![m.name] + m.values;
    let head = join_with(pieces, 0x3au8);
    lemma_metric_head(m);
    lemma_metric_secs_ok(m);
    lemma_kind_ok(m.kind);
    let segs = metric_segments(m);
    assert(segs.len() >= 2);
    lemma_sections_split(segs);
    let d = enc_metric(m);
    assert(split_at(d, 0x7cu8) == segs);

    assert(segs[0] == head);
    assert(segs[1] == kind_bytes(m.kind));
    assert(d == segs[0] + seq![0x7cu8] + join_with(segs.skip(1), 0x7cu8));
    assert(d.len() >= 2);
    assert(d[0] == head[0] && d[1] == head[1]);
    assert(!(d[0] == 0x5f && d[1] == 0x65));
    assert(!(d[0] == 0x5f && d[1] == 0x73));

    assert(split_at(segs[0], 0x3au8) == pieces);
    assert(pieces[0] == m.name);
    assert(pieces.skip(1) =~= m.values);
    assert(all_float_texts(pieces.skip(1)));

    let init = MetricOpts { sample_rate: None, tags: None, container_id: None };
    let s1 = sr_segs(m.sample_rate);
    let s2 = tag_segs(m.tags);
    let s3 = str_segs(0x63u8, m.container_id);
    assert(segs.skip(2) =~= s1 + (s2 + s3));
    lemma_fold_metric_app(init, s1, s2 + s3);
    lemma_fold_sr(init, m.sample_rate);
    let acc1 = MetricOpts { sample_rate: m.sample_rate, tags: None, container_id: None };
    assert(fold_metric_secs(init, s1) matches Some(a) && a =~= acc1);
    lemma_fold_metric_app(acc1, s2, s3);
    lemma_fold_tags(acc1, m.tags);
    let acc2 = MetricOpts { sample_rate: m.sample_rate, tags: m.tags, container_id: None };
    assert(fold_metric_secs(acc1, s2) matches Some(a) && a =~= acc2);
    lemma_fold_cid(acc2, m.container_id);
    let acc3 = MetricOpts {
        sample_rate: m.sample_rate,
        tags: m.tags,
        container_id: m.container_id,
    };
    assert(fold_metric_secs(acc2, s3) matches Some(a) && a =~= acc3);
    assert(fold_metric_secs(init, segs.skip(2)) == Some(acc3));
    assert(parse_metric(d) matches Some(pm) && pm =~= m);
}

proof fn lemma_fold_event_app(acc: EventOpts, s1: Seq<Seq<u8>>, s2: Seq<Seq<u8>>)
    ensures
        fold_event_secs(acc, s1 + s2) == match fold_event_secs(acc, s1) {
            Some(a) => fold_event_secs(a, s2),
            None => None,
        },
    decreases s1.len(),
{
    if s1.len() == 0 {
        assert(s1 + s2 =~= s2);
    } else {
        assert((s1 + s2)[0] == s1[0]);
        assert((s1 + s2).skip(1) =~= s1.skip(1) + s2);
        match event_sec_step(acc, s1[0]) {
            Some(a) => {
                lemma_fold_event_app(a, s1.skip(1), s2);
            },
            None => {},
        }
    }
}

proof fn lemma_fold_ev_ts(acc: EventOpts, o: Option<u32>)
    ensures
        fold_event_secs(acc, ts_segs(o)) == Some(
            match o {
                Some(t) => EventOpts { timestamp: Some(t), ..acc },
                None => acc,
            },
        ),
{
    match o {
        Some(t) => {
            crate::text::lemma_u32_numeral_roundtrip(t);
            let sec = seq![0x64u8, 0x3au8] + dec_of(t as nat);
            assert(ts_segs(o)[0] == sec);
            assert(sec[0] == 0x64);
            assert(sec.len() >= 2);
            assert(sec.skip(2) =~= dec_of(t as nat));
            let a0 = EventOpts {
                timestamp: Some(unsigned_numeral_val(sec.skip(2)) as u32),
                ..acc
            };
            assert(event_sec_step(acc, sec) == Some(a0));
            assert(ts_segs(o).skip(1) =~= Seq::<Seq<u8>>::empty());
            assert(fold_event_secs(a0, Seq::<Seq<u8>>::empty()) == Some(a0));
            assert(fold_event_secs(acc, ts_segs(o)) == Some(a0));
            assert(a0 =~= EventOpts { timestamp: Some(t), ..acc });
        },
        None => {},
    }
}

proof fn lemma_fold_ev_str(acc: EventOpts, sig: u8, o: Option<Seq<u8>>)
    requires
        sig == 0x68 || sig == 0x6b || sig == 0x70 || sig == 0x73 || sig == 0x74 || sig == 0x63,
    ensures
        fold_event_secs(acc, str_segs(sig, o)) == Some(
            match o {
                Some(v) => if sig == 0x68 {
                    EventOpts { hostname: Some(v), ..acc }
                } else if sig == 0x6b {
                    EventOpts { aggregation_key: Some(v), ..acc }
                } else if sig == 0x70 {
                    EventOpts { priority: Some(v), ..acc }
                } else if sig == 0x73 {
                    EventOpts { source: Some(v), ..acc }
                } else if sig == 0x74 {
                    EventOpts { event_type: Some(v), ..acc }
                } else {
                    EventOpts { container_id: Some(v), ..acc }
                },
                None => acc,
            },
        ),
{
    match o {
        Some(v) => {
            let sec = seq![sig, 0x3au8] + v;
            assert(str_segs(sig, o)[0] == sec);
            assert(sec[0] == sig);
            assert(sec.len() >= 2);
            assert(sec.skip(2) =~= v);
            let a0 = event_sec_step(acc, sec)->0;
            assert(event_sec_step(acc, sec) is Some);
            assert(str_segs(sig, o).skip(1) =~= Seq::<Seq<u8>>::empty());
            assert(fold_event_secs(a0, Seq::<Seq<u8>>::empty()) == Some(a0));
            assert(fold_event_secs(acc, str_segs(sig, o)) == Some(a0));
            if sig == 0x68 {
                assert(a0 =~= EventOpts { hostname: Some(v), ..acc });
            } else if sig == 0x6b {
                assert(a0 =~= EventOpts { aggregation_key: Some(v), ..acc });
            } else if sig == 0x70 {
                assert(a0 =~= EventOpts { priority: Some(v), ..acc });
            } else if sig == 0x73 {
                assert(a0 =~= EventOpts { source: Some(v), ..acc });
            } else if sig == 0x74 {
                assert(a0 =~= EventOpts { event_type: Some(v), ..acc });
            } else {
                assert(a0 =~= EventOpts { container_id: Some(v), ..acc });
            }
        },
        None => {},
    }
}

proof fn lemma_fold_ev_tags(acc: EventOpts, o: Option<Seq<Seq<u8>>>)
    requires
        wf_tags(o),
    ensures
        fold_event_secs(acc, tag_segs(o)) == Some(
            match o {
                Some(ts) => EventOpts { tags: Some(ts), ..acc },
                None => acc,
            },
        ),
{
    match o {
        Some(ts) => {
            lemma_tag_segs_ok(o);
            let sec = seq![0x23u8] + join_with(ts, 0x2cu8);
            assert(tag_segs(o)[0] == sec);
            assert(sec[0] == 0x23);
            assert(sec.skip(1) =~= join_with(ts, 0x2cu8));
            assert(split_at(sec.skip(1), 0x2cu8) == ts);
            let a0 = EventOpts { tags: Some(split_at(sec.skip(1), 0x2cu8)), ..acc };
            assert(event_sec_step(acc, sec) == Some(a0));
            assert(tag_segs(o).skip(1) =~= Seq::<Seq<u8>>::empty());
            assert(fold_event_secs(a0, Seq::<Seq<u8>>::empty()) == Some(a0));
            assert(fold_event_secs(acc, tag_segs(o)) == Some(a0));
            assert(a0 =~= EventOpts { tags: Some(ts), ..acc });
        },
        None => {},
    }
}

/// The event head `_e{TLEN,XLEN}:TITLE`: where its first colon falls, how
/// it splits, and that it is a fit section.
#[verifier::rlimit(100)]
proof fn lemma_event_head(e: EventV)
    requires
        wf_event(e),
    ensures
        ({
            let t = dec_of_i32(e.title_length);
            let x = dec_of_i32(e.text_length);
            let hdr = seq![0x5fu8, 0x65u8, 0x7bu8] + t + seq![0x2cu8] + x + seq![0x7du8];
            let h = event_head(e);
            &&& crate::segments::first_ix(h, 0x3au8) == hdr.len()
            &&& h.take(hdr.len() as int) == hdr
            &&& h.skip(hdr.len() as int + 1) == e.title
            &&& hdr.len() >= 4
            &&& hdr[0] == 0x5f && hdr[1] == 0x65 && hdr[2] == 0x7b && hdr[hdr.len() - 1] == 0x7d
            &&& split_at(hdr.subrange(3, hdr.len() - 1), 0x2cu8) == seq![t, x]
            &&& i32_numeral(t) && i32_numeral_val(t) == e.title_length
            &&& i32_numeral(x) && i32_numeral_val(x) == e.text_length
            &&& !h.contains(0x7cu8)
            &&& is_utf8(h)
            &&& h[0] == 0x5f && h[1] == 0x65
        }),
{
    let t = dec_of_i32(e.title_length);
    let x = dec_of_i32(e.text_length);
    lemma_dec_i32_ok(e.title_length);
    lemma_dec_i32_ok(e.text_length);
    crate::text::lemma_i32_numeral_roundtrip(e.title_length as i32);
    crate::text::lemma_i32_numeral_roundtrip(e.text_length as i32);
    let hdr = seq![0x5fu8, 0x65u8, 0x7bu8] + t + seq![0x2cu8] + x + seq![0x7du8];
    let h = event_head(e);
    assert(h =~= hdr + seq![0x3au8] + e.title);
    assert(!hdr.contains(0x3au8)) by {
        if hdr.contains(0x3au8) {
            let i = choose|i: int| 0 <= i < hdr.len() && hdr[i] == 0x3a;
            if 3 <= i < 3 + t.len() {
                assert(t[i - 3] == 0x3a);
                assert(t.contains(0x3au8));
            } else if 3 + t.len() + 1 <= i < 3 + t.len() + 1 + x.len() {
                assert(x[i - (3 + t.len() + 1)] == 0x3a);
                assert(x.contains(0x3au8));
            }
        }
    }
    crate::segments::lemma_first_ix_concat(hdr, e.title, 0x3au8);
    assert(crate::segments::first_ix(h, 0x3au8) == hdr.len());
    assert(h.take(hdr.len() as int) =~= hdr);
    assert(h.skip(hdr.len() as int + 1) =~= e.title);
    crate::text::lemma_dec_of_digits(
        if e.title_length < 0 {
            (-e.title_length) as nat
        } else {
            e.title_length as nat
        },
    );
    assert(t.len() >= 1);
    assert(hdr.len() >= 4);
    assert(hdr.len() == 3 + t.len() + 1 + x.len() + 1);
    assert forall|ix: int| 0 <= ix < t.len() + 1 + x.len() implies hdr.subrange(
        3,
        hdr.len() - 1,
    )[ix] == (t + seq![0x2cu8] + x)[ix] by {
        assert(hdr.subrange(3, hdr.len() - 1)[ix] == hdr[ix + 3]);
        if ix < t.len() {
            assert(hdr[ix + 3] == t[ix]);
        } else if ix == t.len() {
            assert(hdr[ix + 3] == 0x2c);
        } else {
            assert(hdr[ix + 3] == x[ix - t.len() - 1]);
        }
    }
    assert(hdr.subrange(3, hdr.len() - 1) =~= t + seq![0x2cu8] + x);
    assert(t + seq![0x2cu8] + x =~= join_with(seq![t, x], 0x2cu8)) by {
        assert(join_with(seq![t, x], 0x2cu8) == t + seq![0x2cu8] + join_with(
            seq![t, x].skip(1),
            0x2cu8,
        ));
        assert(seq![t, x].skip(1) =~= seq![x]);
        assert(join_with(seq![x], 0x2cu8) == x);
    }
    let tx = seq![t, x];
    assert forall|i: int| 0 <= i < tx.len() implies !(#[trigger] tx[i]).contains(0x2cu8) by {
        if i == 0 {
            assert(tx[i] == t);
        } else {
            assert(tx[i] == x);
        }
    }
    crate::segments::lemma_split_join(tx, 0x2cu8);
    assert(!h.contains(0x7cu8)) by {
        if h.contains(0x7cu8) {
            let i = choose|i: int| 0 <= i < h.len() && h[i] == 0x7c;
            if i < hdr.len() {
                if 3 <= i < 3 + t.len() {
                    assert(t[i - 3] == 0x7c);
                    assert(t.contains(0x7cu8));
                } else if 3 + t.len() + 1 <= i < 3 + t.len() + 1 + x.len() {
                    assert(x[i - (3 + t.len() + 1)] == 0x7c);
                    assert(x.contains(0x7cu8));
                } else {
                    assert(h[i] == 0x5f || h[i] == 0x65 || h[i] == 0x7b || h[i] == 0x2c || h[i]
                        == 0x7d);
                }
            } else if i == hdr.len() {
                assert(h[i] == 0x3a);
            } else {
                assert(e.title[i - hdr.len() - 1] == 0x7c);
                assert(e.title.contains(0x7cu8));
            }
        }
    }
    assert(is_utf8(h)) by {
        let p1 = seq![0x5fu8, 0x65u8, 0x7bu8];
        crate::text::lemma_ascii_is_utf8(p1);
        crate::text::lemma_utf8_concat(p1, t);
        crate::text::lemma_ascii_is_utf8(seq![0x2cu8]);
        crate::text::lemma_utf8_concat(p1 + t, seq![0x2cu8]);
        crate::text::lemma_utf8_concat(p1 + t + seq![0x2cu8], x);
        crate::text::lemma_ascii_is_utf8(seq![0x7du8]);
        crate::text::lemma_utf8_concat(p1 + t + seq![0x2cu8] + x, seq![0x7du8]);
        crate::text::lemma_ascii_is_utf8(seq![0x3au8]);
        crate::text::lemma_utf8_concat(hdr, seq![0x3au8]);
        crate::text::lemma_utf8_concat(hdr + seq![0x3au8], e.title);
        assert(h =~= (hdr + seq![0x3au8]) + e.title);
    }
}

/// The section list of a well-formed event is fit for '|'-joining.
proof fn lemma_event_secs_ok(e: EventV)
    requires
        wf_event(e),
    ensures
        secs_ok(event_segments(e)),
{
    let h = event_head(e);
    lemma_event_head(e);
    let base = seq![h, e.text];
    assert(secs_ok(base)) by {
        assert forall|i: int| 0 <= i < base.len() implies !(#[trigger] base[i]).contains(0x7cu8)
            && is_utf8(base[i]) by {
            if i == 0 {
                assert(base[i] == h);
            } else {
                assert(base[i] == e.text);
            }
        }
    }
    lemma_ts_segs_ok(e.timestamp);
    lemma_str_segs_ok(0x68u8, e.hostname);
    lemma_str_segs_ok(0x6bu8, e.aggregation_key);
    lemma_str_segs_ok(0x70u8, e.priority);
    lemma_str_segs_ok(0x73u8, e.source);
    lemma_str_segs_ok(0x74u8, e.event_type);
    lemma_tag_segs_ok(e.tags);
    lemma_str_segs_ok(0x63u8, e.container_id);
    let s1 = ts_segs(e.timestamp);
    let s2 = str_segs(0x68u8, e.hostname);
    let s3 = str_segs(0x6bu8, e.aggregation_key);
    let s4 = str_segs(0x70u8, e.priority);
    let s5 = str_segs(0x73u8, e.source);
    let s6 = str_segs(0x74u8, e.event_type);
    let s7 = tag_segs(e.tags);
    let s8 = str_segs(0x63u8, e.container_id);
    lemma_secs_ok_app(base, s1);
    lemma_secs_ok_app(base + s1, s2);
    lemma_secs_ok_app(base + s1 + s2, s3);
    lemma_secs_ok_app(base + s1 + s2 + s3, s4);
    lemma_secs_ok_app(base + s1 + s2 + s3 + s4, s5);
    lemma_secs_ok_app(base + s1 + s2 + s3 + s4 + s5, s6);
    lemma_secs_ok_app(base + s1 + s2 + s3 + s4 + s5 + s6, s7);
    lemma_secs_ok_app(base + s1 + s2 + s3 + s4 + s5 + s6 + s7, s8);
}

/// Folding the trailing four optional sections of an event.
proof fn lemma_event_fold_tail(a4: EventOpts, e: EventV)
    requires
        wf_event(e),
        a4.source is None,
        a4.event_type is None,
        a4.tags is None,
        a4.container_id is None,
    ensures
        fold_event_secs(
            a4,
            str_segs(0x73u8, e.source) + (str_segs(0x74u8, e.event_type) + (tag_segs(e.tags)
                + str_segs(0x63u8, e.container_id))),
        ) == Some(
            EventOpts {
                source: e.source,
                event_type: e.event_type,
                tags: e.tags,
                container_id: e.container_id,
                ..a4
            },
        ),
{
    let s5 = str_segs(0x73u8, e.source);
    let s6 = str_segs(0x74u8, e.event_type);
    let s7 = tag_segs(e.tags);
    let s8 = str_segs(0x63u8, e.container_id);
    lemma_fold_event_app(a4, s5, s6 + (s7 + s8));
    lemma_fold_ev_str(a4, 0x73u8, e.source);
    let a5 = EventOpts { source: e.source, ..a4 };
    assert(fold_event_secs(a4, s5) matches Some(a) && a =~= a5);
    lemma_fold_event_app(a5, s6, s7 + s8);
    lemma_fold_ev_str(a5, 0x74u8, e.event_type);
    let a6 = EventOpts { event_type: e.event_type, ..a5 };
    assert(fold_event_secs(a5, s6) matches Some(a) && a =~= a6);
    lemma_fold_event_app(a6, s7, s8);
    lemma_fold_ev_tags(a6, e.tags);
    let a7 = EventOpts { tags: e.tags, ..a6 };
    assert(fold_event_secs(a6, s7) matches Some(a) && a =~= a7);
    lemma_fold_ev_str(a7, 0x63u8, e.container_id);
    let a8 = EventOpts { container_id: e.container_id, ..a7 };
    assert(fold_event_secs(a7, s8) matches Some(a) && a =~= a8);
    assert(a8 =~= EventOpts {
        source: e.source,
        event_type: e.event_type,
        tags: e.tags,
        container_id: e.container_id,
        ..a4
    });
}

/// The tail of an event's section list, reassociated for folding.
#[verifier::rlimit(100)]
#[verifier::spinoff_prover]
proof fn lemma_event_segments_skip(e: EventV)
    ensures
        event_segments(e).skip(2) == ts_segs(e.timestamp) + (str_segs(0x68u8, e.hostname) + (
        str_segs(0x6bu8, e.aggregation_key) + (str_segs(0x70u8, e.priority) + (str_segs(
            0x73u8,
            e.source,
        ) + (str_segs(0x74u8, e.event_type) + (tag_segs(e.tags) + str_segs(
            0x63u8,
            e.container_id,
        ))))))),
{
    assert(event_segments(e).skip(2) =~= ts_segs(e.timestamp) + (str_segs(0x68u8, e.hostname) + (
    str_segs(0x6bu8, e.aggregation_key) + (str_segs(0x70u8, e.priority) + (str_segs(
        0x73u8,
        e.source,
    ) + (str_segs(0x74u8, e.event_type) + (tag_segs(e.tags) + str_segs(
        0x63u8,
        e.container_id,
    ))))))));
}

/// The optional sections of a well-formed event fold back into its
/// optional fields.
#[verifier::rlimit(100)]
#[verifier::spinoff_prover]
proof fn lemma_event_fold(e: EventV)
    requires
        wf_event(e),
    ensures
        fold_event_secs(empty_event_opts(), event_segments(e).skip(2)) == Some(
            EventOpts {
                timestamp: e.timestamp,
                hostname: e.hostname,
                aggregation_key: e.aggregation_key,
                priority: e.priority,
                source: e.source,
                event_type: e.event_type,
                tags: e.tags,
                container_id: e.container_id,
            },
        ),
{
    let segs = event_segments(e);
    let init = empty_event_opts();
    let s1 = ts_segs(e.timestamp);
    let s2 = str_segs(0x68u8, e.hostname);
    let s3 = str_segs(0x6bu8, e.aggregation_key);
    let s4 = str_segs(0x70u8, e.priority);
    let s5 = str_segs(0x73u8, e.source);
    let s6 = str_segs(0x74u8, e.event_type);
    let s7 = tag_segs(e.tags);
    let s8 = str_segs(0x63u8, e.container_id);
    let tail = s5 + (s6 + (s7 + s8));
    lemma_event_segments_skip(e);
    lemma_fold_event_app(init, s1, s2 + (s3 + (s4 + tail)));
    lemma_fold_ev_ts(init, e.timestamp);
    let a1 = EventOpts { timestamp: e.timestamp, ..init };
    assert(fold_event_secs(init, s1) matches Some(a) && a =~= a1);
    lemma_fold_event_app(a1, s2, s3 + (s4 + tail));
    lemma_fold_ev_str(a1, 0x68u8, e.hostname);
    let a2 = EventOpts { hostname: e.hostname, ..a1 };
    assert(fold_event_secs(a1, s2) matches Some(a) && a =~= a2);
    lemma_fold_event_app(a2, s3, s4 + tail);
    lemma_fold_ev_str(a2, 0x6bu8, e.aggregation_key);
    let a3 = EventOpts { aggregation_key: e.aggregation_key, ..a2 };
    assert(fold_event_secs(a2, s3) matches Some(a) && a =~= a3);
    lemma_fold_event_app(a3, s4, tail);
    lemma_fold_ev_str(a3, 0x70u8, e.priority);
    let a4 = EventOpts { priority: e.priority, ..a3 };
    assert(fold_event_secs(a3, s4) matches Some(a) && a =~= a4);
    lemma_event_fold_tail(a4, e);
    let a8 = EventOpts {
        source: e.source,
        event_type: e.event_type,
        tags: e.tags,
        container_id: e.container_id,
        ..a4
    };
    assert(fold_event_secs(a4, tail) == Some(a8));
    assert(fold_event_secs(init, segs.skip(2)) == Some(a8));
    assert(a8 =~= EventOpts {
        timestamp: e.timestamp,
        hostname: e.hostname,
        aggregation_key: e.aggregation_key,
        priority: e.priority,
        source: e.source,
        event_type: e.event_type,
        tags: e.tags,
        container_id: e.container_id,
    });
}

/// Decoding recovers a well-formed event from its encoding.
#[verifier::rlimit(100)]
#[verifier::spinoff_prover]
proof fn lemma_event_roundtrip(e: EventV)
    requires
        wf_event(e),
    ensures
        parse_datagram(enc_event(e)) == Some(DatagramV::Event(e)),
{
    let t = dec_of_i32(e.title_length);
    let x = dec_of_i32(e.text_length);
    let hdr = seq![0x5fu8, 0x65u8, 0x7bu8] + t + seq![0x2cu8] + x + seq![0x7du8];
    let h = event_head(e);
    lemma_event_head(e);
    lemma_event_secs_ok(e);
    let segs = event_segments(e);
    assert(segs.len() >= 2);
    lemma_sections_split(segs);
    let d = enc_event(e);
    assert(split_at(d, 0x7cu8) == segs);
    assert(segs[0] == h);
    assert(segs[1] == e.text);
    assert(d == segs[0] + seq![0x7cu8] + join_with(segs.skip(1), 0x7cu8));
    assert(h.len() >= 2);
    assert(d.len() >= 2);
    assert(d[0] == h[0] && d[1] == h[1]);
    assert(d[0] == 0x5f && d[1] == 0x65);
    assert(segs[1].len() >= 1);

    lemma_event_fold(e);
    assert(parse_event(d) matches Some(pe) && pe =~= e);
}

proof fn lemma_fold_sc_app(acc: ScOpts, s1: Seq<Seq<u8>>, s2: Seq<Seq<u8>>)
    ensures
        fold_sc_secs(acc, s1 + s2) == match fold_sc_secs(acc, s1) {
            Some(a) => fold_sc_secs(a, s2),
            None => None,
        },
    decreases s1.len(),
{
    if s1.len() == 0 {
        assert(s1 + s2 =~= s2);
    } else {
        assert((s1 + s2)[0] == s1[0]);
        assert((s1 + s2).skip(1) =~= s1.skip(1) + s2);
        match sc_sec_step(acc, s1[0]) {
            Some(a) => {
                lemma_fold_sc_app(a, s1.skip(1), s2);
            },
            None => {},
        }
    }
}

proof fn lemma_fold_sc_ts(acc: ScOpts, o: Option<u32>)
    ensures
        fold_sc_secs(acc, ts_segs(o)) == Some(
            match o {
                Some(t) => ScOpts { timestamp: Some(t), ..acc },
                None => acc,
            },
        ),
{
    match o {
        Some(t) => {
            crate::text::lemma_u32_numeral_roundtrip(t);
            let sec = seq![0x64u8, 0x3au8] + dec_of(t as nat);
            assert(ts_segs(o)[0] == sec);
            assert(sec[0] == 0x64);
            assert(sec.len() >= 2);
            assert(sec.skip(2) =~= dec_of(t as nat));
            let a0 = ScOpts { timestamp: Some(unsigned_numeral_val(sec.skip(2)) as u32), ..acc };
            assert(sc_sec_step(acc, sec) == Some(a0));
            assert(ts_segs(o).skip(1) =~= Seq::<Seq<u8>>::empty());
            assert(fold_sc_secs(a0, Seq::<Seq<u8>>::empty()) == Some(a0));
            assert(fold_sc_secs(acc, ts_segs(o)) == Some(a0));
            assert(a0 =~= ScOpts { timestamp: Some(t), ..acc });
        },
        None => {},
    }
}

proof fn lemma_fold_sc_str(acc: ScOpts, sig: u8, o: Option<Seq<u8>>)
    requires
        sig == 0x68 || sig == 0x6d || sig == 0x63,
    ensures
        fold_sc_secs(acc, str_segs(sig, o)) == Some(
            match o {
                Some(v) => if sig == 0x68 {
                    ScOpts { hostname: Some(v), ..acc }
                } else if sig == 0x6d {
                    ScOpts { message: Some(v), ..acc }
                } else {
                    ScOpts { container_id: Some(v), ..acc }
                },
                None => acc,
            },
        ),
{
    match o {
        Some(v) => {
            let sec = seq![sig, 0x3au8] + v;
            assert(str_segs(sig, o)[0] == sec);
            assert(sec[0] == sig);
            assert(sec.len() >= 2);
            assert(sec.skip(2) =~= v);
            let a0 = sc_sec_step(acc, sec)->0;
            assert(sc_sec_step(acc, sec) is Some);
            assert(str_segs(sig, o).skip(1) =~= Seq::<Seq<u8>>::empty());
            assert(fold_sc_secs(a0, Seq::<Seq<u8>>::empty()) == Some(a0));
            assert(fold_sc_secs(acc, str_segs(sig, o)) == Some(a0));
            if sig == 0x68 {
                assert(a0 =~= ScOpts { hostname: Some(v), ..acc });
            } else if sig == 0x6d {
                assert(a0 =~= ScOpts { message: Some(v), ..acc });
            } else {
                assert(a0 =~= ScOpts { container_id: Some(v), ..acc });
            }
        },
        None => {},
    }
}

proof fn lemma_fold_sc_tags(acc: ScOpts, o: Option<Seq<Seq<u8>>>)
    requires
        wf_tags(o),
    ensures
        fold_sc_secs(acc, tag_segs(o)) == Some(
            match o {
                Some(ts) => ScOpts { tags: Some(ts), ..acc },
                None => acc,
            },
        ),
{
    match o {
        Some(ts) => {
            lemma_tag_segs_ok(o);
            let sec = seq![0x23u8] + join_with(ts, 0x2cu8);
            assert(tag_segs(o)[0] == sec);
            assert(sec[0] == 0x23);
            assert(sec.skip(1) =~= join_with(ts, 0x2cu8));
            assert(split_at(sec.skip(1), 0x2cu8) == ts);
            let a0 = ScOpts { tags: Some(split_at(sec.skip(1), 0x2cu8)), ..acc };
            assert(sc_sec_step(acc, sec) == Some(a0));
            assert(tag_segs(o).skip(1) =~= Seq::<Seq<u8>>::empty());
            assert(fold_sc_secs(a0, Seq::<Seq<u8>>::empty()) == Some(a0));
            assert(fold_sc_secs(acc, tag_segs(o)) == Some(a0));
            assert(a0 =~= ScOpts { tags: Some(ts), ..acc });
        },
        None => {},
    }
}

/// Decoding recovers a well-formed service check from its encoding.
#[verifier::rlimit(100)]
proof fn lemma_sc_roundtrip(s: ServiceCheckV)
    requires
        wf_service_check(s),
    ensures
        parse_datagram(enc_service_check(s)) == Some(DatagramV::ServiceCheck(s)),
{
    let lead = seq![0x5fu8, 0x73u8, 0x63u8];
    let st = dec_of_i32(s.status);
    assert(st =~= seq![(s.status + 0x30) as u8]);
    let segs = sc_segments(s);
    let base = seq![lead, s.name, st];
    assert(secs_ok(base)) by {
        crate::text::lemma_ascii_is_utf8(lead);
        lemma_dec_i32_ok(s.status);
        assert forall|i: int| 0 <= i < base.len() implies !(#[trigger] base[i]).contains(0x7cu8)
            && is_utf8(base[i]) by {
            if i == 0 {
                assert(base[i] == lead);
                if lead.contains(0x7cu8) {
                    let j = choose|j: int| 0 <= j < 3 && lead[j] == 0x7c;
                }
            } else if i == 1 {
                assert(base[i] == s.name);
            } else {
                assert(base[i] == st);
            }
        }
    }
    lemma_ts_segs_ok(s.timestamp);
    lemma_str_segs_ok(0x68u8, s.hostname);
    lemma_tag_segs_ok(s.tags);
    lemma_str_segs_ok(0x6du8, s.message);
    lemma_str_segs_ok(0x63u8, s.container_id);
    let s1 = ts_segs(s.timestamp);
    let s2 = str_segs(0x68u8, s.hostname);
    let s3 = tag_segs(s.tags);
    let s4 = str_segs(0x6du8, s.message);
    let s5 = str_segs(0x63u8, s.container_id);
    lemma_secs_ok_app(base, s1);
    lemma_secs_ok_app(base + s1, s2);
    lemma_secs_ok_app(base + s1 + s2, s3);
    lemma_secs_ok_app(base + s1 + s2 + s3, s4);
    lemma_secs_ok_app(base + s1 + s2 + s3 + s4, s5);
    assert(secs_ok(segs));
    assert(segs.len() >= 3);
    lemma_sections_split(segs);
    let d = enc_service_check(s);
    assert(split_at(d, 0x7cu8) == segs);
    assert(segs[0] == lead);
    assert(segs[1] == s.name);
    assert(segs[2] == st);
    assert(d == segs[0] + seq![0x7cu8] + join_with(segs.skip(1), 0x7cu8));
    assert(d.len() >= 2);
    assert(d[0] == lead[0] && d[1] == lead[1]);
    assert(d[0] == 0x5f && d[1] == 0x73);
    assert(st.len() == 1 && 0x30 <= st[0] <= 0x33);
    assert(st[0] - 0x30 == s.status);

    let init = empty_sc_opts();
    assert(segs.skip(3) =~= s1 + (s2 + (s3 + (s4 + s5))));
    lemma_fold_sc_app(init, s1, s2 + (s3 + (s4 + s5)));
    lemma_fold_sc_ts(init, s.timestamp);
    let a1 = ScOpts { timestamp: s.timestamp, ..init };
    assert(fold_sc_secs(init, s1) matches Some(a) && a =~= a1);
    lemma_fold_sc_app(a1, s2, s3 + (s4 + s5));
    lemma_fold_sc_str(a1, 0x68u8, s.hostname);
    let a2 = ScOpts { hostname: s.hostname, ..a1 };
    assert(fold_sc_secs(a1, s2) matches Some(a) && a =~= a2);
    lemma_fold_sc_app(a2, s3, s4 + s5);
    lemma_fold_sc_tags(a2, s.tags);
    let a3 = ScOpts { tags: s.tags, ..a2 };
    assert(fold_sc_secs(a2, s3) matches Some(a) && a =~= a3);
    lemma_fold_sc_app(a3, s4, s5);
    lemma_fold_sc_str(a3, 0x6du8, s.message);
    let a4 = ScOpts { message: s.message, ..a3 };
    assert(fold_sc_secs(a3, s4) matches Some(a) && a =~= a4);
    lemma_fold_sc_str(a4, 0x63u8, s.container_id);
    let a5 = ScOpts { container_id: s.container_id, ..a4 };
    assert(fold_sc_secs(a4, s5) matches Some(a) && a =~= a5);
    assert(fold_sc_secs(init, segs.skip(3)) == Some(a5));
    assert(parse_service_check(d) matches Some(ps) && ps =~= s);
}

/// Decoding a well-formed record's encoding recovers the record: the
/// decode-after-encode direction of the codec's round-trip law.
pub proof fn lemma_decode_encode(m: DatagramV)
    requires
        wf_datagram(m),
    ensures
        parse_datagram(enc_datagram(m)) == Some(m),
{
    match m {
        DatagramV::Metric(mv) => lemma_metric_roundtrip(mv),
        DatagramV::Event(ev) => lemma_event_roundtrip(ev),
        DatagramV::ServiceCheck(sv) => lemma_sc_roundtrip(sv),
    }
}

/// The round-trip law: every canonical datagram — one that the encoder
/// produces from some well-formed record — decodes successfully, and
/// encoding the decoded record reproduces the datagram byte for byte.
pub proof fn lemma_encode_decode(d: Seq<u8>)
    requires
        canonical(d),
    ensures
        parse_datagram(d) is Some,
        enc_datagram(parse_datagram(d)->0) == d,
{
    let m = choose|m: DatagramV| wf_datagram(m) && d == enc_datagram(m);
    lemma_decode_encode(m);
}

} // verus!
