//! The binary wire encoding of a write request and its compression.
//!
//! The message layout is fixed by the protocol: `Label { 1: string name;
//! 2: string value }`, `Sample { 1: double value; 2: int64 timestamp }`,
//! `TimeSeries { 1: repeated Label; 2: repeated Sample }`, `WriteRequest
//! { 1: repeated TimeSeries }`. Fields holding their default value (empty
//! text, a zero bit pattern, a zero timestamp) are omitted; every element of
//! a repeated field is written. The encoded bytes are compressed with raw
//! snappy before transport.

use crate::convert::spec_convert;
use crate::types::{canon_all, views_of, Label, Sample, SpecLabel, SpecTimeSeries, TimeSeries,
    WriteRequest};
use vstd::prelude::*;
use vstd::utf8::encode_utf8;

verus! {

/// Base-128 varint encoding, low group first, high bit marking continuation.
pub open spec fn spec_varint(n: nat) -> Seq<u8>
    decreases n,
{
    if n < 0x80 {
        seq![n as u8]
    } else {
        seq![(n % 0x80 + 0x80) as u8] + spec_varint(n / 0x80)
    }
}

/// The low `k` bytes of `n`, least significant first.
pub open spec fn spec_le_bytes(n: nat, k: nat) -> Seq<u8>
    decreases k,
{
    if k == 0 {
        Seq::empty()
    } else {
        seq![(n % 0x100) as u8] + spec_le_bytes(n / 0x100, (k - 1) as nat)
    }
}

/// A timestamp reinterpreted as the unsigned 64-bit value the varint carries.
pub open spec fn ts_u64(t: i64) -> nat {
    if t >= 0 {
        t as nat
    } else {
        (t + 0x1_0000_0000_0000_0000) as nat
    }
}

/// One length-delimited field: its tag byte, the payload length, the payload.
pub open spec fn field_msg(tag: u8, payload: Seq<u8>) -> Seq<u8> {
    seq![tag] + spec_varint(payload.len() as nat) + payload
}

/// One string field, omitted when the text is empty.
pub open spec fn str_field(tag: u8, s: Seq<char>) -> Seq<u8> {
    if encode_utf8(s).len() == 0 {
        Seq::empty()
    } else {
        field_msg(tag, encode_utf8(s))
    }
}

/// The payload of one label message.
pub open spec fn spec_encode_label(l: SpecLabel) -> Seq<u8> {
    str_field(0x0a, l.name) + str_field(0x12, l.value)
}

/// The payload of one sample message: the value as eight little-endian bytes
/// of its bit pattern, the timestamp as a varint; zeroes are omitted.
pub open spec fn spec_encode_sample(s: Sample) -> Seq<u8> {
    (if s.value_bits == 0 {
        Seq::empty()
    } else {
        seq![0x09u8] + spec_le_bytes(s.value_bits as nat, 8)
    }) + (if s.timestamp == 0 {
        Seq::empty()
    } else {
        seq![0x10u8] + spec_varint(ts_u64(s.timestamp))
    })
}

pub open spec fn cat_label_fields(ls: Seq<SpecLabel>) -> Seq<u8>
    decreases ls.len(),
{
    if ls.len() == 0 {
        Seq::empty()
    } else {
        field_msg(0x0a, spec_encode_label(ls[0])) + cat_label_fields(ls.drop_first())
    }
}

pub open spec fn cat_sample_fields(ss: Seq<Sample>) -> Seq<u8>
    decreases ss.len(),
{
    if ss.len() == 0 {
        Seq::empty()
    } else {
        field_msg(0x12, spec_encode_sample(ss[0])) + cat_sample_fields(ss.drop_first())
    }
}

/// The payload of one time-series message.
pub open spec fn spec_encode_series(t: SpecTimeSeries) -> Seq<u8> {
    cat_label_fields(t.labels) + cat_sample_fields(t.samples)
}

/// The whole write-request message: one length-delimited field per series.
/// An empty request encodes to no bytes at all.
pub open spec fn spec_encode_request(ts: Seq<SpecTimeSeries>) -> Seq<u8>
    decreases ts.len(),
{
    if ts.len() == 0 {
        Seq::empty()
    } else {
        field_msg(0x0a, spec_encode_series(ts[0])) + spec_encode_request(ts.drop_first())
    }
}

proof fn lemma_cat_labels_snoc(ls: Seq<SpecLabel>, j: int)
    requires
        0 <= j < ls.len(),
    ensures
        cat_label_fields(ls.take(j + 1)) == cat_label_fields(ls.take(j)) + field_msg(
            0x0a,
            spec_encode_label(ls[j]),
        ),
    decreases j,
{
    reveal_with_fuel(cat_label_fields, 3);
    let g = field_msg(0x0a, spec_encode_label(ls[j]));
    if j == 0 {
        assert(ls.take(1) =~= seq![ls[0]]);
        assert(ls.take(1).drop_first() =~= Seq::<SpecLabel>::empty());
        assert(ls.take(0) =~= Seq::<SpecLabel>::empty());
        assert(g + Seq::<u8>::empty() =~= g);
        assert(Seq::<u8>::empty() + g =~= g);
    } else {
        let d = ls.drop_first();
        let h = field_msg(0x0a, spec_encode_label(ls[0]));
        lemma_cat_labels_snoc(d, j - 1);
        assert(ls.take(j + 1).drop_first() =~= d.take(j));
        assert(ls.take(j).drop_first() =~= d.take(j - 1));
        assert(ls.take(j + 1)[0] == ls[0]);
        assert(ls.take(j)[0] == ls[0]);
        assert(d[j - 1] == ls[j]);
        assert((h + cat_label_fields(d.take(j - 1))) + g =~= h + (cat_label_fields(d.take(j - 1))
            + g));
    }
}

proof fn lemma_cat_samples_snoc(ss: Seq<Sample>, j: int)
    requires
        0 <= j < ss.len(),
    ensures
        cat_sample_fields(ss.take(j + 1)) == cat_sample_fields(ss.take(j)) + field_msg(
            0x12,
            spec_encode_sample(ss[j]),
        ),
    decreases j,
{
    reveal_with_fuel(cat_sample_fields, 3);
    let g = field_msg(0x12, spec_encode_sample(ss[j]));
    if j == 0 {
        assert(ss.take(1) =~= seq![ss[0]]);
        assert(ss.take(1).drop_first() =~= Seq::<Sample>::empty());
        assert(ss.take(0) =~= Seq::<Sample>::empty());
        assert(g + Seq::<u8>::empty() =~= g);
        assert(Seq::<u8>::empty() + g =~= g);
    } else {
        let d = ss.drop_first();
        let h = field_msg(0x12, spec_encode_sample(ss[0]));
        lemma_cat_samples_snoc(d, j - 1);
        assert(ss.take(j + 1).drop_first() =~= d.take(j));
        assert(ss.take(j).drop_first() =~= d.take(j - 1));
        assert(ss.take(j + 1)[0] == ss[0]);
        assert(ss.take(j)[0] == ss[0]);
        assert(d[j - 1] == ss[j]);
        assert((h + cat_sample_fields(d.take(j - 1))) + g =~= h + (cat_sample_fields(d.take(j - 1))
            + g));
    }
}

proof fn lemma_encode_request_snoc(ts: Seq<SpecTimeSeries>, j: int)
    requires
        0 <= j < ts.len(),
    ensures
        spec_encode_request(ts.take(j + 1)) == spec_encode_request(ts.take(j)) + field_msg(
            0x0a,
            spec_encode_series(ts[j]),
        ),
    decreases j,
{
    reveal_with_fuel(spec_encode_request, 3);
    let g = field_msg(0x0a, spec_encode_series(ts[j]));
    if j == 0 {
        assert(ts.take(1) =~= seq![ts[0]]);
        assert(ts.take(1).drop_first() =~= Seq::<SpecTimeSeries>::empty());
        assert(ts.take(0) =~= Seq::<SpecTimeSeries>::empty());
        assert(g + Seq::<u8>::empty() =~= g);
        assert(Seq::<u8>::empty() + g =~= g);
    } else {
        let d = ts.drop_first();
        let h = field_msg(0x0a, spec_encode_series(ts[0]));
        lemma_encode_request_snoc(d, j - 1);
        assert(ts.take(j + 1).drop_first() =~= d.take(j));
        assert(ts.take(j).drop_first() =~= d.take(j - 1));
        assert(ts.take(j + 1)[0] == ts[0]);
        assert(ts.take(j)[0] == ts[0]);
        assert(d[j - 1] == ts[j]);
        assert((h + spec_encode_request(d.take(j - 1))) + g =~= h + (spec_encode_request(
            d.take(j - 1),
        ) + g));
    }
}

#[verifier::loop_isolation(false)]
fn push_varint(out: &mut Vec<u8>, n: u64)
    ensures
        final(out)@ == old(out)@ + spec_varint(n as nat),
{
    let mut m = n;
    loop
        invariant
            out@ + spec_varint(m as nat) == old(out)@ + spec_varint(n as nat),
        decreases m,
    {
        if m < 0x80 {
            let ghost pre = out@;
            out.push(m as u8);
            proof {
                assert(out@ =~= pre + seq![m as u8]);
                assert(spec_varint(m as nat) == seq![m as u8]);
                assert((pre + seq![m as u8]) + Seq::<u8>::empty() =~= pre + seq![m as u8]);
                assert(out@ + Seq::<u8>::empty() =~= out@);
                assert(out@ =~= old(out)@ + spec_varint(n as nat));
            }
            return ;
        }
        let b: u8 = ((m % 0x80) + 0x80) as u8;
        let ghost pre = out@;
        out.push(b);
        proof {
            assert(spec_varint(m as nat) == seq![b] + spec_varint((m as nat) / 0x80));
            assert(out@ =~= pre + seq![b]);
            assert((pre + seq![b]) + spec_varint((m as nat) / 0x80) =~= pre + (seq![b]
                + spec_varint((m as nat) / 0x80)));
            assert((m / 0x80) as nat == (m as nat) / 0x80);
            assert(m / 0x80 < m) by (nonlinear_arith)
                requires
                    m >= 0x80,
            ;
        }
        m = m / 0x80;
    }
}

#[verifier::loop_isolation(false)]
fn push_le8(out: &mut Vec<u8>, n: u64)
    ensures
        final(out)@ == old(out)@ + spec_le_bytes(n as nat, 8),
{
    let mut m = n;
    let mut k: usize = 8;
    while k > 0
        invariant
            0 <= k <= 8,
            out@ + spec_le_bytes(m as nat, k as nat) == old(out)@ + spec_le_bytes(n as nat, 8),
        decreases k,
    {
        let b: u8 = (m % 0x100) as u8;
        let ghost pre = out@;
        out.push(b);
        proof {
            assert(spec_le_bytes(m as nat, k as nat) == seq![b] + spec_le_bytes(
                (m as nat) / 0x100,
                (k - 1) as nat,
            ));
            assert(out@ =~= pre + seq![b]);
            assert((pre + seq![b]) + spec_le_bytes((m as nat) / 0x100, (k - 1) as nat) =~= pre + (
            seq![b] + spec_le_bytes((m as nat) / 0x100, (k - 1) as nat)));
            assert((m / 0x100) as nat == (m as nat) / 0x100);
        }
        m = m / 0x100;
        k = k - 1;
    }
    proof {
        assert(spec_le_bytes(m as nat, 0) == Seq::<u8>::empty());
        assert(out@ + Seq::<u8>::empty() =~= out@);
    }
}

/// The timestamp as the unsigned value its varint carries: two's complement.
fn ts_to_u64(t: i64) -> (r: u64)
    ensures
        r as nat == ts_u64(t),
{
    if t >= 0 {
        t as u64
    } else {
        let neg: i64 = -(t + 1);
        u64::MAX - (neg as u64)
    }
}

#[verifier::loop_isolation(false)]
fn push_str_field(out: &mut Vec<u8>, tag: u8, s: &String)
    ensures
        final(out)@ == old(out)@ + str_field(tag, s@),
{
    if s.as_str().unicode_len() == 0 {
        proof {
            assert(s@ =~= Seq::<char>::empty());
            assert(encode_utf8(s@).len() == 0) by {
                reveal_with_fuel(encode_utf8, 2);
            }
            assert(out@ + Seq::<u8>::empty() =~= out@);
        }
        return ;
    }
    proof {
        assert(encode_utf8(s@).len() > 0) by {
            reveal_with_fuel(encode_utf8, 2);
            assert(vstd::utf8::encode_scalar(s@[0] as u32).len() >= 1);
        }
    }
    let mut bs = s.as_str().as_bytes_vec();
    let ghost p0 = out@;
    out.push(tag);
    push_varint(out, bs.len() as u64);
    let ghost p1 = out@;
    out.append(&mut bs);
    proof {
        assert(p0.push(tag) =~= p0 + seq![tag]);
        assert(p1 =~= p0 + seq![tag] + spec_varint(encode_utf8(s@).len() as nat));
        assert(out@ =~= p1 + encode_utf8(s@));
        assert(out@ =~= p0 + (seq![tag] + spec_varint(encode_utf8(s@).len() as nat) + encode_utf8(
            s@,
        )));
    }
}

fn encode_label_msg(l: &Label) -> (r: Vec<u8>)
    ensures
        r@ == spec_encode_label(l@),
{
    let mut out: Vec<u8> = Vec::new();
    push_str_field(&mut out, 0x0a, &l.name);
    push_str_field(&mut out, 0x12, &l.value);
    proof {
        assert(out@ =~= str_field(0x0a, l.name@) + str_field(0x12, l.value@));
    }
    out
}

fn encode_sample_msg(s: &Sample) -> (r: Vec<u8>)
    ensures
        r@ == spec_encode_sample(*s),
{
    let mut out: Vec<u8> = Vec::new();
    if s.value_bits != 0 {
        out.push(0x09);
        push_le8(&mut out, s.value_bits);
    }
    let ghost p0 = out@;
    if s.timestamp != 0 {
        out.push(0x10);
        let tsu = ts_to_u64(s.timestamp);
        push_varint(&mut out, tsu);
        proof {
            assert(out@ =~= p0 + (seq![0x10u8] + spec_varint(ts_u64(s.timestamp))));
        }
    }
    proof {
        assert(out@ =~= spec_encode_sample(*s));
    }
    out
}

#[verifier::loop_isolation(false)]
fn push_field_msg(out: &mut Vec<u8>, tag: u8, payload: Vec<u8>)
    ensures
        final(out)@ == old(out)@ + field_msg(tag, payload@),
{
    let ghost p0 = out@;
    out.push(tag);
    push_varint(out, payload.len() as u64);
    let ghost p1 = out@;
    let mut p = payload;
    out.append(&mut p);
    proof {
        assert(out@ =~= p0 + (seq![tag] + spec_varint(payload@.len() as nat) + payload@));
    }
}

#[verifier::loop_isolation(false)]
fn encode_series_msg(t: &TimeSeries) -> (r: Vec<u8>)
    ensures
        r@ == spec_encode_series(t@),
{
    let ghost ls = views_of(t.labels@);
    let mut out: Vec<u8> = Vec::new();
    let mut i: usize = 0;
    while i < t.labels.len()
        invariant
            0 <= i <= t.labels.len(),
            out@ == cat_label_fields(ls.take(i as int)),
        decreases t.labels.len() - i,
    {
        let msg = encode_label_msg(&t.labels[i]);
        proof {
            lemma_cat_labels_snoc(ls, i as int);
            assert(ls[i as int] == t.labels@[i as int]@);
        }
        push_field_msg(&mut out, 0x0a, msg);
        i += 1;
    }
    proof {
        assert(ls.take(ls.len() as int) =~= ls);
    }
    let ghost half = out@;
    let mut j: usize = 0;
    while j < t.samples.len()
        invariant
            0 <= j <= t.samples.len(),
            out@ == half + cat_sample_fields(t.samples@.take(j as int)),
        decreases t.samples.len() - j,
    {
        let msg = encode_sample_msg(&t.samples[j]);
        proof {
            lemma_cat_samples_snoc(t.samples@, j as int);
        }
        push_field_msg(&mut out, 0x12, msg);
        proof {
            assert((half + cat_sample_fields(t.samples@.take(j as int))) + field_msg(
                0x12,
                spec_encode_sample(t.samples@[j as int]),
            ) =~= half + cat_sample_fields(t.samples@.take(j + 1)));
        }
        j += 1;
    }
    proof {
        assert(t.samples@.take(t.samples@.len() as int) =~= t.samples@);
        assert(half + Seq::<u8>::empty() =~= half);
    }
    out
}

/// What raw snappy compression returns for given bytes: a pure function of
/// the input.
pub uninterp spec fn snappy_of(data: Seq<u8>) -> Seq<u8>;

#[verifier::external_type_specification]
#[verifier::external_body]
pub struct ExSnapError(snap::Error);

/// Encoding or transport assembly failed.
#[derive(Debug, Clone, Copy, PartialEq, Eq, Structural)]
pub enum EncodeError {
    /// The compressor refused the payload: it is larger than the snappy
    /// format admits.
    Compression,
}

/// Relies on snap::raw::Encoder::compress_vec: raw snappy compression is a
/// pure function of the input bytes, and succeeds whenever the input is
/// within the format's size limit (its source refuses only inputs whose
/// worst-case compressed size would overflow a 32-bit length).
#[verifier::external_body]
fn snappy_compress(data: &Vec<u8>) -> (r: Result<Vec<u8>, snap::Error>)
    ensures
        r matches Ok(v) ==> v@ == snappy_of(data@),
        data@.len() <= 0xd000_0000 ==> r is Ok,
{
    snap::raw::Encoder::new().compress_vec(data.as_slice())
}

impl WriteRequest {
    /// Encode the request as the protocol's binary message, canonicalizing
    /// it first. The wire format requires the result to be compressed before
    /// transport.
    #[verifier::loop_isolation(false)]
    pub fn encode_proto3(self) -> (r: Vec<u8>)
        ensures
            r@ == spec_encode_request(canon_all(self@)),
    {
        let w = self.sorted();
        let ghost ts = w@;
        let mut out: Vec<u8> = Vec::new();
        let mut i: usize = 0;
        while i < w.timeseries.len()
            invariant
                0 <= i <= w.timeseries.len(),
                ts == w@,
                out@ == spec_encode_request(ts.take(i as int)),
            decreases w.timeseries.len() - i,
        {
            let msg = encode_series_msg(&w.timeseries[i]);
            proof {
                lemma_encode_request_snoc(ts, i as int);
                assert(ts[i as int] == w.timeseries@[i as int]@);
            }
            push_field_msg(&mut out, 0x0a, msg);
            i += 1;
        }
        proof {
            assert(ts.take(ts.len() as int) =~= ts);
        }
        out
    }

    /// Encode the request and compress the bytes with raw snappy, as the
    /// wire protocol mandates. Fails only when the encoded payload is larger
    /// than the snappy format admits.
    pub fn encode_compressed(self) -> (r: Result<Vec<u8>, EncodeError>)
        ensures
            r matches Ok(v) ==> v@ == snappy_of(spec_encode_request(canon_all(self@))),
            spec_encode_request(canon_all(self@)).len() <= 0xd000_0000 ==> r is Ok,
            r is Err ==> r->Err_0 == EncodeError::Compression && spec_encode_request(
                canon_all(self@),
            ).len() > 0xd000_0000,
    {
        let bytes = self.encode_proto3();
        match snappy_compress(&bytes) {
            Ok(v) => Ok(v),
            Err(_) => Err(EncodeError::Compression),
        }
    }
}

} // verus!
