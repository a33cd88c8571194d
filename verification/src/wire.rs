//! The wire codec: a deterministic, self-describing binary record for one
//! metric, written and parsed losslessly.
//!
//! A record is laid out as: a length-prefixed name (empty when written here:
//! no name is known at encoding time), the 64-bit wire pattern of the
//! aggregate value, a type-discriminated payload, an optional timestamp, and
//! an optional metadata block (sampling rate and update counter).  All
//! integers are little-endian.

use vstd::bytes::{
    lemma_auto_spec_u32_to_from_le_bytes, lemma_auto_spec_u64_to_from_le_bytes,
    spec_u32_from_le_bytes, spec_u32_to_le_bytes, spec_u64_from_le_bytes, spec_u64_to_le_bytes,
    u32_from_le_bytes, u32_to_le_bytes, u64_from_le_bytes, u64_to_le_bytes,
};
use vstd::prelude::*;
use vstd::slice::{slice_subrange, slice_to_vec};

use crate::metric::{
    extend_keys, no_dups, same_metric, union_keys, Metric, MetricError, MetricType,
};
use crate::scalar::Scalar;

verus! {

/// Discriminant of a counter payload.
pub const TAG_COUNTER: u8 = 0;

/// Discriminant of a delta-counter payload.
pub const TAG_DIFF_COUNTER: u8 = 1;

/// Discriminant of a gauge payload.
pub const TAG_GAUGE: u8 = 2;

/// Discriminant of a timer payload.
pub const TAG_TIMER: u8 = 3;

/// Discriminant of a set payload.
pub const TAG_SET: u8 = 4;

/// The metadata block of a record: the optional sampling rate (bit pattern
/// of its single-precision encoding) and the update counter.
#[verifier::ext_equal]
pub struct Meta {
    pub sampling: Option<u32>,
    pub update_counter: u32,
}

/// The type-discriminated payload of a record, over plain wire values.
#[verifier::ext_equal]
pub enum Payload {
    Counter,
    DiffCounter(u64),
    Gauge(Option<i8>),
    Timer(Seq<u64>),
    ValueSet(Seq<u64>),
}

/// One parsed record: what the bytes of an encoded metric say.
#[verifier::ext_equal]
pub struct Record {
    pub name: Seq<u8>,
    pub value_bits: u64,
    pub payload: Payload,
    pub timestamp: Option<u64>,
    pub meta: Option<Meta>,
}

/// How a parse fails: a malformed record, or a discriminant value not
/// present in the schema.
pub enum Fault {
    Malformed,
    Schema,
}

/// The error a parse fault is reported as.
pub open spec fn fault_error(f: Fault) -> MetricError {
    match f {
        Fault::Malformed => MetricError::Capnp,
        Fault::Schema => MetricError::CapnpSchema,
    }
}

/// The bytes of a sequence of 64-bit words, each little-endian.
pub open spec fn enc_u64s(s: Seq<u64>) -> Seq<u8>
    decreases s.len(),
{
    if s.len() == 0 {
        Seq::empty()
    } else {
        spec_u64_to_le_bytes(s[0]) + enc_u64s(s.drop_first())
    }
}

/// The bytes of a length-prefixed list of 64-bit words.
pub open spec fn enc_list(s: Seq<u64>) -> Seq<u8> {
    spec_u32_to_le_bytes(s.len() as u32) + enc_u64s(s)
}

/// The byte a signed gauge direction is carried as: its two's complement.
pub open spec fn byte_of_i8(s: i8) -> u8 {
    if s >= 0 {
        s as u8
    } else {
        ((s as int) + 256) as u8
    }
}

/// The signed gauge direction a byte decodes to: the inverse of
/// `byte_of_i8`.
pub open spec fn i8_of_byte(x: u8) -> i8 {
    if x < 128 {
        x as i8
    } else {
        ((x as int) - 256) as i8
    }
}

/// The bytes of a payload: its tag followed by its data.
pub open spec fn enc_payload(p: Payload) -> Seq<u8> {
    match p {
        Payload::Counter => seq![TAG_COUNTER],
        Payload::DiffCounter(b) => seq![TAG_DIFF_COUNTER] + spec_u64_to_le_bytes(b),
        Payload::Gauge(d) => (match d {
            None => seq![TAG_GAUGE, 0u8],
            Some(s) => seq![TAG_GAUGE, 1u8, byte_of_i8(s)],
        }),
        Payload::Timer(s) => seq![TAG_TIMER] + enc_list(s),
        Payload::ValueSet(s) => seq![TAG_SET] + enc_list(s),
    }
}

/// The bytes of the optional timestamp: a presence byte, then the value.
pub open spec fn enc_timestamp(o: Option<u64>) -> Seq<u8> {
    match o {
        None => seq![0u8],
        Some(x) => seq![1u8] + spec_u64_to_le_bytes(x),
    }
}

/// The bytes of the optional metadata block.
pub open spec fn enc_meta(m: Option<Meta>) -> Seq<u8> {
    match m {
        None => seq![0u8],
        Some(me) => seq![1u8] + (match me.sampling {
            None => seq![0u8],
            Some(x) => seq![1u8] + spec_u32_to_le_bytes(x),
        }) + spec_u32_to_le_bytes(me.update_counter),
    }
}

/// The bytes of a whole record.
pub open spec fn enc_record(r: Record) -> Seq<u8> {
    spec_u32_to_le_bytes(r.name.len() as u32) + r.name + spec_u64_to_le_bytes(r.value_bits)
        + enc_payload(r.payload) + enc_timestamp(r.timestamp) + enc_meta(r.meta)
}

/// Whether `n` bytes can be read at offset `i` of `b`.
pub open spec fn can_read(b: Seq<u8>, i: int, n: int) -> bool {
    0 <= i && 0 <= n && i + n <= b.len()
}

/// The little-endian 32-bit word at offset `i` of `b`.
pub open spec fn rd_u32(b: Seq<u8>, i: int) -> u32 {
    spec_u32_from_le_bytes(b.subrange(i, i + 4))
}

/// The little-endian 64-bit word at offset `i` of `b`.
pub open spec fn rd_u64(b: Seq<u8>, i: int) -> u64 {
    spec_u64_from_le_bytes(b.subrange(i, i + 8))
}

/// The `n` little-endian 64-bit words starting at offset `i` of `b`.
pub open spec fn rd_u64s(b: Seq<u8>, i: int, n: int) -> Seq<u64>
    decreases n,
{
    if n <= 0 {
        Seq::empty()
    } else {
        seq![rd_u64(b, i)] + rd_u64s(b, i + 8, n - 1)
    }
}

/// Parse a length-prefixed list of 64-bit words at offset `i`.
pub open spec fn parse_list(b: Seq<u8>, i: int) -> Result<(Seq<u64>, int), Fault> {
    if !can_read(b, i, 4) {
        Err(Fault::Malformed)
    } else {
        let n = rd_u32(b, i) as int;
        if !can_read(b, i + 4, 8 * n) {
            Err(Fault::Malformed)
        } else {
            Ok((rd_u64s(b, i + 4, n), i + 4 + 8 * n))
        }
    }
}

/// Parse the payload at offset `i`: its tag, then its data.
pub open spec fn parse_payload(b: Seq<u8>, i: int) -> Result<(Payload, int), Fault> {
    if !can_read(b, i, 1) {
        Err(Fault::Malformed)
    } else {
        let tag = b[i];
        if tag == TAG_COUNTER {
            Ok((Payload::Counter, i + 1))
        } else if tag == TAG_DIFF_COUNTER {
            if !can_read(b, i + 1, 8) {
                Err(Fault::Malformed)
            } else {
                Ok((Payload::DiffCounter(rd_u64(b, i + 1)), i + 9))
            }
        } else if tag == TAG_GAUGE {
            if !can_read(b, i + 1, 1) {
                Err(Fault::Malformed)
            } else {
                let g = b[i + 1];
                if g == 0 {
                    Ok((Payload::Gauge(None), i + 2))
                } else if g == 1 {
                    if !can_read(b, i + 2, 1) {
                        Err(Fault::Malformed)
                    } else {
                        Ok((Payload::Gauge(Some(i8_of_byte(b[i + 2]))), i + 3))
                    }
                } else {
                    Err(Fault::Schema)
                }
            }
        } else if tag == TAG_TIMER {
            match parse_list(b, i + 1) {
                Ok((s, j)) => Ok((Payload::Timer(s), j)),
                Err(f) => Err(f),
            }
        } else if tag == TAG_SET {
            match parse_list(b, i + 1) {
                Ok((s, j)) => Ok((Payload::ValueSet(s), j)),
                Err(f) => Err(f),
            }
        } else {
            Err(Fault::Schema)
        }
    }
}

/// Parse the optional timestamp at offset `i`.
pub open spec fn parse_timestamp(b: Seq<u8>, i: int) -> Result<(Option<u64>, int), Fault> {
    if !can_read(b, i, 1) {
        Err(Fault::Malformed)
    } else {
        let f = b[i];
        if f == 0 {
            Ok((None, i + 1))
        } else if f == 1 {
            if !can_read(b, i + 1, 8) {
                Err(Fault::Malformed)
            } else {
                Ok((Some(rd_u64(b, i + 1)), i + 9))
            }
        } else {
            Err(Fault::Malformed)
        }
    }
}

/// Parse the optional metadata block at offset `i`.
pub open spec fn parse_meta(b: Seq<u8>, i: int) -> Result<(Option<Meta>, int), Fault> {
    if !can_read(b, i, 1) {
        Err(Fault::Malformed)
    } else {
        let f = b[i];
        if f == 0 {
            Ok((None, i + 1))
        } else if f == 1 {
            if !can_read(b, i + 1, 1) {
                Err(Fault::Malformed)
            } else {
                let sf = b[i + 1];
                if sf == 0 {
                    if !can_read(b, i + 2, 4) {
                        Err(Fault::Malformed)
                    } else {
                        Ok((Some(Meta { sampling: None, update_counter: rd_u32(b, i + 2) }), i + 6))
                    }
                } else if sf == 1 {
                    if !can_read(b, i + 2, 8) {
                        Err(Fault::Malformed)
                    } else {
                        Ok(
                            (
                                Some(
                                    Meta {
                                        sampling: Some(rd_u32(b, i + 2)),
                                        update_counter: rd_u32(b, i + 6),
                                    },
                                ),
                                i + 10,
                            ),
                        )
                    }
                } else {
                    Err(Fault::Malformed)
                }
            }
        } else {
            Err(Fault::Malformed)
        }
    }
}

/// Parse a whole record: every byte of `b` must be consumed.
pub open spec fn parse_record(b: Seq<u8>) -> Result<Record, Fault> {
    if !can_read(b, 0, 4) {
        Err(Fault::Malformed)
    } else {
        let nl = rd_u32(b, 0) as int;
        if !can_read(b, 4, nl) {
            Err(Fault::Malformed)
        } else {
            let name = b.subrange(4, 4 + nl);
            if !can_read(b, 4 + nl, 8) {
                Err(Fault::Malformed)
            } else {
                let value_bits = rd_u64(b, 4 + nl);
                match parse_payload(b, 12 + nl) {
                    Err(f) => Err(f),
                    Ok((payload, i1)) => match parse_timestamp(b, i1) {
                        Err(f) => Err(f),
                        Ok((timestamp, i2)) => match parse_meta(b, i2) {
                            Err(f) => Err(f),
                            Ok((meta, i3)) => {
                                if i3 == b.len() {
                                    Ok(Record { name, value_bits, payload, timestamp, meta })
                                } else {
                                    Err(Fault::Malformed)
                                }
                            },
                        },
                    },
                }
            }
        }
    }
}

/// The record an encoded metric is written as: empty name, the value's wire
/// pattern, the payload over wire patterns, and an always-present metadata
/// block.
pub open spec fn wire_of<F: Scalar>(m: Metric<F>) -> Record {
    Record {
        name: Seq::empty(),
        value_bits: m.value.wire_spec(),
        payload: (match m.mtype {
            MetricType::Counter => Payload::Counter,
            MetricType::DiffCounter(p) => Payload::DiffCounter(p.wire_spec()),
            MetricType::Gauge(d) => Payload::Gauge(d),
            MetricType::Timer(v) => Payload::Timer(v@.map(|k: int, x: F| x.wire_spec())),
            MetricType::ValueSet(v) => Payload::ValueSet(v@),
        }),
        timestamp: m.timestamp,
        meta: Some(Meta { sampling: m.sampling, update_counter: m.update_counter }),
    }
}

/// The bytes a metric encodes to.
pub open spec fn record_bytes<F: Scalar>(m: Metric<F>) -> Seq<u8> {
    enc_record(wire_of(m))
}

/// Whether a metric's variable-length state fits the record's length fields.
pub open spec fn encodable<F: Scalar>(m: Metric<F>) -> bool {
    &&& (m.mtype is Timer ==> m.mtype->Timer_0@.len() <= u32::MAX)
    &&& (m.mtype is ValueSet ==> m.mtype->ValueSet_0@.len() <= u32::MAX)
}

/// Whether a metric is well formed: its lengths fit the record's length
/// fields and its set keys are distinct.
pub open spec fn wf_metric<F: Scalar>(m: Metric<F>) -> bool {
    &&& encodable(m)
    &&& (m.mtype is ValueSet ==> no_dups(m.mtype->ValueSet_0@))
}

/// Whether a parsed payload describes an aggregation state: the state is
/// what the payload's wire values decode to, a set deduplicated in key
/// order.
pub open spec fn payload_describes<F: Scalar>(p: Payload, t: MetricType<F>) -> bool {
    match p {
        Payload::Counter => t is Counter,
        Payload::DiffCounter(pb) => t == MetricType::DiffCounter(F::unwire_spec(pb)),
        Payload::Gauge(d) => t == MetricType::<F>::Gauge(d),
        Payload::Timer(bits) => (t is Timer && t->Timer_0@ == bits.map(
            |k: int, x: u64| F::unwire_spec(x),
        )),
        Payload::ValueSet(bits) => (t is ValueSet && t->ValueSet_0@ == union_keys(
            Seq::empty(),
            bits,
        )),
    }
}

/// Whether a parsed record describes a metric: every field of the metric is
/// what the record's wire values decode to, with the update counter
/// defaulting to 1 and the sampling rate to absent when the metadata block
/// is missing.
pub open spec fn describes<F: Scalar>(r: Record, m: Metric<F>) -> bool {
    &&& m.value == F::unwire_spec(r.value_bits)
    &&& payload_describes(r.payload, m.mtype)
    &&& m.timestamp == r.timestamp
    &&& (match r.meta {
        Some(me) => m.update_counter == me.update_counter && m.sampling == me.sampling,
        None => m.update_counter == 1 && m.sampling is None,
    })
}

/// Append the little-endian bytes of `x` to `out`.
fn write_u32(out: &mut Vec<u8>, x: u32)
    ensures
        final(out)@ == old(out)@ + spec_u32_to_le_bytes(x),
{
    let mut t = u32_to_le_bytes(x);
    out.append(&mut t);
}

/// Append the little-endian bytes of `x` to `out`.
fn write_u64(out: &mut Vec<u8>, x: u64)
    ensures
        final(out)@ == old(out)@ + spec_u64_to_le_bytes(x),
{
    let mut t = u64_to_le_bytes(x);
    out.append(&mut t);
}

/// Read the little-endian 32-bit word at offset `i`.
fn read_u32_at(b: &[u8], i: usize) -> (x: u32)
    requires
        can_read(b@, i as int, 4),
    ensures
        x == rd_u32(b@, i as int),
{
    // Binds the slice length so the offset arithmetic below is known to fit.
    let _len = b.len();
    let s = slice_subrange(b, i, i + 4);
    u32_from_le_bytes(s)
}

/// Read the little-endian 64-bit word at offset `i`.
fn read_u64_at(b: &[u8], i: usize) -> (x: u64)
    requires
        can_read(b@, i as int, 8),
    ensures
        x == rd_u64(b@, i as int),
{
    // Binds the slice length so the offset arithmetic below is known to fit.
    let _len = b.len();
    let s = slice_subrange(b, i, i + 8);
    u64_from_le_bytes(s)
}

/// The bytes of `n` words are `8 * n` long.
pub proof fn lemma_enc_u64s_len(s: Seq<u64>)
    ensures
        enc_u64s(s).len() == 8 * s.len(),
    decreases s.len(),
{
    lemma_auto_spec_u64_to_from_le_bytes();
    if s.len() > 0 {
        lemma_enc_u64s_len(s.drop_first());
    }
}

/// Extending the encoded prefix of a word sequence by one word appends that
/// word's bytes.
pub proof fn lemma_enc_u64s_take_succ(s: Seq<u64>, k: int)
    requires
        0 <= k < s.len(),
    ensures
        enc_u64s(s.take(k + 1)) == enc_u64s(s.take(k)) + spec_u64_to_le_bytes(s[k]),
    decreases k,
{
    lemma_auto_spec_u64_to_from_le_bytes();
    if k == 0 {
        assert(s.take(1).len() == 1);
        assert(s.take(1)[0] == s[0]);
        assert(s.take(1).drop_first() =~= Seq::<u64>::empty());
        assert(s.take(0) =~= Seq::<u64>::empty());
        assert(enc_u64s(s.take(1)) == spec_u64_to_le_bytes(s[0]) + enc_u64s(Seq::<u64>::empty()));
        assert(spec_u64_to_le_bytes(s[0]) + Seq::<u8>::empty() =~= spec_u64_to_le_bytes(s[0]));
        assert(enc_u64s(s.take(0)) + spec_u64_to_le_bytes(s[0]) =~= spec_u64_to_le_bytes(s[0]));
    } else {
        lemma_enc_u64s_take_succ(s.drop_first(), k - 1);
        assert(s.take(k + 1).drop_first() =~= s.drop_first().take(k));
        assert(s.take(k).drop_first() =~= s.drop_first().take(k - 1));
        assert(s.take(k + 1)[0] == s[0]);
        assert(s.take(k)[0] == s[0]);
        assert(s.drop_first()[k - 1] == s[k]);
        assert((spec_u64_to_le_bytes(s[0]) + enc_u64s(s.drop_first().take(k - 1)))
            + spec_u64_to_le_bytes(s[k]) =~= spec_u64_to_le_bytes(s[0]) + (enc_u64s(
            s.drop_first().take(k - 1),
        ) + spec_u64_to_le_bytes(s[k])));
    }
}

/// The words read at offset `i` are exactly the words that were encoded
/// there: one per 8 bytes.
pub proof fn lemma_rd_u64s_props(b: Seq<u8>, i: int, n: int)
    requires
        0 <= n,
    ensures
        rd_u64s(b, i, n).len() == n,
        forall|k: int| 0 <= k < n ==> rd_u64s(b, i, n)[k] == rd_u64(b, i + 8 * k),
    decreases n,
{
    if n > 0 {
        lemma_rd_u64s_props(b, i + 8, n - 1);
        assert forall|k: int| 0 <= k < n implies rd_u64s(b, i, n)[k] == rd_u64(b, i + 8 * k) by {
            if k > 0 {
                assert(rd_u64s(b, i, n)[k] == rd_u64s(b, i + 8, n - 1)[k - 1]);
            }
        }
    }
}

/// Read a length-prefixed list of 64-bit words at offset `i`.
fn read_words(b: &[u8], i: usize) -> (res: Result<(Vec<u64>, usize), MetricError>)
    requires
        i <= b@.len(),
    ensures
        (res is Ok) <==> (parse_list(b@, i as int) is Ok),
        res is Ok ==> (res->Ok_0.0@ == parse_list(b@, i as int)->Ok_0.0 && res->Ok_0.1 as int
            == parse_list(b@, i as int)->Ok_0.1 && i <= res->Ok_0.1 <= b@.len()),
        parse_list(b@, i as int) is Err ==> (res is Err && res->Err_0 == MetricError::Capnp),
{
    let n = b.len();
    if n - i < 4 {
        return Err(MetricError::Capnp);
    }
    let cnt = read_u32_at(b, i);
    let start = i + 4;
    let cntu = cnt as usize;
    if ((n - start) as u64) < 8u64 * (cnt as u64) {
        return Err(MetricError::Capnp);
    }
    let ghost wspec = rd_u64s(b@, start as int, cnt as int);
    proof {
        lemma_rd_u64s_props(b@, start as int, cnt as int);
    }
    let mut words: Vec<u64> = Vec::new();
    for k in 0..cntu
        invariant
            cntu == cnt as int,
            i + 4 == start,
            start + 8 * (cnt as int) <= b@.len(),
            b@.len() <= usize::MAX,
            wspec == rd_u64s(b@, start as int, cnt as int),
            words@.len() == k,
            words@ == wspec.take(k as int),
    {
        proof {
            lemma_rd_u64s_props(b@, start as int, cnt as int);
        }
        let off = start + 8 * k;
        let w = read_u64_at(b, off);
        proof {
            assert(wspec.take(k as int).push(wspec[k as int]) =~= wspec.take(k as int + 1));
        }
        words.push(w);
    }
    proof {
        lemma_rd_u64s_props(b@, start as int, cnt as int);
        assert(wspec.take(cnt as int) =~= wspec);
    }
    Ok((words, start + 8 * cntu))
}

/// Decode the payload at offset `i` into an aggregation state.
fn decode_payload<F: Scalar>(b: &[u8], i: usize) -> (res: Result<
    (MetricType<F>, usize),
    MetricError,
>)
    requires
        i <= b@.len(),
    ensures
        (res is Ok) <==> (parse_payload(b@, i as int) is Ok),
        res is Ok ==> (res->Ok_0.1 as int == parse_payload(b@, i as int)->Ok_0.1
            && payload_describes::<F>(parse_payload(b@, i as int)->Ok_0.0, res->Ok_0.0) && i
            <= res->Ok_0.1 <= b@.len()),
        parse_payload(b@, i as int) is Err ==> (res is Err && res->Err_0 == fault_error(
            parse_payload(b@, i as int)->Err_0,
        )),
{
    let n = b.len();
    if n - i < 1 {
        return Err(MetricError::Capnp);
    }
    let tag = b[i];
    if tag == TAG_COUNTER {
        Ok((MetricType::Counter, i + 1))
    } else if tag == TAG_DIFF_COUNTER {
        if n - (i + 1) < 8 {
            return Err(MetricError::Capnp);
        }
        let pb = read_u64_at(b, i + 1);
        Ok((MetricType::DiffCounter(F::from_wire(pb)), i + 9))
    } else if tag == TAG_GAUGE {
        if n - (i + 1) < 1 {
            return Err(MetricError::Capnp);
        }
        let g = b[i + 1];
        if g == 0 {
            Ok((MetricType::Gauge(None), i + 2))
        } else if g == 1 {
            if n - (i + 2) < 1 {
                return Err(MetricError::Capnp);
            }
            let gb = b[i + 2];
            let s: i8 = if gb < 128 {
                gb as i8
            } else {
                (((gb as i16) - 256i16) as i8)
            };
            Ok((MetricType::Gauge(Some(s)), i + 3))
        } else {
            Err(MetricError::CapnpSchema)
        }
    } else if tag == TAG_TIMER {
        match read_words(b, i + 1) {
            Err(e) => Err(e),
            Ok((words, j)) => {
                let m = words.len();
                let mut tv: Vec<F> = Vec::new();
                for k in 0..m
                    invariant
                        m == words@.len(),
                        tv@.len() == k,
                        forall|q: int| 0 <= q < k ==> tv@[q] == F::unwire_spec(words@[q]),
                {
                    tv.push(F::from_wire(words[k]));
                }
                proof {
                    assert(tv@ =~= words@.map(|q: int, x: u64| F::unwire_spec(x)));
                }
                Ok((MetricType::Timer(tv), j))
            },
        }
    } else if tag == TAG_SET {
        match read_words(b, i + 1) {
            Err(e) => Err(e),
            Ok((words, j)) => {
                let mut sv: Vec<u64> = Vec::new();
                extend_keys(&mut sv, &words);
                Ok((MetricType::ValueSet(sv), j))
            },
        }
    } else {
        Err(MetricError::CapnpSchema)
    }
}

impl<F: Scalar> Metric<F> {
    /// Decode one record into the raw name bytes it carries and the metric
    /// it describes.  A malformed record is a `Capnp` error; a discriminant
    /// outside the schema is a `CapnpSchema` error.
    #[verifier::rlimit(80)]
    pub fn decode(b: &[u8]) -> (r: Result<(Vec<u8>, Metric<F>), MetricError>)
        ensures
            (r is Ok) <==> (parse_record(b@) is Ok),
            r is Ok ==> (r->Ok_0.0@ == parse_record(b@)->Ok_0.name && describes::<F>(
                parse_record(b@)->Ok_0,
                r->Ok_0.1,
            )),
            parse_record(b@) is Err ==> (r is Err && r->Err_0 == fault_error(
                parse_record(b@)->Err_0,
            )),
    {
        let n = b.len();
        if n < 4 {
            return Err(MetricError::Capnp);
        }
        let nl32 = read_u32_at(b, 0);
        let nl = nl32 as usize;
        if n - 4 < nl {
            return Err(MetricError::Capnp);
        }
        let name = slice_to_vec(slice_subrange(b, 4, 4 + nl));
        let vo = 4 + nl;
        if n - vo < 8 {
            return Err(MetricError::Capnp);
        }
        let value_bits = read_u64_at(b, vo);
        let value = F::from_wire(value_bits);
        let po = vo + 8;
        let (mtype, i1) = match decode_payload::<F>(b, po) {
            Err(e) => {
                return Err(e);
            },
            Ok(p) => p,
        };
        if n - i1 < 1 {
            return Err(MetricError::Capnp);
        }
        let tf = b[i1];
        let (timestamp, i2): (Option<u64>, usize) = if tf == 0 {
            (None, i1 + 1)
        } else if tf == 1 {
            if n - (i1 + 1) < 8 {
                return Err(MetricError::Capnp);
            }
            let ts = read_u64_at(b, i1 + 1);
            (Some(ts), i1 + 9)
        } else {
            return Err(MetricError::Capnp);
        };
        if n - i2 < 1 {
            return Err(MetricError::Capnp);
        }
        let mf = b[i2];
        let (sampling, update_counter, i3): (Option<u32>, u32, usize) = if mf == 0 {
            (None, 1u32, i2 + 1)
        } else if mf == 1 {
            if n - (i2 + 1) < 1 {
                return Err(MetricError::Capnp);
            }
            let sf = b[i2 + 1];
            if sf == 0 {
                if n - (i2 + 2) < 4 {
                    return Err(MetricError::Capnp);
                }
                let uc = read_u32_at(b, i2 + 2);
                (None, uc, i2 + 6)
            } else if sf == 1 {
                if n - (i2 + 2) < 8 {
                    return Err(MetricError::Capnp);
                }
                let sr = read_u32_at(b, i2 + 2);
                let uc = read_u32_at(b, i2 + 6);
                (Some(sr), uc, i2 + 10)
            } else {
                return Err(MetricError::Capnp);
            }
        } else {
            return Err(MetricError::Capnp);
        };
        if i3 != n {
            return Err(MetricError::Capnp);
        }
        Ok((name, Metric { value, mtype, timestamp, update_counter, sampling }))
    }

    /// Append this metric's record bytes to `out`.  No name is known at
    /// this stage: the record carries an empty name.
    #[verifier::rlimit(80)]
    pub fn fill_record(&self, out: &mut Vec<u8>)
        requires
            encodable(*self),
        ensures
            final(out)@ == old(out)@ + record_bytes(*self),
    {
        proof {
            lemma_auto_spec_u32_to_from_le_bytes();
            lemma_auto_spec_u64_to_from_le_bytes();
        }
        let ghost rec = wire_of(*self);
        write_u32(out, 0);
        write_u64(out, self.value.to_wire());
        let ghost head = old(out)@ + spec_u32_to_le_bytes(0u32) + spec_u64_to_le_bytes(
            rec.value_bits,
        );
        match &self.mtype {
            MetricType::Counter => {
                out.push(TAG_COUNTER);
                proof {
                    assert(out@ =~= head + enc_payload(rec.payload));
                }
            },
            MetricType::DiffCounter(p) => {
                out.push(TAG_DIFF_COUNTER);
                write_u64(out, (*p).to_wire());
                proof {
                    assert(out@ =~= head + enc_payload(rec.payload));
                }
            },
            MetricType::Gauge(d) => {
                out.push(TAG_GAUGE);
                match d {
                    None => {
                        out.push(0);
                    },
                    Some(s) => {
                        out.push(1);
                        let sb: u8 = if *s >= 0 {
                            *s as u8
                        } else {
                            (((*s as i16) + 256i16) as u8)
                        };
                        out.push(sb);
                    },
                }
                proof {
                    assert(out@ =~= head + enc_payload(rec.payload));
                }
            },
            MetricType::Timer(v) => {
                out.push(TAG_TIMER);
                write_u32(out, v.len() as u32);
                let ghost bits = v@.map(|k: int, x: F| x.wire_spec());
                let ghost mid = out@;
                let n = v.len();
                for k in 0..n
                    invariant
                        n == v@.len(),
                        bits == v@.map(|k: int, x: F| x.wire_spec()),
                        out@ == mid + enc_u64s(bits.take(k as int)),
                {
                    proof {
                        lemma_enc_u64s_take_succ(bits, k as int);
                    }
                    write_u64(out, v[k].to_wire());
                }
                proof {
                    assert(bits.take(n as int) =~= bits);
                    assert(out@ =~= head + enc_payload(rec.payload));
                }
            },
            MetricType::ValueSet(v) => {
                out.push(TAG_SET);
                write_u32(out, v.len() as u32);
                let ghost bits = v@;
                let ghost mid = out@;
                let n = v.len();
                for k in 0..n
                    invariant
                        n == v@.len(),
                        bits == v@,
                        out@ == mid + enc_u64s(bits.take(k as int)),
                {
                    proof {
                        lemma_enc_u64s_take_succ(bits, k as int);
                    }
                    write_u64(out, v[k]);
                }
                proof {
                    assert(bits.take(n as int) =~= bits);
                    assert(out@ =~= head + enc_payload(rec.payload));
                }
            },
        }
        match self.timestamp {
            None => {
                out.push(0);
            },
            Some(ts) => {
                out.push(1);
                write_u64(out, ts);
            },
        }
        proof {
            assert(out@ =~= head + enc_payload(rec.payload) + enc_timestamp(rec.timestamp));
        }
        out.push(1);
        match self.sampling {
            None => {
                out.push(0);
            },
            Some(sr) => {
                out.push(1);
                write_u32(out, sr);
            },
        }
        write_u32(out, self.update_counter);
        proof {
            assert(out@ =~= head + enc_payload(rec.payload) + enc_timestamp(rec.timestamp)
                + enc_meta(rec.meta));
            assert(out@ =~= old(out)@ + enc_record(rec));
        }
    }

    /// Encode this metric as one record.
    pub fn encode(&self) -> (r: Vec<u8>)
        requires
            encodable(*self),
        ensures
            r@ == record_bytes(*self),
    {
        let mut out: Vec<u8> = Vec::new();
        self.fill_record(&mut out);
        proof {
            assert(Seq::<u8>::empty() + record_bytes(*self) =~= record_bytes(*self));
        }
        out
    }
}

/// Whether a payload's variable-length state fits its length field.
pub open spec fn payload_wf(p: Payload) -> bool {
    &&& (p is Timer ==> p->Timer_0.len() <= u32::MAX)
    &&& (p is ValueSet ==> p->ValueSet_0.len() <= u32::MAX)
}

/// A window into bytes known to stand at offset `i` of `b` matches the
/// same window of those bytes.
proof fn lemma_window(b: Seq<u8>, i: int, w: Seq<u8>, lo: int, hi: int)
    requires
        0 <= i,
        i + w.len() <= b.len(),
        b.subrange(i, i + w.len()) == w,
        0 <= lo <= hi <= w.len(),
    ensures
        b.subrange(i + lo, i + hi) == w.subrange(lo, hi),
{
    assert forall|k: int| 0 <= k < hi - lo implies b.subrange(i + lo, i + hi)[k] == w.subrange(
        lo,
        hi,
    )[k] by {
        assert(b.subrange(i, i + w.len())[lo + k] == b[i + lo + k]);
    }
    assert(b.subrange(i + lo, i + hi) =~= w.subrange(lo, hi));
}

/// A concatenation splits back into its two parts.
proof fn lemma_concat_parts(x: Seq<u8>, y: Seq<u8>)
    ensures
        (x + y).subrange(0, x.len() as int) == x,
        (x + y).subrange(x.len() as int, (x + y).len() as int) == y,
{
    assert((x + y).subrange(0, x.len() as int) =~= x);
    assert((x + y).subrange(x.len() as int, (x + y).len() as int) =~= y);
}

/// Words encoded at offset `i` of `b` read back as themselves.
proof fn lemma_rd_enc_u64s(b: Seq<u8>, i: int, s: Seq<u64>)
    requires
        0 <= i,
        i + 8 * s.len() <= b.len(),
        b.subrange(i, i + 8 * s.len()) == enc_u64s(s),
    ensures
        rd_u64s(b, i, s.len() as int) == s,
    decreases s.len(),
{
    lemma_auto_spec_u64_to_from_le_bytes();
    lemma_enc_u64s_len(s);
    if s.len() == 0 {
        assert(rd_u64s(b, i, 0) =~= s);
    } else {
        let rest = s.drop_first();
        lemma_enc_u64s_len(rest);
        let w = enc_u64s(s);
        lemma_concat_parts(spec_u64_to_le_bytes(s[0]), enc_u64s(rest));
        lemma_window(b, i, w, 0, 8);
        assert(rd_u64(b, i) == s[0]);
        lemma_window(b, i, w, 8, w.len() as int);
        lemma_rd_enc_u64s(b, i + 8, rest);
        assert(rd_u64s(b, i, s.len() as int) =~= s);
    }
}

/// A list encoded at offset `i` of `b` parses back as itself.
proof fn lemma_parse_enc_list(b: Seq<u8>, i: int, s: Seq<u64>)
    requires
        s.len() <= u32::MAX,
        0 <= i,
        i + 4 + 8 * s.len() <= b.len(),
        b.subrange(i, i + 4 + 8 * s.len()) == enc_list(s),
    ensures
        parse_list(b, i) == Ok::<(Seq<u64>, int), Fault>((s, i + 4 + 8 * s.len())),
{
    lemma_auto_spec_u32_to_from_le_bytes();
    lemma_enc_u64s_len(s);
    let w = enc_list(s);
    lemma_concat_parts(spec_u32_to_le_bytes(s.len() as u32), enc_u64s(s));
    lemma_window(b, i, w, 0, 4);
    assert(rd_u32(b, i) == s.len() as u32);
    lemma_window(b, i, w, 4, w.len() as int);
    lemma_rd_enc_u64s(b, i + 4, s);
}

/// A payload encoded at offset `i` of `b` parses back as itself.
#[verifier::rlimit(80)]
proof fn lemma_parse_enc_payload(b: Seq<u8>, i: int, p: Payload)
    requires
        payload_wf(p),
        0 <= i,
        i + enc_payload(p).len() <= b.len(),
        b.subrange(i, i + enc_payload(p).len()) == enc_payload(p),
    ensures
        parse_payload(b, i) == Ok::<(Payload, int), Fault>((p, i + enc_payload(p).len())),
{
    lemma_auto_spec_u32_to_from_le_bytes();
    lemma_auto_spec_u64_to_from_le_bytes();
    let e = enc_payload(p);
    assert(b.subrange(i, i + e.len())[0] == b[i]);
    match p {
        Payload::Counter => {
            assert(b[i] == TAG_COUNTER);
        },
        Payload::DiffCounter(x) => {
            lemma_concat_parts(seq![TAG_DIFF_COUNTER], spec_u64_to_le_bytes(x));
            lemma_window(b, i, e, 1, 9);
            assert(b[i] == TAG_DIFF_COUNTER);
            assert(rd_u64(b, i + 1) == x);
        },
        Payload::Gauge(d) => {
            match d {
                None => {
                    assert(b.subrange(i, i + 2)[1] == b[i + 1]);
                    assert(b[i] == TAG_GAUGE && b[i + 1] == 0);
                },
                Some(s) => {
                    assert(b.subrange(i, i + 3)[1] == b[i + 1]);
                    assert(b.subrange(i, i + 3)[2] == b[i + 2]);
                    assert(b[i] == TAG_GAUGE && b[i + 1] == 1 && b[i + 2] == byte_of_i8(s));
                    assert(i8_of_byte(byte_of_i8(s)) == s);
                },
            }
        },
        Payload::Timer(s) => {
            lemma_enc_u64s_len(s);
            lemma_concat_parts(seq![TAG_TIMER], enc_list(s));
            lemma_window(b, i, e, 1, e.len() as int);
            assert(b[i] == TAG_TIMER);
            lemma_parse_enc_list(b, i + 1, s);
        },
        Payload::ValueSet(s) => {
            lemma_enc_u64s_len(s);
            lemma_concat_parts(seq![TAG_SET], enc_list(s));
            lemma_window(b, i, e, 1, e.len() as int);
            assert(b[i] == TAG_SET);
            lemma_parse_enc_list(b, i + 1, s);
        },
    }
}

/// A timestamp encoded at offset `i` of `b` parses back as itself.
proof fn lemma_parse_enc_timestamp(b: Seq<u8>, i: int, o: Option<u64>)
    requires
        0 <= i,
        i + enc_timestamp(o).len() <= b.len(),
        b.subrange(i, i + enc_timestamp(o).len()) == enc_timestamp(o),
    ensures
        parse_timestamp(b, i) == Ok::<(Option<u64>, int), Fault>((o, i + enc_timestamp(o).len())),
{
    lemma_auto_spec_u64_to_from_le_bytes();
    let e = enc_timestamp(o);
    assert(b.subrange(i, i + e.len())[0] == b[i]);
    match o {
        None => {
            assert(b[i] == 0);
        },
        Some(x) => {
            lemma_concat_parts(seq![1u8], spec_u64_to_le_bytes(x));
            lemma_window(b, i, e, 1, 9);
            assert(b[i] == 1);
            assert(rd_u64(b, i + 1) == x);
        },
    }
}

/// A metadata block encoded at offset `i` of `b` parses back as itself.
proof fn lemma_parse_enc_meta(b: Seq<u8>, i: int, o: Option<Meta>)
    requires
        0 <= i,
        i + enc_meta(o).len() <= b.len(),
        b.subrange(i, i + enc_meta(o).len()) == enc_meta(o),
    ensures
        parse_meta(b, i) == Ok::<(Option<Meta>, int), Fault>((o, i + enc_meta(o).len())),
{
    lemma_auto_spec_u32_to_from_le_bytes();
    let e = enc_meta(o);
    assert(b.subrange(i, i + e.len())[0] == b[i]);
    match o {
        None => {
            assert(b[i] == 0);
        },
        Some(me) => {
            let sp = (match me.sampling {
                None => seq![0u8],
                Some(x) => seq![1u8] + spec_u32_to_le_bytes(x),
            });
            let head = seq![1u8] + sp;
            lemma_concat_parts(head, spec_u32_to_le_bytes(me.update_counter));
            lemma_concat_parts(seq![1u8], sp);
            assert(b.subrange(i, i + e.len())[1] == b[i + 1]);
            assert(b[i] == 1);
            match me.sampling {
                None => {
                    assert(b[i + 1] == 0);
                    lemma_window(b, i, e, 2, 6);
                    assert(rd_u32(b, i + 2) == me.update_counter);
                },
                Some(x) => {
                    assert(b[i + 1] == 1);
                    lemma_concat_parts(seq![1u8], spec_u32_to_le_bytes(x));
                    lemma_window(b, i, e, 2, 6);
                    assert(b.subrange(i + 2, i + 6) == e.subrange(2, 6));
                    assert(e.subrange(2, 6) =~= spec_u32_to_le_bytes(x));
                    assert(rd_u32(b, i + 2) == x);
                    lemma_window(b, i, e, 6, 10);
                    assert(e.subrange(6, 10) =~= spec_u32_to_le_bytes(me.update_counter));
                    assert(rd_u32(b, i + 6) == me.update_counter);
                },
            }
        },
    }
}

/// An encoded record parses back as itself.
#[verifier::rlimit(100)]
#[verifier::spinoff_prover]
pub proof fn lemma_parse_enc_record(r: Record)
    requires
        r.name.len() <= u32::MAX,
        payload_wf(r.payload),
    ensures
        parse_record(enc_record(r)) == Ok::<Record, Fault>(r),
{
    lemma_auto_spec_u32_to_from_le_bytes();
    lemma_auto_spec_u64_to_from_le_bytes();
    let b = enc_record(r);
    let nl = r.name.len() as int;
    let a1 = spec_u32_to_le_bytes(r.name.len() as u32);
    let a3 = spec_u64_to_le_bytes(r.value_bits);
    let a4 = enc_payload(r.payload);
    let a5 = enc_timestamp(r.timestamp);
    let a6 = enc_meta(r.meta);
    let l4 = a4.len() as int;
    let l5 = a5.len() as int;
    let l6 = a6.len() as int;
    let p2 = a1 + r.name;
    let p3 = p2 + a3;
    let p4 = p3 + a4;
    let p5 = p4 + a5;
    assert(b.len() == 4 + nl + 8 + l4 + l5 + l6);
    lemma_concat_parts(p5, a6);
    lemma_concat_parts(p4, a5);
    lemma_concat_parts(p3, a4);
    lemma_concat_parts(p2, a3);
    lemma_concat_parts(a1, r.name);
    lemma_window(b, 0, p5, 0, p4.len() as int);
    lemma_window(b, 0, p4, 0, p3.len() as int);
    lemma_window(b, 0, p3, 0, p2.len() as int);
    lemma_window(b, 0, p2, 0, 4);
    assert(b.subrange(0, 4) == a1);
    assert(rd_u32(b, 0) == r.name.len() as u32);
    lemma_window(b, 0, p2, 4, 4 + nl);
    assert(b.subrange(4, 4 + nl) == r.name);
    lemma_window(b, 0, p3, 4 + nl, 12 + nl);
    assert(b.subrange(4 + nl, 12 + nl) == a3);
    assert(rd_u64(b, 4 + nl) == r.value_bits);
    lemma_window(b, 0, p4, 12 + nl, 12 + nl + l4);
    assert(b.subrange(12 + nl, 12 + nl + l4) == a4);
    lemma_parse_enc_payload(b, 12 + nl, r.payload);
    lemma_window(b, 0, p5, 12 + nl + l4, 12 + nl + l4 + l5);
    assert(b.subrange(12 + nl + l4, 12 + nl + l4 + l5) == a5);
    lemma_parse_enc_timestamp(b, 12 + nl + l4, r.timestamp);
    assert(b.subrange(12 + nl + l4 + l5, 12 + nl + l4 + l5 + l6) == a6);
    lemma_parse_enc_meta(b, 12 + nl + l4 + l5, r.meta);
    assert(parse_record(b) is Ok);
    assert(parse_record(b)->Ok_0 =~= r);
}

/// The record an aggregate is encoded to parses back as that record.
pub proof fn lemma_record_roundtrip<F: Scalar>(m: Metric<F>)
    requires
        encodable(m),
    ensures
        parse_record(record_bytes(m)) == Ok::<Record, Fault>(wire_of(m)),
{
    lemma_parse_enc_record(wire_of(m));
}

/// Any metric that the record of `m` describes carries the same state as
/// `m`: decoding an encoded aggregate loses nothing.
pub proof fn lemma_decode_of_encode<F: Scalar>(m: Metric<F>, d: Metric<F>)
    requires
        wf_metric(m),
        describes::<F>(wire_of(m), d),
    ensures
        same_metric(d, m),
{
    F::lemma_wire_roundtrip(m.value);
    match m.mtype {
        MetricType::Counter => {},
        MetricType::DiffCounter(p) => {
            F::lemma_wire_roundtrip(p);
        },
        MetricType::Gauge(_) => {},
        MetricType::Timer(v) => {
            let bits = v@.map(|k: int, x: F| x.wire_spec());
            let back = bits.map(|k: int, x: u64| F::unwire_spec(x));
            assert forall|k: int| 0 <= k < v@.len() implies back[k] == v@[k] by {
                F::lemma_wire_roundtrip(v@[k]);
            }
            assert(back =~= v@);
        },
        MetricType::ValueSet(v) => {
            crate::metric::lemma_union_keys_empty(v@);
        },
    }
}

/// Law: the codec round-trips.  For any well-formed aggregate `m`, its
/// record parses successfully, carries an empty name, and any metric the
/// parsed record describes (which is what `decode` returns for the bytes
/// `encode` produced) carries exactly the state of `m`.
pub proof fn lemma_codec_roundtrip<F: Scalar>(m: Metric<F>, d: Metric<F>)
    requires
        wf_metric(m),
        parse_record(record_bytes(m)) is Ok ==> describes::<F>(parse_record(record_bytes(m))->Ok_0, d),
    ensures
        parse_record(record_bytes(m)) is Ok,
        parse_record(record_bytes(m))->Ok_0.name == Seq::<u8>::empty(),
        same_metric(d, m),
{
    lemma_record_roundtrip(m);
    lemma_decode_of_encode(m, d);
}

/// Law: a record without a metadata block describes a metric whose update
/// counter is 1 and whose sampling rate is absent, whatever its value.
pub proof fn lemma_meta_default<F: Scalar>(r: Record, m: Metric<F>)
    requires
        describes::<F>(r, m),
        r.meta is None,
    ensures
        m.update_counter == 1,
        m.sampling is None,
{
}

} // verus!
