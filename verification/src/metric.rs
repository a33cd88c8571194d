//! The metric value model: the tagged union of aggregation states, the
//! envelope around one aggregation slot, and the merge rules that fold a
//! fresh observation into an existing aggregate.

use vstd::prelude::*;

use crate::scalar::Scalar;

verus! {

/// The error taxonomy of the core.  Every operation reports failure through
/// one of these kinds; callers branch on the kind.
#[derive(Debug, Clone, PartialEq, Eq)]
pub enum MetricError {
    /// Reserved for float-to-sampling-ratio conversion failures.
    FloatToRatio,
    /// Reserved for invalid sampling-range values.
    Sampling,
    /// Merging incompatible variants or an invalid gauge direction.
    Aggregating,
    /// A malformed binary record.
    Capnp,
    /// A discriminant value not present in the record schema.
    CapnpSchema,
    /// An unrecognized type-name string, carried for diagnostics.
    BadTypeName(String),
}

/// The aggregation state of a metric, one variant per statistic family.
#[derive(Debug, Clone, PartialEq)]
pub enum MetricType<F> {
    /// Monotonically accumulating sum; no auxiliary state.
    Counter,
    /// A counter derived from a monotonically increasing external counter;
    /// carries the previous observed raw reading.
    DiffCounter(F),
    /// The observed durations in insertion order.
    Timer(Vec<F>),
    /// `None` replaces the value; `Some(1)` increments, `Some(-1)` decrements.
    Gauge(Option<i8>),
    /// Distinct observed values, deduplicated by their 64-bit wire pattern.
    ValueSet(Vec<u64>),
}

/// A typed, optionally timestamped metric value (i.e. without name).
#[derive(Debug, Clone, PartialEq)]
pub struct Metric<F> {
    /// The current aggregate scalar.
    pub value: F,
    /// The variant and its auxiliary aggregation state.
    pub mtype: MetricType<F>,
    /// Event time if known; absent means "use ingestion time".
    pub timestamp: Option<u64>,
    /// Count of raw samples folded into this aggregate.
    pub update_counter: u32,
    /// Client-declared sampling rate, carried as the bit pattern of its
    /// single-precision encoding; carried through, never applied here.
    pub sampling: Option<u32>,
}

/// Whether a sequence of set keys holds no duplicates.
pub open spec fn no_dups(s: Seq<u64>) -> bool {
    forall|i: int, j: int| 0 <= i < j < s.len() ==> s[i] != s[j]
}

/// The keys of `a` followed by each key of `b`, in order, that is not
/// already present: the insertion-order union of two key sets.
pub open spec fn union_keys(a: Seq<u64>, b: Seq<u64>) -> Seq<u64>
    decreases b.len(),
{
    if b.len() == 0 {
        a
    } else {
        let u = union_keys(a, b.drop_last());
        if u.contains(b.last()) {
            u
        } else {
            u.push(b.last())
        }
    }
}

/// Folding a duplicate-free key sequence into an empty set reproduces it.
pub proof fn lemma_union_keys_empty(s: Seq<u64>)
    requires
        no_dups(s),
    ensures
        union_keys(Seq::empty(), s) == s,
    decreases s.len(),
{
    if s.len() == 0 {
        assert(union_keys(Seq::empty(), s) =~= s);
    } else {
        let front = s.drop_last();
        assert(no_dups(front)) by {
            assert(forall|i: int, j: int|
                0 <= i < j < front.len() ==> front[i] == s[i] && front[j] == s[j]);
        }
        lemma_union_keys_empty(front);
        if union_keys(Seq::empty(), front).contains(s.last()) {
            let i = choose|i: int| 0 <= i < front.len() && front[i] == s.last();
            assert(s[i] == s[s.len() - 1]);
            assert(false);
        }
        assert(front.push(s.last()) =~= s);
    }
}

/// Whether two metrics carry the same observable state, field for field.
pub open spec fn same_metric<F>(a: Metric<F>, b: Metric<F>) -> bool {
    &&& a.value == b.value
    &&& a.timestamp == b.timestamp
    &&& a.update_counter == b.update_counter
    &&& a.sampling == b.sampling
    &&& (match (a.mtype, b.mtype) {
        (MetricType::Counter, MetricType::Counter) => true,
        (MetricType::DiffCounter(p), MetricType::DiffCounter(q)) => p == q,
        (MetricType::Gauge(x), MetricType::Gauge(y)) => x == y,
        (MetricType::Timer(v), MetricType::Timer(w)) => v@ == w@,
        (MetricType::ValueSet(v), MetricType::ValueSet(w)) => v@ == w@,
        _ => false,
    })
}

/// Whether two aggregation states may be merged: the variants must be of the
/// same family, and an incoming gauge direction must be absent, `+1` or `-1`.
pub open spec fn mergeable<F>(a: MetricType<F>, b: MetricType<F>) -> bool {
    match (a, b) {
        (MetricType::Counter, MetricType::Counter) => true,
        (MetricType::DiffCounter(_), MetricType::DiffCounter(_)) => true,
        (MetricType::Gauge(_), MetricType::Gauge(d)) => (d == Option::<i8>::None || d
            == Some(1i8) || d == Some(-1i8)),
        (MetricType::Timer(_), MetricType::Timer(_)) => true,
        (MetricType::ValueSet(_), MetricType::ValueSet(_)) => true,
        _ => false,
    }
}

/// The aggregate scalar after merging `b` into `a`, for mergeable states.
pub open spec fn merged_value<F: Scalar>(a: Metric<F>, b: Metric<F>) -> F {
    match (a.mtype, b.mtype) {
        (MetricType::Counter, MetricType::Counter) => a.value.add_spec(b.value),
        (MetricType::DiffCounter(prev), MetricType::DiffCounter(_)) => a.value.add_spec(
            if b.value.gt_spec(prev) {
                b.value.sub_spec(prev)
            } else {
                b.value
            },
        ),
        (MetricType::Gauge(_), MetricType::Gauge(d)) => (if d == Some(1i8) {
            a.value.add_spec(b.value)
        } else if d == Some(-1i8) {
            a.value.sub_spec(b.value)
        } else {
            b.value
        }),
        (MetricType::Timer(_), MetricType::Timer(_)) => b.value,
        (MetricType::ValueSet(_), MetricType::ValueSet(_)) => a.value,
        _ => a.value,
    }
}

/// Append `k` to `keys` unless it is already present.
pub fn insert_key(keys: &mut Vec<u64>, k: u64)
    ensures
        final(keys)@ == (if old(keys)@.contains(k) {
            old(keys)@
        } else {
            old(keys)@.push(k)
        }),
{
    let n = keys.len();
    for i in 0..n
        invariant
            n == keys@.len(),
            forall|j: int| 0 <= j < i ==> keys@[j] != k,
    {
        if keys[i] == k {
            return ;
        }
    }
    keys.push(k);
}

/// Fold every key of `src` into `dst`, skipping keys already present.
pub fn extend_keys(dst: &mut Vec<u64>, src: &Vec<u64>)
    ensures
        final(dst)@ == union_keys(old(dst)@, src@),
{
    let n = src.len();
    for i in 0..n
        invariant
            n == src@.len(),
            dst@ == union_keys(old(dst)@, src@.take(i as int)),
    {
        proof {
            assert(src@.take(i + 1).drop_last() =~= src@.take(i as int));
            assert(src@.take(i + 1).last() == src@[i as int]);
        }
        insert_key(dst, src[i]);
    }
    proof {
        assert(src@.take(n as int) =~= src@);
    }
}

impl<F: Scalar> Metric<F> {
    /// Build the aggregate for a freshly observed sample: the update counter
    /// starts at 1, a timer records the sample in its sequence, and a set
    /// records the sample's wire pattern among its keys.
    pub fn new(value: F, mtype: MetricType<F>, timestamp: Option<u64>, sampling: Option<u32>) -> (r:
        Result<Metric<F>, MetricError>)
        ensures
            r is Ok,
            r->Ok_0.value == value,
            r->Ok_0.timestamp == timestamp,
            r->Ok_0.sampling == sampling,
            r->Ok_0.update_counter == 1,
            (mtype is Counter || mtype is DiffCounter || mtype is Gauge) ==> r->Ok_0.mtype
                == mtype,
            mtype is Timer ==> (r->Ok_0.mtype is Timer && r->Ok_0.mtype->Timer_0@
                == mtype->Timer_0@.push(value)),
            mtype is ValueSet ==> (r->Ok_0.mtype is ValueSet && r->Ok_0.mtype->ValueSet_0@ == (
            if mtype->ValueSet_0@.contains(value.wire_spec()) {
                mtype->ValueSet_0@
            } else {
                mtype->ValueSet_0@.push(value.wire_spec())
            })),
    {
        let mut metric = Metric { value, mtype, timestamp, sampling, update_counter: 1u32 };
        match &mut metric.mtype {
            MetricType::Timer(agg) => {
                agg.push(value);
            },
            MetricType::ValueSet(keys) => {
                insert_key(keys, value.to_wire());
            },
            _ => {},
        }
        Ok(metric)
    }

    /// Join self with a new incoming metric depending on type.
    ///
    /// The update counter is summed first, unconditionally (the caller
    /// keeps the sum within `u32`).  Merging incompatible variants, or a
    /// gauge direction other than absent, `+1` or `-1`, is an
    /// `Aggregating` error and leaves everything but the update counter
    /// unchanged.
    ///
    /// Known limitation: the delta-counter merge reads and replaces the
    /// stored previous raw reading, so it is order-sensitive and not
    /// associative; every other family tolerates re-merging partial
    /// aggregates in any order.
    pub fn accumulate(&mut self, new: Metric<F>) -> (r: Result<(), MetricError>)
        requires
            old(self).update_counter + new.update_counter <= u32::MAX,
        ensures
            final(self).update_counter == old(self).update_counter + new.update_counter,
            final(self).timestamp == old(self).timestamp,
            final(self).sampling == old(self).sampling,
            (r matches Ok(u) && u == ()) <==> mergeable(old(self).mtype, new.mtype),
            !mergeable(old(self).mtype, new.mtype) ==> (r matches Err(e) && e
                == MetricError::Aggregating && final(self).value == old(self).value
                && final(self).mtype == old(self).mtype),
            mergeable(old(self).mtype, new.mtype) ==> final(self).value == merged_value(
                *old(self),
                new,
            ),
            (mergeable(old(self).mtype, new.mtype) && !(old(self).mtype is DiffCounter)
                && !(old(self).mtype is Timer) && !(old(self).mtype is ValueSet))
                ==> final(self).mtype == old(self).mtype,
            (old(self).mtype is DiffCounter && new.mtype is DiffCounter) ==> final(self).mtype
                == MetricType::DiffCounter(new.value),
            (old(self).mtype is Timer && new.mtype is Timer) ==> (final(self).mtype is Timer
                && final(self).mtype->Timer_0@ == old(self).mtype->Timer_0@
                + new.mtype->Timer_0@),
            (old(self).mtype is ValueSet && new.mtype is ValueSet) ==> (final(self).mtype
                is ValueSet && final(self).mtype->ValueSet_0@ == union_keys(
                old(self).mtype->ValueSet_0@,
                new.mtype->ValueSet_0@,
            )),
    {
        self.update_counter = self.update_counter + new.update_counter;
        let nv = new.value;
        match new.mtype {
            MetricType::Counter => {
                match &self.mtype {
                    MetricType::Counter => {
                        self.value = self.value.add(nv);
                        Ok(())
                    },
                    _ => Err(MetricError::Aggregating),
                }
            },
            MetricType::DiffCounter(_) => {
                match &self.mtype {
                    MetricType::DiffCounter(previous) => {
                        let prev = *previous;
                        let diff = if nv.gt(prev) {
                            nv.sub(prev)
                        } else {
                            nv
                        };
                        self.value = self.value.add(diff);
                        self.mtype = MetricType::DiffCounter(nv);
                        Ok(())
                    },
                    _ => Err(MetricError::Aggregating),
                }
            },
            MetricType::Gauge(dir) => {
                match &self.mtype {
                    MetricType::Gauge(_) => {
                        match dir {
                            Some(d) => {
                                if d == 1i8 {
                                    self.value = self.value.add(nv);
                                    Ok(())
                                } else if d == -1i8 {
                                    self.value = self.value.sub(nv);
                                    Ok(())
                                } else {
                                    Err(MetricError::Aggregating)
                                }
                            },
                            None => {
                                self.value = nv;
                                Ok(())
                            },
                        }
                    },
                    _ => Err(MetricError::Aggregating),
                }
            },
            MetricType::Timer(mut agg2) => {
                match &mut self.mtype {
                    MetricType::Timer(agg) => {
                        self.value = nv;
                        agg.append(&mut agg2);
                        Ok(())
                    },
                    _ => Err(MetricError::Aggregating),
                }
            },
            MetricType::ValueSet(keys2) => {
                match &mut self.mtype {
                    MetricType::ValueSet(keys) => {
                        extend_keys(keys, &keys2);
                        Ok(())
                    },
                    _ => Err(MetricError::Aggregating),
                }
            },
        }
    }
}

} // verus!
