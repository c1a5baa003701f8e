//! Conversion of metric-family snapshots into a canonical write request.
//!
//! Every metric instance expands into one or more time series. Labels from
//! the instance, the derived `__name__` label and the caller's extra labels
//! are merged by name with a fixed precedence: instance labels first, then
//! the derived name, then the extra labels, later values overwriting earlier
//! ones. The expanded list is ordered by the series' `__name__` value and
//! every series is put in canonical form.

use crate::order::{
    lemma_concat_multiset, lemma_count_two_positions, lemma_lex_leq_total, lemma_sort_by_leq_props,
    lemma_sorted_unique, lemma_two_positions_count, sort_by_leq,
};
use crate::types::{
    canon_all, canon_series, label_name, label_order, lemma_label_order_total,
    lemma_sample_order_total, lemma_series_order_total, sample_order, series_name, series_order,
    sort_series_vec, str_eq, views_of, Label, Sample, SpecLabel, SpecTimeSeries, TimeSeries,
    WriteRequest,
};
use vstd::prelude::*;
use vstd::string::StringExecFns;

verus! {

/// One histogram bucket: its upper bound rendered as decimal text, and the
/// cumulative count of observations at or below it as a float bit pattern.
#[derive(Debug, Clone, PartialEq)]
pub struct Bucket {
    pub upper_bound_text: String,
    pub cumulative_count_bits: u64,
}

#[verifier::ext_equal]
pub ghost struct SpecBucket {
    pub upper_bound_text: Seq<char>,
    pub cumulative_count_bits: u64,
}

impl View for Bucket {
    type V = SpecBucket;

    open spec fn view(&self) -> SpecBucket {
        SpecBucket {
            upper_bound_text: self.upper_bound_text@,
            cumulative_count_bits: self.cumulative_count_bits,
        }
    }
}

/// One summary quantile: its target rendered as decimal text, and the
/// estimated value at it as a float bit pattern.
#[derive(Debug, Clone, PartialEq)]
pub struct Quantile {
    pub quantile_text: String,
    pub value_bits: u64,
}

#[verifier::ext_equal]
pub ghost struct SpecQuantile {
    pub quantile_text: Seq<char>,
    pub value_bits: u64,
}

impl View for Quantile {
    type V = SpecQuantile;

    open spec fn view(&self) -> SpecQuantile {
        SpecQuantile { quantile_text: self.quantile_text@, value_bits: self.value_bits }
    }
}

/// The type-specific payload of one metric instance. Float values are
/// carried as IEEE-754 bit patterns; counts as the bit pattern of the count
/// rendered as a float, which is what the wire protocol transmits.
#[derive(Debug, Clone, PartialEq)]
pub enum MetricValue {
    Counter { value_bits: u64 },
    Gauge { value_bits: u64 },
    Histogram { buckets: Vec<Bucket>, sum_bits: u64, count_bits: u64 },
    Summary { quantiles: Vec<Quantile>, sum_bits: u64, count_bits: u64 },
    Untyped,
}

#[verifier::ext_equal]
pub ghost enum SpecMetricValue {
    Counter { value_bits: u64 },
    Gauge { value_bits: u64 },
    Histogram { buckets: Seq<SpecBucket>, sum_bits: u64, count_bits: u64 },
    Summary { quantiles: Seq<SpecQuantile>, sum_bits: u64, count_bits: u64 },
    Untyped,
}

impl View for MetricValue {
    type V = SpecMetricValue;

    open spec fn view(&self) -> SpecMetricValue {
        match self {
            MetricValue::Counter { value_bits } => SpecMetricValue::Counter {
                value_bits: *value_bits,
            },
            MetricValue::Gauge { value_bits } => SpecMetricValue::Gauge { value_bits: *value_bits },
            MetricValue::Histogram { buckets, sum_bits, count_bits } => SpecMetricValue::Histogram {
                buckets: views_of(buckets@),
                sum_bits: *sum_bits,
                count_bits: *count_bits,
            },
            MetricValue::Summary { quantiles, sum_bits, count_bits } => SpecMetricValue::Summary {
                quantiles: views_of(quantiles@),
                sum_bits: *sum_bits,
                count_bits: *count_bits,
            },
            MetricValue::Untyped => SpecMetricValue::Untyped,
        }
    }
}

/// One metric instance: its own labels and its type-specific value.
#[derive(Debug, Clone, PartialEq)]
pub struct Metric {
    pub labels: Vec<Label>,
    pub value: MetricValue,
}

#[verifier::ext_equal]
pub ghost struct SpecMetric {
    pub labels: Seq<SpecLabel>,
    pub value: SpecMetricValue,
}

impl View for Metric {
    type V = SpecMetric;

    open spec fn view(&self) -> SpecMetric {
        SpecMetric { labels: views_of(self.labels@), value: self.value@ }
    }
}

/// A named group of same-typed metric instances from one snapshot.
#[derive(Debug, Clone, PartialEq)]
pub struct MetricFamily {
    pub name: String,
    pub metrics: Vec<Metric>,
}

#[verifier::ext_equal]
pub ghost struct SpecFamily {
    pub name: Seq<char>,
    pub metrics: Seq<SpecMetric>,
}

impl View for MetricFamily {
    type V = SpecFamily;

    open spec fn view(&self) -> SpecFamily {
        SpecFamily { name: self.name@, metrics: views_of(self.metrics@) }
    }
}

/// The only conversion failure: a snapshot whose type tag disagrees with its
/// instance data. The closed `MetricValue` type cannot represent such a
/// snapshot, so conversion in fact always succeeds.
#[derive(Debug, Clone, Copy, PartialEq, Eq, Structural)]
pub enum ConvertError {
    MalformedSnapshot,
}

/// Set the value of the first label called `x.name`, or append `x` when no
/// label has that name: the merge step, later writers winning.
pub open spec fn upsert(s: Seq<SpecLabel>, x: SpecLabel) -> Seq<SpecLabel>
    decreases s.len(),
{
    if s.len() == 0 {
        seq![x]
    } else if s[0].name == x.name {
        seq![x] + s.drop_first()
    } else {
        seq![s[0]] + upsert(s.drop_first(), x)
    }
}

/// Merge a list of labels into a base set, one upsert per label.
pub open spec fn merge_labels(base: Seq<SpecLabel>, adds: Seq<SpecLabel>) -> Seq<SpecLabel>
    decreases adds.len(),
{
    if adds.len() == 0 {
        base
    } else {
        merge_labels(upsert(base, adds[0]), adds.drop_first())
    }
}

pub open spec fn name_label(fname: Seq<char>) -> SpecLabel {
    SpecLabel { name: label_name(), value: fname }
}

/// The merged label set of one metric instance: its own labels, then the
/// derived `__name__` label, then the caller's extra labels.
pub open spec fn base_labels(
    instance: Seq<SpecLabel>,
    fname: Seq<char>,
    extra: Seq<SpecLabel>,
) -> Seq<SpecLabel> {
    merge_labels(Seq::empty(), instance + seq![name_label(fname)] + extra)
}

pub open spec fn series_of(labels: Seq<SpecLabel>, bits: u64, ts: i64) -> SpecTimeSeries {
    SpecTimeSeries { labels, samples: seq![Sample { value_bits: bits, timestamp: ts }] }
}

pub open spec fn le_label(t: Seq<char>) -> SpecLabel {
    SpecLabel { name: "le"@, value: t }
}

pub open spec fn quantile_label(t: Seq<char>) -> SpecLabel {
    SpecLabel { name: "quantile"@, value: t }
}

/// The series emitted for one metric instance, in emission order.
pub open spec fn metric_series(
    fname: Seq<char>,
    m: SpecMetric,
    extra: Seq<SpecLabel>,
    ts: i64,
) -> Seq<SpecTimeSeries> {
    let base = base_labels(m.labels, fname, extra);
    match m.value {
        SpecMetricValue::Counter { value_bits } => seq![series_of(base, value_bits, ts)],
        SpecMetricValue::Gauge { value_bits } => seq![series_of(base, value_bits, ts)],
        SpecMetricValue::Histogram { buckets, sum_bits, count_bits } => Seq::new(
            buckets.len(),
            |i: int| series_of(upsert(base, le_label(buckets[i].upper_bound_text)), buckets[i].cumulative_count_bits, ts),
        ) + seq![
            series_of(upsert(base, name_label(fname + "_sum"@)), sum_bits, ts),
            series_of(upsert(base, name_label(fname + "_count"@)), count_bits, ts),
            series_of(upsert(base, le_label("+Inf"@)), count_bits, ts),
        ],
        SpecMetricValue::Summary { quantiles, sum_bits, count_bits } => Seq::new(
            quantiles.len(),
            |i: int| series_of(upsert(base, quantile_label(quantiles[i].quantile_text)), quantiles[i].value_bits, ts),
        ) + seq![
            series_of(upsert(base, name_label(fname + "_sum"@)), sum_bits, ts),
            series_of(upsert(base, name_label(fname + "_count"@)), count_bits, ts),
        ],
        SpecMetricValue::Untyped => Seq::empty(),
    }
}

/// The series emitted for a family's instances, in order.
pub open spec fn metrics_series(
    fname: Seq<char>,
    metrics: Seq<SpecMetric>,
    extra: Seq<SpecLabel>,
    ts: i64,
) -> Seq<SpecTimeSeries>
    decreases metrics.len(),
{
    if metrics.len() == 0 {
        Seq::empty()
    } else {
        metric_series(fname, metrics[0], extra, ts) + metrics_series(
            fname,
            metrics.drop_first(),
            extra,
            ts,
        )
    }
}

/// The series emitted for a whole snapshot, family by family.
pub open spec fn families_series(
    fams: Seq<SpecFamily>,
    extra: Seq<SpecLabel>,
    ts: i64,
) -> Seq<SpecTimeSeries>
    decreases fams.len(),
{
    if fams.len() == 0 {
        Seq::empty()
    } else {
        metrics_series(fams[0].name, fams[0].metrics, extra, ts) + families_series(
            fams.drop_first(),
            extra,
            ts,
        )
    }
}

/// What conversion returns: the emitted series ordered by `__name__`, each
/// in canonical form.
pub open spec fn spec_convert(
    fams: Seq<SpecFamily>,
    extra: Seq<SpecLabel>,
    ts: i64,
) -> Seq<SpecTimeSeries> {
    canon_all(sort_by_leq(series_order(), families_series(fams, extra, ts)))
}

/// The caller's extra labels, read from name/value pairs.
pub open spec fn pairs_labels(s: Seq<(String, String)>) -> Seq<SpecLabel> {
    s.map_values(|p: (String, String)| SpecLabel { name: p.0@, value: p.1@ })
}

pub open spec fn spec_custom(c: Option<Vec<(String, String)>>) -> Seq<SpecLabel> {
    match c {
        Some(v) => pairs_labels(v@),
        None => Seq::empty(),
    }
}

proof fn lemma_upsert_found(s: Seq<SpecLabel>, x: SpecLabel, i: int)
    requires
        0 <= i < s.len(),
        s[i].name == x.name,
        forall|k: int| 0 <= k < i ==> s[k].name != x.name,
    ensures
        upsert(s, x) == s.update(i, x),
    decreases i,
{
    if i == 0 {
        assert(seq![x] + s.drop_first() =~= s.update(0, x));
    } else {
        lemma_upsert_found(s.drop_first(), x, i - 1);
        assert(seq![s[0]] + s.drop_first().update(i - 1, x) =~= s.update(i, x));
    }
}

proof fn lemma_upsert_absent(s: Seq<SpecLabel>, x: SpecLabel)
    requires
        forall|k: int| 0 <= k < s.len() ==> s[k].name != x.name,
    ensures
        upsert(s, x) == s.push(x),
    decreases s.len(),
{
    if s.len() == 0 {
        assert(seq![x] =~= s.push(x));
    } else {
        lemma_upsert_absent(s.drop_first(), x);
        assert(seq![s[0]] + s.drop_first().push(x) =~= s.push(x));
    }
}

/// Merging one more label is one more upsert.
proof fn lemma_merge_snoc(base: Seq<SpecLabel>, adds: Seq<SpecLabel>, j: int)
    requires
        0 <= j < adds.len(),
    ensures
        merge_labels(base, adds.take(j + 1)) == upsert(merge_labels(base, adds.take(j)), adds[j]),
    decreases j,
{
    reveal_with_fuel(merge_labels, 3);
    if j == 0 {
        assert(adds.take(1) =~= seq![adds[0]]);
        assert(adds.take(0) =~= Seq::<SpecLabel>::empty());
        assert(adds.take(1).drop_first() =~= Seq::<SpecLabel>::empty());
    } else {
        let d = adds.drop_first();
        let ub = upsert(base, adds[0]);
        lemma_merge_snoc(ub, d, j - 1);
        assert(adds.take(j + 1).drop_first() =~= d.take(j));
        assert(adds.take(j).drop_first() =~= d.take(j - 1));
        assert(adds.take(j + 1)[0] == adds[0]);
        assert(adds.take(j)[0] == adds[0]);
        assert(d[j - 1] == adds[j]);
        assert(adds.take(j + 1).len() == j + 1);
        assert(adds.take(j).len() == j);
        assert(merge_labels(base, adds.take(j + 1)) == merge_labels(ub, d.take(j)));
        assert(merge_labels(base, adds.take(j)) == merge_labels(ub, d.take(j - 1)));
        assert(merge_labels(ub, d.take(j)) == upsert(merge_labels(ub, d.take(j - 1)), d[j - 1]));
    }
}

fn one_sample_vec(bits: u64, ts: i64) -> (r: Vec<Sample>)
    ensures
        r@ == seq![Sample { value_bits: bits, timestamp: ts }],
{
    let mut out: Vec<Sample> = Vec::new();
    out.push(Sample { value_bits: bits, timestamp: ts });
    proof {
        assert(out@ =~= seq![Sample { value_bits: bits, timestamp: ts }]);
    }
    out
}

fn clone_string(s: &String) -> (r: String)
    ensures
        r@ == s@,
{
    s.clone()
}

fn clone_labels(v: &Vec<Label>) -> (r: Vec<Label>)
    ensures
        views_of(r@) == views_of(v@),
{
    let mut out: Vec<Label> = Vec::new();
    let mut i: usize = 0;
    while i < v.len()
        invariant
            0 <= i <= v.len(),
            views_of(out@) =~= views_of(v@).take(i as int),
        decreases v.len() - i,
    {
        let ghost pre = out@;
        let nm = clone_string(&v[i].name);
        let vl = clone_string(&v[i].value);
        proof {
            assert(views_of(out@).len() == i as int);
            assert(pre.len() == i);
            assert(nm@ == v@[i as int].name@);
            assert(vl@ == v@[i as int].value@);
        }
        out.push(Label { name: nm, value: vl });
        proof {
            assert(out@[i as int]@ == v@[i as int]@);
            assert forall|k: int| 0 <= k < i + 1 implies views_of(out@)[k] == views_of(v@).take(
                i + 1,
            )[k] by {
                if k < i {
                    assert(out@[k] == pre[k]);
                    assert(views_of(pre)[k] == views_of(v@).take(i as int)[k]);
                }
            }
            assert(views_of(out@) =~= views_of(v@).take(i + 1));
        }
        i += 1;
    }
    proof {
        assert(views_of(v@).take(v@.len() as int) =~= views_of(v@));
    }
    out
}

/// Merge one label into the set: overwrite the value of the label of that
/// name, or append a new label.
fn upsert_label(v: &mut Vec<Label>, name: &String, value: &String)
    ensures
        views_of(final(v)@) == upsert(
            views_of(old(v)@),
            SpecLabel { name: name@, value: value@ },
        ),
{
    let ghost s = views_of(v@);
    let ghost x = SpecLabel { name: name@, value: value@ };
    let mut i: usize = 0;
    loop
        invariant
            0 <= i <= v.len(),
            v@ == old(v)@,
            s == views_of(v@),
            forall|k: int| 0 <= k < i ==> (#[trigger] s[k]).name != name@,
        ensures
            0 <= i <= v.len(),
            v@ == old(v)@,
            s == views_of(v@),
            forall|k: int| 0 <= k < i ==> (#[trigger] s[k]).name != name@,
            i < v@.len() ==> s[i as int].name == name@,
        decreases v.len() - i,
    {
        if i == v.len() {
            break ;
        }
        if str_eq(v[i].name.as_str(), name.as_str()) {
            proof {
                assert(s[i as int] == v@[i as int]@);
            }
            break ;
        }
        proof {
            assert(s[i as int] == v@[i as int]@);
        }
        i += 1;
    }
    if i == v.len() {
        proof {
            lemma_upsert_absent(s, x);
        }
        v.push(Label { name: clone_string(name), value: clone_string(value) });
        proof {
            assert(views_of(v@) =~= s.push(x));
        }
    } else {
        proof {
            lemma_upsert_found(s, x, i as int);
        }
        let ghost before = v@;
        v.remove(i);
        let ghost mid = v@;
        v.insert(i, Label { name: clone_string(name), value: clone_string(value) });
        proof {
            assert(v@ =~= before.update(i as int, v@[i as int]));
            assert(views_of(v@) =~= s.update(i as int, x));
        }
    }
}

/// The merged label set of one instance, built left to right.
#[verifier::loop_isolation(false)]
fn base_labels_vec(instance: &Vec<Label>, fname: &String, extra: &Vec<Label>) -> (r: Vec<Label>)
    ensures
        views_of(r@) == base_labels(views_of(instance@), fname@, views_of(extra@)),
{
    let ghost all = views_of(instance@) + seq![name_label(fname@)] + views_of(extra@);
    let mut out: Vec<Label> = Vec::new();
    let mut i: usize = 0;
    while i < instance.len()
        invariant
            0 <= i <= instance.len(),
            views_of(out@) == merge_labels(Seq::empty(), all.take(i as int)),
        decreases instance.len() - i,
    {
        proof {
            lemma_merge_snoc(Seq::empty(), all, i as int);
            assert(all[i as int] == views_of(instance@)[i as int]);
            assert(views_of(instance@)[i as int] == instance@[i as int]@);
        }
        upsert_label(&mut out, &instance[i].name, &instance[i].value);
        i += 1;
    }
    let key = String::from_str("__name__");
    proof {
        lemma_merge_snoc(Seq::empty(), all, instance@.len() as int);
        assert(all[instance@.len() as int] == name_label(fname@));
    }
    upsert_label(&mut out, &key, fname);
    let mut j: usize = 0;
    while j < extra.len()
        invariant
            0 <= j <= extra.len(),
            views_of(out@) == merge_labels(
                Seq::empty(),
                all.take(instance@.len() + 1 + j as int),
            ),
        decreases extra.len() - j,
    {
        proof {
            lemma_merge_snoc(Seq::empty(), all, instance@.len() + 1 + j as int);
            assert(all[instance@.len() + 1 + j as int] == views_of(extra@)[j as int]);
            assert(views_of(extra@)[j as int] == extra@[j as int]@);
        }
        upsert_label(&mut out, &extra[j].name, &extra[j].value);
        j += 1;
    }
    proof {
        assert(all.take(all.len() as int) =~= all);
    }
    out
}

/// Append the series of one metric instance in emission order.
#[verifier::loop_isolation(false)]
fn push_metric_series(
    out: &mut Vec<TimeSeries>,
    fname: &String,
    m: &Metric,
    extra: &Vec<Label>,
    now: i64,
)
    ensures
        views_of(final(out)@) == views_of(old(out)@) + metric_series(
            fname@,
            m@,
            views_of(extra@),
            now,
        ),
{
    let ghost start = views_of(out@);
    let ghost basev = base_labels(views_of(m.labels@), fname@, views_of(extra@));
    match &m.value {
        MetricValue::Counter { value_bits } => {
            let labels = base_labels_vec(&m.labels, fname, extra);
            out.push(
                TimeSeries {
                    labels,
                    samples: one_sample_vec(*value_bits, now),
                },
            );
            proof {
                assert(views_of(out@) =~= start + metric_series(
                    fname@,
                    m@,
                    views_of(extra@),
                    now,
                ));
            }
        },
        MetricValue::Gauge { value_bits } => {
            let labels = base_labels_vec(&m.labels, fname, extra);
            out.push(
                TimeSeries {
                    labels,
                    samples: one_sample_vec(*value_bits, now),
                },
            );
            proof {
                assert(views_of(out@) =~= start + metric_series(
                    fname@,
                    m@,
                    views_of(extra@),
                    now,
                ));
            }
        },
        MetricValue::Untyped => {
            proof {
                assert(views_of(out@) =~= start + metric_series(
                    fname@,
                    m@,
                    views_of(extra@),
                    now,
                ));
            }
        },
        MetricValue::Histogram { buckets, sum_bits, count_bits } => {
            let ghost bs = views_of(buckets@);
            let base = base_labels_vec(&m.labels, fname, extra);
            let le_key = String::from_str("le");
            let mut i: usize = 0;
            while i < buckets.len()
                invariant
                    0 <= i <= buckets.len(),
                    views_of(base@) == basev,
                    le_key@ == "le"@,
                    views_of(out@) == start + Seq::new(
                        i as nat,
                        |k: int| series_of(
                            upsert(basev, le_label(bs[k].upper_bound_text)),
                            bs[k].cumulative_count_bits,
                            now,
                        ),
                    ),
                decreases buckets.len() - i,
            {
                let mut lbls = clone_labels(&base);
                upsert_label(&mut lbls, &le_key, &buckets[i].upper_bound_text);
                let samples = one_sample_vec(buckets[i].cumulative_count_bits, now);
                let tnew = TimeSeries { labels: lbls, samples };
                proof {
                    assert(bs[i as int] == buckets@[i as int]@);
                    assert(tnew@ =~= series_of(
                        upsert(basev, le_label(bs[i as int].upper_bound_text)),
                        bs[i as int].cumulative_count_bits,
                        now,
                    ));
                }
                let ghost preout = views_of(out@);
                out.push(tnew);
                proof {
                    assert(views_of(out@) =~= preout.push(tnew@));
                    assert(views_of(out@) =~= start + Seq::new(
                        (i + 1) as nat,
                        |k: int| series_of(
                            upsert(basev, le_label(bs[k].upper_bound_text)),
                            bs[k].cumulative_count_bits,
                            now,
                        ),
                    ));
                }
                i += 1;
            }
            let key = String::from_str("__name__");
            let sum_name = clone_string(fname).concat("_sum");
            let mut lbls = clone_labels(&base);
            upsert_label(&mut lbls, &key, &sum_name);
            let samples = one_sample_vec(*sum_bits, now);
            let tsum = TimeSeries { labels: lbls, samples };
            proof {
                assert(sum_name@ == fname@ + "_sum"@);
                assert(tsum@ =~= series_of(
                    upsert(basev, name_label(fname@ + "_sum"@)),
                    *sum_bits,
                    now,
                ));
            }
            let ghost o1 = views_of(out@);
            out.push(tsum);
            let count_name = clone_string(fname).concat("_count");
            let mut lbls2 = clone_labels(&base);
            upsert_label(&mut lbls2, &key, &count_name);
            let samples2 = one_sample_vec(*count_bits, now);
            let tcount = TimeSeries { labels: lbls2, samples: samples2 };
            proof {
                assert(count_name@ == fname@ + "_count"@);
                assert(tcount@ =~= series_of(
                    upsert(basev, name_label(fname@ + "_count"@)),
                    *count_bits,
                    now,
                ));
            }
            let ghost o2 = views_of(out@);
            out.push(tcount);
            let inf_text = String::from_str("+Inf");
            let mut lbls3 = clone_labels(&base);
            upsert_label(&mut lbls3, &le_key, &inf_text);
            let samples3 = one_sample_vec(*count_bits, now);
            let tinf = TimeSeries { labels: lbls3, samples: samples3 };
            proof {
                assert(tinf@ =~= series_of(upsert(basev, le_label("+Inf"@)), *count_bits, now));
            }
            let ghost o3 = views_of(out@);
            out.push(tinf);
            proof {
                assert(views_of(out@) =~= o3.push(tinf@));
                assert(o3 =~= o2.push(tcount@));
                assert(o2 =~= o1.push(tsum@));
                assert(views_of(out@) =~= start + metric_series(
                    fname@,
                    m@,
                    views_of(extra@),
                    now,
                ));
            }
        },
        MetricValue::Summary { quantiles, sum_bits, count_bits } => {
            let ghost qs = views_of(quantiles@);
            let base = base_labels_vec(&m.labels, fname, extra);
            let q_key = String::from_str("quantile");
            let mut i: usize = 0;
            while i < quantiles.len()
                invariant
                    0 <= i <= quantiles.len(),
                    views_of(base@) == basev,
                    q_key@ == "quantile"@,
                    views_of(out@) == start + Seq::new(
                        i as nat,
                        |k: int| series_of(
                            upsert(basev, quantile_label(qs[k].quantile_text)),
                            qs[k].value_bits,
                            now,
                        ),
                    ),
                decreases quantiles.len() - i,
            {
                let mut lbls = clone_labels(&base);
                upsert_label(&mut lbls, &q_key, &quantiles[i].quantile_text);
                let samples = one_sample_vec(quantiles[i].value_bits, now);
                let tnew = TimeSeries { labels: lbls, samples };
                proof {
                    assert(qs[i as int] == quantiles@[i as int]@);
                    assert(tnew@ =~= series_of(
                        upsert(basev, quantile_label(qs[i as int].quantile_text)),
                        qs[i as int].value_bits,
                        now,
                    ));
                }
                let ghost preout = views_of(out@);
                out.push(tnew);
                proof {
                    assert(views_of(out@) =~= preout.push(tnew@));
                    assert(views_of(out@) =~= start + Seq::new(
                        (i + 1) as nat,
                        |k: int| series_of(
                            upsert(basev, quantile_label(qs[k].quantile_text)),
                            qs[k].value_bits,
                            now,
                        ),
                    ));
                }
                i += 1;
            }
            let key = String::from_str("__name__");
            let sum_name = clone_string(fname).concat("_sum");
            let mut lbls = clone_labels(&base);
            upsert_label(&mut lbls, &key, &sum_name);
            let samples = one_sample_vec(*sum_bits, now);
            let tsum = TimeSeries { labels: lbls, samples };
            proof {
                assert(sum_name@ == fname@ + "_sum"@);
                assert(tsum@ =~= series_of(
                    upsert(basev, name_label(fname@ + "_sum"@)),
                    *sum_bits,
                    now,
                ));
            }
            let ghost o1 = views_of(out@);
            out.push(tsum);
            let count_name = clone_string(fname).concat("_count");
            let mut lbls2 = clone_labels(&base);
            upsert_label(&mut lbls2, &key, &count_name);
            let samples2 = one_sample_vec(*count_bits, now);
            let tcount = TimeSeries { labels: lbls2, samples: samples2 };
            proof {
                assert(count_name@ == fname@ + "_count"@);
                assert(tcount@ =~= series_of(
                    upsert(basev, name_label(fname@ + "_count"@)),
                    *count_bits,
                    now,
                ));
            }
            let ghost o2 = views_of(out@);
            out.push(tcount);
            proof {
                assert(views_of(out@) =~= o2.push(tcount@));
                assert(o2 =~= o1.push(tsum@));
                assert(views_of(out@) =~= start + metric_series(
                    fname@,
                    m@,
                    views_of(extra@),
                    now,
                ));
            }
        },
    }
}

/// Expanding one more metric appends its series.
proof fn lemma_metrics_series_snoc(
    fname: Seq<char>,
    metrics: Seq<SpecMetric>,
    extra: Seq<SpecLabel>,
    ts: i64,
    j: int,
)
    requires
        0 <= j < metrics.len(),
    ensures
        metrics_series(fname, metrics.take(j + 1), extra, ts) == metrics_series(
            fname,
            metrics.take(j),
            extra,
            ts,
        ) + metric_series(fname, metrics[j], extra, ts),
    decreases j,
{
    reveal_with_fuel(metrics_series, 3);
    if j == 0 {
        assert(metrics.take(1) =~= seq![metrics[0]]);
        assert(metrics.take(0) =~= Seq::<SpecMetric>::empty());
        assert(metrics.take(1).drop_first() =~= Seq::<SpecMetric>::empty());
        assert(Seq::<SpecTimeSeries>::empty() + metric_series(fname, metrics[0], extra, ts)
            =~= metric_series(fname, metrics[0], extra, ts));
        assert(metric_series(fname, metrics[0], extra, ts) + Seq::<SpecTimeSeries>::empty()
            =~= metric_series(fname, metrics[0], extra, ts));
    } else {
        let d = metrics.drop_first();
        lemma_metrics_series_snoc(fname, d, extra, ts, j - 1);
        assert(metrics.take(j + 1).drop_first() =~= d.take(j));
        assert(metrics.take(j).drop_first() =~= d.take(j - 1));
        assert(metrics.take(j + 1)[0] == metrics[0]);
        assert(metrics.take(j)[0] == metrics[0]);
        assert(d[j - 1] == metrics[j]);
        assert(metrics.take(j + 1).len() == j + 1);
        assert(metrics.take(j).len() == j);
        assert((metric_series(fname, metrics[0], extra, ts) + metrics_series(fname, d.take(j - 1), extra, ts))
            + metric_series(fname, metrics[j], extra, ts)
            =~= metric_series(fname, metrics[0], extra, ts) + (metrics_series(fname, d.take(j - 1), extra, ts)
            + metric_series(fname, metrics[j], extra, ts)));
    }
}

/// Expanding one more family appends its series.
proof fn lemma_families_series_snoc(fams: Seq<SpecFamily>, extra: Seq<SpecLabel>, ts: i64, j: int)
    requires
        0 <= j < fams.len(),
    ensures
        families_series(fams.take(j + 1), extra, ts) == families_series(fams.take(j), extra, ts)
            + metrics_series(fams[j].name, fams[j].metrics, extra, ts),
    decreases j,
{
    reveal_with_fuel(families_series, 3);
    let g = metrics_series(fams[j].name, fams[j].metrics, extra, ts);
    if j == 0 {
        assert(fams.take(1) =~= seq![fams[0]]);
        assert(fams.take(0) =~= Seq::<SpecFamily>::empty());
        assert(fams.take(1).drop_first() =~= Seq::<SpecFamily>::empty());
        assert(g + Seq::<SpecTimeSeries>::empty() =~= g);
        assert(Seq::<SpecTimeSeries>::empty() + g =~= g);
    } else {
        let d = fams.drop_first();
        let h = metrics_series(fams[0].name, fams[0].metrics, extra, ts);
        lemma_families_series_snoc(d, extra, ts, j - 1);
        assert(fams.take(j + 1).drop_first() =~= d.take(j));
        assert(fams.take(j).drop_first() =~= d.take(j - 1));
        assert(fams.take(j + 1)[0] == fams[0]);
        assert(fams.take(j)[0] == fams[0]);
        assert(d[j - 1] == fams[j]);
        assert(fams.take(j + 1).len() == j + 1);
        assert(fams.take(j).len() == j);
        assert((h + families_series(d.take(j - 1), extra, ts)) + g =~= h + (families_series(
            d.take(j - 1),
            extra,
            ts,
        ) + g));
    }
}

/// The caller's name/value pairs as labels.
#[verifier::loop_isolation(false)]
fn pairs_to_labels(pairs: &Vec<(String, String)>) -> (r: Vec<Label>)
    ensures
        views_of(r@) == pairs_labels(pairs@),
{
    let mut out: Vec<Label> = Vec::new();
    let mut i: usize = 0;
    while i < pairs.len()
        invariant
            0 <= i <= pairs.len(),
            views_of(out@) =~= pairs_labels(pairs@).take(i as int),
        decreases pairs.len() - i,
    {
        let nm = clone_string(&pairs[i].0);
        let vl = clone_string(&pairs[i].1);
        proof {
            assert(nm@ == pairs@[i as int].0@);
            assert(vl@ == pairs@[i as int].1@);
        }
        let ghost pre = out@;
        out.push(Label { name: nm, value: vl });
        proof {
            assert(pre.len() == i);
            assert(out@[i as int]@ == pairs_labels(pairs@)[i as int]);
            assert(views_of(out@) =~= pairs_labels(pairs@).take(i + 1));
        }
        i += 1;
    }
    proof {
        assert(pairs_labels(pairs@).take(pairs@.len() as int) =~= pairs_labels(pairs@));
    }
    out
}

/// Convert a snapshot at a fixed capture timestamp: every emitted sample
/// carries `now`, the series are ordered by `__name__`, and each series is in
/// canonical form. Deterministic: a pure function of its arguments.
#[verifier::loop_isolation(false)]
pub fn convert_at(
    metric_families: &Vec<MetricFamily>,
    custom_labels: &Vec<(String, String)>,
    now: i64,
) -> (r: WriteRequest)
    ensures
        r@ == spec_convert(views_of(metric_families@), pairs_labels(custom_labels@), now),
{
    let ghost fams = views_of(metric_families@);
    let ghost ex = pairs_labels(custom_labels@);
    let extra = pairs_to_labels(custom_labels);
    let mut out: Vec<TimeSeries> = Vec::new();
    let mut i: usize = 0;
    while i < metric_families.len()
        invariant
            0 <= i <= metric_families.len(),
            views_of(extra@) == ex,
            views_of(out@) == families_series(fams.take(i as int), ex, now),
        decreases metric_families.len() - i,
    {
        let fam = &metric_families[i];
        proof {
            assert(fams[i as int] == metric_families@[i as int]@);
        }
        let ghost fname = fams[i as int].name;
        let ghost fmetrics = fams[i as int].metrics;
        let mut j: usize = 0;
        while j < fam.metrics.len()
            invariant
                0 <= j <= fam.metrics.len(),
                views_of(extra@) == ex,
                fam == &metric_families[i as int],
                0 <= i < metric_families.len(),
                fname == fams[i as int].name,
                fmetrics == fams[i as int].metrics,
                views_of(out@) == families_series(fams.take(i as int), ex, now)
                    + metrics_series(fname, fmetrics.take(j as int), ex, now),
            decreases fam.metrics.len() - j,
        {
            proof {
                lemma_metrics_series_snoc(fname, fmetrics, ex, now, j as int);
                assert(fmetrics[j as int] == fam.metrics@[j as int]@);
            }
            push_metric_series(&mut out, &fam.name, &fam.metrics[j], &extra, now);
            j += 1;
        }
        proof {
            lemma_families_series_snoc(fams, ex, now, i as int);
            assert(fmetrics.take(fmetrics.len() as int) =~= fmetrics);
        }
        i += 1;
    }
    proof {
        assert(fams.take(fams.len() as int) =~= fams);
    }
    sort_series_vec(&mut out);
    let mut w = WriteRequest { timeseries: out };
    w.sort();
    w
}

/// Relies on std::time::SystemTime::now and duration_since: the result is
/// whatever the clock reports, and nothing is assumed of it. A clock standing
/// before the epoch reads as zero.
#[verifier::external_body]
fn clock_millis() -> i64 {
    match std::time::SystemTime::now().duration_since(std::time::SystemTime::UNIX_EPOCH) {
        Ok(d) => d.as_millis() as i64,
        Err(_) => 0,
    }
}

/// The capture timestamp: milliseconds since the Unix epoch, read from the
/// system clock. Nondeterministic, so nothing is promised of the value.
pub fn get_timestamp() -> i64 {
    clock_millis()
}

impl WriteRequest {
    /// Convert metric-family snapshots into a write request, stamping every
    /// sample with the capture time read once from the system clock.
    ///
    /// The closed `MetricValue` type cannot hold a snapshot whose type tag
    /// disagrees with its data, so conversion always succeeds.
    pub fn from_metric_families(
        metric_families: Vec<MetricFamily>,
        custom_labels: Option<Vec<(String, String)>>,
    ) -> (r: Result<WriteRequest, ConvertError>)
        ensures
            r is Ok,
            exists|ts: i64|
                r->Ok_0@ == spec_convert(
                    views_of(metric_families@),
                    spec_custom(custom_labels),
                    ts,
                ),
    {
        let now = get_timestamp();
        let customs: Vec<(String, String)> = match custom_labels {
            Some(v) => v,
            None => Vec::new(),
        };
        proof {
            assert(pairs_labels(customs@) =~= spec_custom(custom_labels));
        }
        let w = convert_at(&metric_families, &customs, now);
        proof {
            assert(w@ == spec_convert(
                views_of(metric_families@),
                spec_custom(custom_labels),
                now,
            ));
        }
        Ok(w)
    }
}

/// No two labels of the set share a name.
pub open spec fn unique_names(s: Seq<SpecLabel>) -> bool {
    forall|i: int, j: int| 0 <= i < j < s.len() ==> (#[trigger] s[i]).name != (#[trigger] s[j]).name
}

/// Some label of the set is called `n`.
pub open spec fn has_name(s: Seq<SpecLabel>, n: Seq<char>) -> bool {
    exists|i: int| 0 <= i < s.len() && (#[trigger] s[i]).name == n
}

/// The names of a label set, in order.
pub open spec fn names_of(s: Seq<SpecLabel>) -> Seq<Seq<char>> {
    s.map_values(|l: SpecLabel| l.name)
}

/// An upsert never changes which names are present, beyond adding its own.
proof fn lemma_upsert_names(s: Seq<SpecLabel>, x: SpecLabel)
    ensures
        has_name(s, x.name) ==> names_of(upsert(s, x)) == names_of(s),
        !has_name(s, x.name) ==> names_of(upsert(s, x)) == names_of(s).push(x.name),
    decreases s.len(),
{
    let u = upsert(s, x);
    if s.len() == 0 {
        assert(names_of(u) =~= names_of(s).push(x.name)) by {
            assert(u =~= seq![x]);
            assert(names_of(u)[0] == u[0].name);
        }
    } else if s[0].name == x.name {
        assert(has_name(s, x.name));
        assert(names_of(u) =~= names_of(s)) by {
            assert forall|k: int| 0 <= k < u.len() implies names_of(u)[k] == names_of(s)[k] by {
                assert(names_of(u)[k] == u[k].name);
                assert(names_of(s)[k] == s[k].name);
                if k == 0 {
                    assert(u[0] == x);
                } else {
                    assert(u[k] == s.drop_first()[k - 1]);
                    assert(s.drop_first()[k - 1] == s[k]);
                }
            }
        }
    } else {
        let t = s.drop_first();
        lemma_upsert_names(t, x);
        let ut = upsert(t, x);
        assert(u =~= seq![s[0]] + ut);
        assert(forall|k: int| 0 <= k < t.len() ==> (#[trigger] t[k]) == s[k + 1]);
        assert(names_of(ut).len() == ut.len());
        assert(names_of(t).len() == t.len());
        assert(names_of(s).len() == s.len());
        assert(names_of(u).len() == u.len());
        if has_name(t, x.name) {
            assert(ut.len() == t.len());
            assert(u.len() == s.len());
            assert(has_name(s, x.name)) by {
                let w = choose|w: int| 0 <= w < t.len() && t[w].name == x.name;
                assert(s[w + 1].name == x.name);
            }
            assert(names_of(u) =~= names_of(s)) by {
                assert forall|k: int| 0 <= k < u.len() implies names_of(u)[k] == names_of(s)[k] by {
                    assert(names_of(u)[k] == u[k].name);
                    assert(names_of(s)[k] == s[k].name);
                    if k > 0 {
                        assert(u[k] == ut[k - 1]);
                        assert(names_of(ut)[k - 1] == ut[k - 1].name);
                        assert(names_of(ut)[k - 1] == names_of(t)[k - 1]);
                        assert(names_of(t)[k - 1] == t[k - 1].name);
                    }
                }
            }
        } else {
            assert(!has_name(s, x.name)) by {
                if has_name(s, x.name) {
                    let w = choose|w: int| 0 <= w < s.len() && s[w].name == x.name;
                    assert(w > 0);
                    assert(t[w - 1].name == x.name);
                }
            }
            assert(ut.len() == t.len() + 1);
            assert(u.len() == s.len() + 1);
            assert(names_of(u) =~= names_of(s).push(x.name)) by {
                assert forall|k: int| 0 <= k < u.len() implies names_of(u)[k] == names_of(s).push(
                    x.name,
                )[k] by {
                    assert(names_of(u)[k] == u[k].name);
                    if k > 0 {
                        assert(u[k] == ut[k - 1]);
                        assert(names_of(ut)[k - 1] == ut[k - 1].name);
                        assert(names_of(ut)[k - 1] == names_of(t).push(x.name)[k - 1]);
                        if k - 1 < t.len() {
                            assert(names_of(t)[k - 1] == t[k - 1].name);
                            assert(names_of(s)[k] == s[k].name);
                        }
                    } else {
                        assert(names_of(s)[0] == s[0].name);
                    }
                }
            }
        }
    }
}

/// Merging keeps names unique, and a merged-in name stays present.
proof fn lemma_upsert_wf(s: Seq<SpecLabel>, x: SpecLabel)
    requires
        unique_names(s),
    ensures
        unique_names(upsert(s, x)),
        has_name(upsert(s, x), x.name),
        forall|n: Seq<char>| has_name(s, n) ==> #[trigger] has_name(upsert(s, x), n),
{
    let u = upsert(s, x);
    lemma_upsert_names(s, x);
    assert(names_of(u).len() == u.len());
    assert(names_of(s).len() == s.len());
    if has_name(s, x.name) {
        assert(u.len() == s.len());
        assert forall|i: int, j: int| 0 <= i < j < u.len() implies u[i].name != u[j].name by {
            assert(names_of(u)[i] == u[i].name);
            assert(names_of(u)[j] == u[j].name);
            assert(names_of(s)[i] == s[i].name);
            assert(names_of(s)[j] == s[j].name);
            assert(names_of(u)[i] == names_of(s)[i]);
            assert(names_of(u)[j] == names_of(s)[j]);
        }
        assert(has_name(u, x.name)) by {
            let w = choose|w: int| 0 <= w < s.len() && s[w].name == x.name;
            assert(names_of(u)[w] == u[w].name);
            assert(names_of(s)[w] == s[w].name);
            assert(names_of(u)[w] == names_of(s)[w]);
            assert(u[w].name == x.name);
        }
        assert forall|n: Seq<char>| has_name(s, n) implies #[trigger] has_name(u, n) by {
            let w = choose|w: int| 0 <= w < s.len() && s[w].name == n;
            assert(names_of(u)[w] == u[w].name);
            assert(names_of(s)[w] == s[w].name);
            assert(names_of(u)[w] == names_of(s)[w]);
            assert(u[w].name == n);
        }
    } else {
        assert(u.len() == s.len() + 1);
        assert forall|i: int, j: int| 0 <= i < j < u.len() implies u[i].name != u[j].name by {
            assert(names_of(u)[i] == u[i].name);
            assert(names_of(u)[j] == u[j].name);
            assert(names_of(u)[i] == names_of(s).push(x.name)[i]);
            assert(names_of(u)[j] == names_of(s).push(x.name)[j]);
            if j < s.len() {
                assert(names_of(s)[i] == s[i].name);
                assert(names_of(s)[j] == s[j].name);
            } else {
                assert(u[j].name == x.name);
                assert(names_of(s)[i] == s[i].name);
                assert(u[i].name == s[i].name);
            }
        }
        assert(names_of(u)[s.len() as int] == u[s.len() as int].name);
        assert(u[s.len() as int].name == x.name);
        assert forall|n: Seq<char>| has_name(s, n) implies #[trigger] has_name(u, n) by {
            let w = choose|w: int| 0 <= w < s.len() && s[w].name == n;
            assert(names_of(u)[w] == u[w].name);
            assert(names_of(s)[w] == s[w].name);
            assert(names_of(u)[w] == names_of(s).push(x.name)[w]);
            assert(u[w].name == n);
        }
    }
}

/// A merged label set has unique names, and holds every name merged in.
proof fn lemma_merge_wf(base: Seq<SpecLabel>, adds: Seq<SpecLabel>)
    requires
        unique_names(base),
    ensures
        unique_names(merge_labels(base, adds)),
        forall|k: int|
            0 <= k < adds.len() ==> #[trigger] has_name(
                merge_labels(base, adds),
                adds[k].name,
            ),
        forall|n: Seq<char>|
            has_name(base, n) ==> #[trigger] has_name(merge_labels(base, adds), n),
    decreases adds.len(),
{
    if adds.len() > 0 {
        let u = upsert(base, adds[0]);
        lemma_upsert_wf(base, adds[0]);
        lemma_merge_wf(u, adds.drop_first());
        let m = merge_labels(base, adds);
        assert forall|k: int| 0 <= k < adds.len() implies #[trigger] has_name(m, adds[k].name) by {
            if k == 0 {
                assert(has_name(u, adds[0].name));
            } else {
                assert(adds.drop_first()[k - 1] == adds[k]);
            }
        }
    }
}

/// The shape of every emitted series: uniquely named labels holding
/// `__name__`, and exactly one sample.
pub open spec fn series_shape(t: SpecTimeSeries) -> bool {
    &&& unique_names(t.labels)
    &&& has_name(t.labels, label_name())
    &&& t.samples.len() == 1
}

proof fn lemma_base_labels_shape(instance: Seq<SpecLabel>, fname: Seq<char>, extra: Seq<SpecLabel>)
    ensures
        unique_names(base_labels(instance, fname, extra)),
        has_name(base_labels(instance, fname, extra), label_name()),
{
    let all = instance + seq![name_label(fname)] + extra;
    lemma_merge_wf(Seq::empty(), all);
    assert(all[instance.len() as int] == name_label(fname));
    assert(has_name(base_labels(instance, fname, extra), all[instance.len() as int].name));
}

proof fn lemma_metric_series_shape(
    fname: Seq<char>,
    m: SpecMetric,
    extra: Seq<SpecLabel>,
    ts: i64,
    k: int,
)
    requires
        0 <= k < metric_series(fname, m, extra, ts).len(),
    ensures
        series_shape(metric_series(fname, m, extra, ts)[k]),
{
    let base = base_labels(m.labels, fname, extra);
    lemma_base_labels_shape(m.labels, fname, extra);
    let e = metric_series(fname, m, extra, ts);
    match m.value {
        SpecMetricValue::Counter { value_bits } => {
        },
        SpecMetricValue::Gauge { value_bits } => {
        },
        SpecMetricValue::Untyped => {
        },
        SpecMetricValue::Histogram { buckets, sum_bits, count_bits } => {
            if k < buckets.len() {
                lemma_upsert_wf(base, le_label(buckets[k].upper_bound_text));
            } else if k == buckets.len() {
                lemma_upsert_wf(base, name_label(fname + "_sum"@));
            } else if k == buckets.len() + 1 {
                lemma_upsert_wf(base, name_label(fname + "_count"@));
            } else {
                lemma_upsert_wf(base, le_label("+Inf"@));
            }
        },
        SpecMetricValue::Summary { quantiles, sum_bits, count_bits } => {
            if k < quantiles.len() {
                lemma_upsert_wf(base, quantile_label(quantiles[k].quantile_text));
            } else if k == quantiles.len() {
                lemma_upsert_wf(base, name_label(fname + "_sum"@));
            } else {
                lemma_upsert_wf(base, name_label(fname + "_count"@));
            }
        },
    }
}

proof fn lemma_metrics_series_shape(
    fname: Seq<char>,
    metrics: Seq<SpecMetric>,
    extra: Seq<SpecLabel>,
    ts: i64,
    k: int,
)
    requires
        0 <= k < metrics_series(fname, metrics, extra, ts).len(),
    ensures
        series_shape(metrics_series(fname, metrics, extra, ts)[k]),
    decreases metrics.len(),
{
    let h = metric_series(fname, metrics[0], extra, ts);
    if k < h.len() {
        lemma_metric_series_shape(fname, metrics[0], extra, ts, k);
    } else {
        lemma_metrics_series_shape(fname, metrics.drop_first(), extra, ts, k - h.len());
    }
}

proof fn lemma_families_series_shape(fams: Seq<SpecFamily>, extra: Seq<SpecLabel>, ts: i64, k: int)
    requires
        0 <= k < families_series(fams, extra, ts).len(),
    ensures
        series_shape(families_series(fams, extra, ts)[k]),
    decreases fams.len(),
{
    let h = metrics_series(fams[0].name, fams[0].metrics, extra, ts);
    if k < h.len() {
        lemma_metrics_series_shape(fams[0].name, fams[0].metrics, extra, ts, k);
    } else {
        lemma_families_series_shape(fams.drop_first(), extra, ts, k - h.len());
    }
}

/// Names stay unique under any permutation of the labels.
proof fn lemma_perm_unique_names(s1: Seq<SpecLabel>, s2: Seq<SpecLabel>)
    requires
        s1.to_multiset() == s2.to_multiset(),
        unique_names(s1),
    ensures
        unique_names(s2),
{
    broadcast use vstd::multiset::group_multiset_axioms;

    s1.to_multiset_ensures();
    s2.to_multiset_ensures();
    assert forall|i: int, j: int| 0 <= i < j < s2.len() implies s2[i].name != s2[j].name by {
        if s2[i].name == s2[j].name {
            if s2[i] == s2[j] {
                lemma_two_positions_count(s2, i, j);
                lemma_count_two_positions(s1, s2[i]);
            } else {
                assert(s2.contains(s2[i]));
                assert(s2.to_multiset().count(s2[i]) > 0);
                assert(s1.to_multiset().count(s2[i]) > 0);
                assert(s1.contains(s2[i]));
                assert(s2.contains(s2[j]));
                assert(s2.to_multiset().count(s2[j]) > 0);
                assert(s1.to_multiset().count(s2[j]) > 0);
                assert(s1.contains(s2[j]));
                let k1 = choose|k: int| 0 <= k < s1.len() && s1[k] == s2[i];
                let k2 = choose|k: int| 0 <= k < s1.len() && s1[k] == s2[j];
                assert(k1 != k2);
            }
        }
    }
}

/// Every series of a conversion's result has exactly one `__name__` label
/// and exactly one sample, whatever the snapshot holds.
pub proof fn lemma_convert_series_shape(
    fams: Seq<SpecFamily>,
    extra: Seq<SpecLabel>,
    ts: i64,
    i: int,
)
    requires
        0 <= i < spec_convert(fams, extra, ts).len(),
    ensures
        spec_convert(fams, extra, ts)[i].samples.len() == 1,
        exists|j: int|
            0 <= j < spec_convert(fams, extra, ts)[i].labels.len() && (
            #[trigger] spec_convert(fams, extra, ts)[i].labels[j]).name == label_name(),
        forall|j: int, k: int|
            0 <= j < k < spec_convert(fams, extra, ts)[i].labels.len() ==> !((
            #[trigger] spec_convert(fams, extra, ts)[i].labels[j]).name == label_name() && (
            #[trigger] spec_convert(fams, extra, ts)[i].labels[k]).name == label_name()),
{
    broadcast use vstd::multiset::group_multiset_axioms;

    let e = families_series(fams, extra, ts);
    lemma_series_order_total();
    lemma_sort_by_leq_props(series_order(), e);
    let s = sort_by_leq(series_order(), e);
    assert(spec_convert(fams, extra, ts)[i] == canon_series(s[i]));
    assert(e.contains(s[i]));
    let w = choose|w: int| 0 <= w < e.len() && e[w] == s[i];
    lemma_families_series_shape(fams, extra, ts, w);
    assert(series_shape(s[i]));
    let t = s[i];
    // canonical labels are a permutation of the emitted ones
    lemma_label_order_total();
    lemma_sample_order_total();
    lemma_sort_by_leq_props(label_order(), t.labels);
    lemma_sort_by_leq_props(sample_order(), t.samples);
    let cl = sort_by_leq(label_order(), t.labels);
    lemma_perm_unique_names(t.labels, cl);
    t.labels.to_multiset_ensures();
    cl.to_multiset_ensures();
    let j0 = choose|j: int| 0 <= j < t.labels.len() && (#[trigger] t.labels[j]).name
        == label_name();
    assert(t.labels.contains(t.labels[j0]));
    assert(t.labels.to_multiset().count(t.labels[j0]) > 0);
    assert(cl.to_multiset().count(t.labels[j0]) > 0);
    assert(cl.contains(t.labels[j0]));
    let j1 = choose|j: int| 0 <= j < cl.len() && cl[j] == t.labels[j0];
    assert(cl[j1].name == label_name());
    assert(canon_series(t).labels == cl);
    assert forall|j: int, k: int| 0 <= j < k < cl.len() implies !((#[trigger] cl[j]).name
        == label_name() && (#[trigger] cl[k]).name == label_name()) by {
        assert(unique_names(cl));
    }
}

/// Dropping one family from the snapshot takes exactly its block of series
/// out of the expansion.
proof fn lemma_families_series_remove(
    fams: Seq<SpecFamily>,
    extra: Seq<SpecLabel>,
    ts: i64,
    i: int,
)
    requires
        0 <= i < fams.len(),
    ensures
        families_series(fams, extra, ts).to_multiset() == families_series(
            fams.remove(i),
            extra,
            ts,
        ).to_multiset().add(
            metrics_series(fams[i].name, fams[i].metrics, extra, ts).to_multiset(),
        ),
    decreases i,
{
    broadcast use vstd::multiset::group_multiset_axioms;

    let block = |k: int| metrics_series(fams[k].name, fams[k].metrics, extra, ts);
    let e = families_series(fams, extra, ts);
    let d = fams.drop_first();
    if i == 0 {
        assert(fams.remove(0) =~= d);
        lemma_concat_multiset(block(0), families_series(d, extra, ts));
        assert(e.to_multiset() =~= families_series(d, extra, ts).to_multiset().add(
            block(0).to_multiset(),
        ));
    } else {
        lemma_families_series_remove(d, extra, ts, i - 1);
        assert(d[i - 1] == fams[i]);
        let r = fams.remove(i);
        assert(r[0] == fams[0]);
        assert(r.drop_first() =~= d.remove(i - 1));
        let b0 = metrics_series(r[0].name, r[0].metrics, extra, ts);
        lemma_concat_multiset(b0, families_series(d, extra, ts));
        lemma_concat_multiset(b0, families_series(d.remove(i - 1), extra, ts));
        assert(e.to_multiset() == b0.to_multiset().add(
            families_series(d, extra, ts).to_multiset(),
        ));
        assert(families_series(r, extra, ts).to_multiset() == b0.to_multiset().add(
            families_series(d.remove(i - 1), extra, ts).to_multiset(),
        ));
        assert(e.to_multiset() =~= families_series(r, extra, ts).to_multiset().add(
            metrics_series(fams[i].name, fams[i].metrics, extra, ts).to_multiset(),
        ));
    }
}

/// A reordered family list expands to the same collection of series.
proof fn lemma_families_series_perm(
    f1: Seq<SpecFamily>,
    f2: Seq<SpecFamily>,
    extra: Seq<SpecLabel>,
    ts: i64,
)
    requires
        f1.to_multiset() == f2.to_multiset(),
    ensures
        families_series(f1, extra, ts).to_multiset() == families_series(f2, extra, ts).to_multiset(),
    decreases f1.len(),
{
    broadcast use vstd::multiset::group_multiset_axioms;

    f1.to_multiset_ensures();
    f2.to_multiset_ensures();
    if f1.len() == 0 {
        assert(f2.len() == 0);
        assert(f1 =~= f2);
    } else {
        let h = f1[0];
        assert(f1.contains(h));
        assert(f2.to_multiset().count(h) > 0);
        assert(f2.contains(h));
        let i = choose|i: int| 0 <= i < f2.len() && f2[i] == h;
        let d1 = f1.drop_first();
        let d2 = f2.remove(i);
        assert(d1 =~= f1.remove(0));
        f1.remove_ensures(0);
        f2.remove_ensures(i);
        assert(f1.remove(0).to_multiset() =~= f1.to_multiset().remove(h));
        assert(d2.to_multiset() =~= f2.to_multiset().remove(h));
        lemma_families_series_perm(d1, d2, extra, ts);
        lemma_families_series_remove(f2, extra, ts, i);
        let b = metrics_series(h.name, h.metrics, extra, ts);
        lemma_concat_multiset(b, families_series(d1, extra, ts));
        assert(families_series(f1, extra, ts).to_multiset() == b.to_multiset().add(
            families_series(d1, extra, ts).to_multiset(),
        ));
        assert(families_series(f1, extra, ts).to_multiset() =~= families_series(
            f2,
            extra,
            ts,
        ).to_multiset());
    }
}

/// The series order of a conversion is total, and the result does not depend
/// on the order in which the snapshot lists its families: two snapshots
/// holding the same families, no two emitted series sharing a `__name__`
/// value, convert to the same request, byte for byte.
pub proof fn lemma_convert_order_independent(
    f1: Seq<SpecFamily>,
    f2: Seq<SpecFamily>,
    extra: Seq<SpecLabel>,
    ts: i64,
)
    requires
        f1.to_multiset() == f2.to_multiset(),
        forall|i: int, j: int|
            0 <= i < j < families_series(f1, extra, ts).len() ==> series_name(
                #[trigger] families_series(f1, extra, ts)[i],
            ) != series_name(#[trigger] families_series(f1, extra, ts)[j]),
    ensures
        spec_convert(f1, extra, ts) == spec_convert(f2, extra, ts),
{
    broadcast use vstd::multiset::group_multiset_axioms;

    let e1 = families_series(f1, extra, ts);
    let e2 = families_series(f2, extra, ts);
    lemma_families_series_perm(f1, f2, extra, ts);
    lemma_series_order_total();
    lemma_sort_by_leq_props(series_order(), e1);
    lemma_sort_by_leq_props(series_order(), e2);
    let s1 = sort_by_leq(series_order(), e1);
    let s2 = sort_by_leq(series_order(), e2);
    e1.to_multiset_ensures();
    s1.to_multiset_ensures();
    let so = series_order();
    assert forall|i: int, j: int| 0 <= i < j < s1.len() implies !(so(s1[i], s1[j]) && so(
        s1[j],
        s1[i],
    )) by {
        if so(s1[i], s1[j]) && so(s1[j], s1[i]) {
            lemma_lex_leq_total(series_name(s1[i]), series_name(s1[j]));
            assert(series_name(s1[i]) == series_name(s1[j]));
            if s1[i] == s1[j] {
                lemma_two_positions_count(s1, i, j);
                lemma_count_two_positions(e1, s1[i]);
            } else {
                assert(s1.contains(s1[i]));
                assert(s1.to_multiset().count(s1[i]) > 0);
                assert(e1.to_multiset().count(s1[i]) > 0);
                assert(e1.contains(s1[i]));
                assert(s1.contains(s1[j]));
                assert(s1.to_multiset().count(s1[j]) > 0);
                assert(e1.to_multiset().count(s1[j]) > 0);
                assert(e1.contains(s1[j]));
                let k1 = choose|k: int| 0 <= k < e1.len() && e1[k] == s1[i];
                let k2 = choose|k: int| 0 <= k < e1.len() && e1[k] == s1[j];
                assert(k1 != k2);
            }
        }
    }
    lemma_sorted_unique(series_order(), s1, s2);
}

/// Converting an empty snapshot yields an empty request.
pub proof fn lemma_convert_empty(extra: Seq<SpecLabel>, ts: i64)
    ensures
        spec_convert(Seq::empty(), extra, ts) == Seq::<SpecTimeSeries>::empty(),
{
    assert(families_series(Seq::empty(), extra, ts) == Seq::<SpecTimeSeries>::empty());
    assert(sort_by_leq(series_order(), Seq::<SpecTimeSeries>::empty())
        == Seq::<SpecTimeSeries>::empty());
    assert(canon_all(Seq::<SpecTimeSeries>::empty()) =~= Seq::<SpecTimeSeries>::empty());
}

} // verus!
