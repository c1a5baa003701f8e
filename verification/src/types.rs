//! The wire data model: labels, samples, time series and write requests,
//! together with the canonical orders the protocol requires of them.

use crate::order::{
    insert_sorted, lemma_insert_sorted_position, lemma_lex_leq_total, lemma_lex_leq_transitive,
    lemma_sort_idempotent, lex_leq, sort_by_leq, total_leq,
};
use vstd::prelude::*;

verus! {

/// The reserved label carrying the metric's name.
pub const LABEL_NAME: &'static str = "__name__";

pub const CONTENT_TYPE: &'static str = "application/x-protobuf";

pub const HEADER_NAME_REMOTE_WRITE_VERSION: &'static str = "X-Prometheus-Remote-Write-Version";

pub const REMOTE_WRITE_VERSION_01: &'static str = "0.1.0";

pub const COUNT_SUFFIX: &'static str = "_count";

pub const SUM_SUFFIX: &'static str = "_sum";

pub const TOTAL_SUFFIX: &'static str = "_total";

/// The views of a sequence's elements.
pub open spec fn views_of<T: View>(s: Seq<T>) -> Seq<T::V> {
    s.map_values(|t: T| t@)
}

/// A label: a named piece of text attached to a series.
#[derive(Debug, Clone, Hash, PartialEq, Eq)]
pub struct Label {
    pub name: String,
    pub value: String,
}

/// The mathematical shape of a label.
#[verifier::ext_equal]
pub ghost struct SpecLabel {
    pub name: Seq<char>,
    pub value: Seq<char>,
}

impl View for Label {
    type V = SpecLabel;

    open spec fn view(&self) -> SpecLabel {
        SpecLabel { name: self.name@, value: self.value@ }
    }
}

/// One observation. The value is a 64-bit float carried as its IEEE-754 bit
/// pattern, so that the conversion and encoding logic is a pure function of
/// integers; the timestamp is in milliseconds since the epoch.
#[derive(Debug, Clone, Copy, PartialEq, Eq, Structural)]
pub struct Sample {
    pub value_bits: u64,
    pub timestamp: i64,
}

/// A label rendered from a numeric threshold, carried as the IEEE-754 bit
/// pattern of the bound it stands for.
#[derive(Debug, Clone, Copy, PartialEq, Eq, Structural)]
pub enum ExtraLabel {
    LessThan(u64),
    Quantile(u64),
}

/// A time series: a set of uniquely named labels and its observations.
#[derive(Debug, Clone, PartialEq)]
pub struct TimeSeries {
    pub labels: Vec<Label>,
    pub samples: Vec<Sample>,
}

#[verifier::ext_equal]
pub ghost struct SpecTimeSeries {
    pub labels: Seq<SpecLabel>,
    pub samples: Seq<Sample>,
}

impl View for TimeSeries {
    type V = SpecTimeSeries;

    open spec fn view(&self) -> SpecTimeSeries {
        SpecTimeSeries { labels: views_of(self.labels@), samples: self.samples@ }
    }
}

/// An ordered collection of time series, built fresh per export cycle.
#[derive(Debug, Clone, PartialEq)]
pub struct WriteRequest {
    pub timeseries: Vec<TimeSeries>,
}

impl View for WriteRequest {
    type V = Seq<SpecTimeSeries>;

    open spec fn view(&self) -> Seq<SpecTimeSeries> {
        views_of(self.timeseries@)
    }
}

/// The reserved label name as a character sequence.
pub open spec fn label_name() -> Seq<char> {
    "__name__"@
}

/// Labels are ordered lexicographically by name.
pub open spec fn label_order() -> spec_fn(SpecLabel, SpecLabel) -> bool {
    |a: SpecLabel, b: SpecLabel| lex_leq(a.name, b.name)
}

/// Samples are ordered by timestamp.
pub open spec fn sample_order() -> spec_fn(Sample, Sample) -> bool {
    |a: Sample, b: Sample| a.timestamp <= b.timestamp
}

/// The value of the first label called `n`, or empty text when none is.
pub open spec fn first_value(labels: Seq<SpecLabel>, n: Seq<char>) -> Seq<char>
    decreases labels.len(),
{
    if labels.len() == 0 {
        Seq::empty()
    } else if labels[0].name == n {
        labels[0].value
    } else {
        first_value(labels.drop_first(), n)
    }
}

/// A series' identifying name: the value of its first `__name__` label.
pub open spec fn series_name(t: SpecTimeSeries) -> Seq<char> {
    first_value(t.labels, label_name())
}

/// Series are ordered lexicographically by their `__name__` value.
pub open spec fn series_order() -> spec_fn(SpecTimeSeries, SpecTimeSeries) -> bool {
    |a: SpecTimeSeries, b: SpecTimeSeries| lex_leq(series_name(a), series_name(b))
}

pub proof fn lemma_label_order_total()
    ensures
        total_leq(label_order()),
{
    let lo = label_order();
    assert forall|a: SpecLabel, b: SpecLabel| #[trigger] lo(a, b) || #[trigger] lo(b, a) by {
        lemma_lex_leq_total(a.name, b.name);
    }
    assert forall|a: SpecLabel, b: SpecLabel, c: SpecLabel|
        #[trigger] lo(a, b) && #[trigger] lo(b, c) implies lo(a, c) by {
        lemma_lex_leq_transitive(a.name, b.name, c.name);
    }
}

pub proof fn lemma_sample_order_total()
    ensures
        total_leq(sample_order()),
{
}

pub proof fn lemma_series_order_total()
    ensures
        total_leq(series_order()),
{
    let so = series_order();
    assert forall|a: SpecTimeSeries, b: SpecTimeSeries| #[trigger] so(a, b) || #[trigger] so(
        b,
        a,
    ) by {
        lemma_lex_leq_total(series_name(a), series_name(b));
    }
    assert forall|a: SpecTimeSeries, b: SpecTimeSeries, c: SpecTimeSeries|
        #[trigger] so(a, b) && #[trigger] so(b, c) implies so(a, c) by {
        lemma_lex_leq_transitive(series_name(a), series_name(b), series_name(c));
    }
}

/// A series in canonical form: labels sorted by name, samples by timestamp.
pub open spec fn canon_series(t: SpecTimeSeries) -> SpecTimeSeries {
    SpecTimeSeries {
        labels: sort_by_leq(label_order(), t.labels),
        samples: sort_by_leq(sample_order(), t.samples),
    }
}

/// Every series of a request in canonical form.
pub open spec fn canon_all(s: Seq<SpecTimeSeries>) -> Seq<SpecTimeSeries> {
    s.map_values(|t: SpecTimeSeries| canon_series(t))
}

/// Canonicalization is idempotent: sorting a request that is already in
/// canonical form changes nothing.
pub proof fn lemma_canon_idempotent(s: Seq<SpecTimeSeries>)
    ensures
        canon_all(canon_all(s)) == canon_all(s),
{
    lemma_label_order_total();
    lemma_sample_order_total();
    assert forall|i: int| 0 <= i < s.len() implies #[trigger] canon_all(canon_all(s))[i]
        == canon_all(s)[i] by {
        lemma_sort_idempotent(label_order(), s[i].labels);
        lemma_sort_idempotent(sample_order(), s[i].samples);
        assert(canon_series(canon_series(s[i])) =~= canon_series(s[i]));
    }
    assert(canon_all(canon_all(s)) =~= canon_all(s));
}

/// Equality of text, decided character by character.
pub fn str_eq(a: &str, b: &str) -> (r: bool)
    ensures
        r == (a@ == b@),
{
    let la = a.unicode_len();
    let lb = b.unicode_len();
    if la != lb {
        proof {
            if a@ == b@ {
                assert(a@.len() == b@.len());
            }
        }
        return false;
    }
    let mut i: usize = 0;
    while i < la
        invariant
            0 <= i <= la,
            la == a@.len(),
            la == b@.len(),
            forall|k: int| 0 <= k < i ==> a@[k] == b@[k],
        decreases la - i,
    {
        let ca = a.get_char(i);
        let cb = b.get_char(i);
        if ca != cb {
            proof {
                if a@ == b@ {
                    assert(a@[i as int] == b@[i as int]);
                }
            }
            return false;
        }
        i += 1;
    }
    proof {
        assert(a@ =~= b@);
    }
    true
}

/// Skipping a common prefix does not change the lexicographic comparison.
proof fn lemma_lex_leq_skip(a: Seq<char>, b: Seq<char>, i: int)
    requires
        0 <= i <= a.len(),
        i <= b.len(),
        forall|k: int| 0 <= k < i ==> a[k] == b[k],
    ensures
        lex_leq(a, b) == lex_leq(a.skip(i), b.skip(i)),
    decreases i,
{
    if i == 0 {
        assert(a.skip(0) =~= a);
        assert(b.skip(0) =~= b);
    } else {
        assert(a[0] == b[0]);
        assert(lex_leq(a, b) == lex_leq(a.drop_first(), b.drop_first()));
        assert(a.drop_first() =~= a.skip(1));
        assert(b.drop_first() =~= b.skip(1));
        lemma_lex_leq_skip(a.skip(1), b.skip(1), i - 1);
        assert(a.skip(1).skip(i - 1) =~= a.skip(i));
        assert(b.skip(1).skip(i - 1) =~= b.skip(i));
    }
}

/// Lexicographic comparison of text, decided character by character.
pub fn str_leq(a: &str, b: &str) -> (r: bool)
    ensures
        r == lex_leq(a@, b@),
{
    let la = a.unicode_len();
    let lb = b.unicode_len();
    let mut i: usize = 0;
    loop
        invariant
            0 <= i <= la,
            i <= lb,
            la == a@.len(),
            lb == b@.len(),
            forall|k: int| 0 <= k < i ==> a@[k] == b@[k],
        decreases la - i,
    {
        proof {
            lemma_lex_leq_skip(a@, b@, i as int);
        }
        if i == la {
            return true;
        }
        if i == lb {
            return false;
        }
        let ca = a.get_char(i);
        let cb = b.get_char(i);
        if (ca as u32) < (cb as u32) {
            return true;
        }
        if (cb as u32) < (ca as u32) {
            return false;
        }
        proof {
            vstd::utf8::char_u32_cast(ca, ca as u32);
            vstd::utf8::char_u32_cast(cb, cb as u32);
            assert(a@[i as int] == b@[i as int]);
        }
        i += 1;
    }
}

/// A sequence's views, inserted into elementwise.
pub proof fn lemma_views_of_insert<T: View>(s: Seq<T>, p: int, x: T)
    requires
        0 <= p <= s.len(),
    ensures
        views_of(s.insert(p, x)) == views_of(s).insert(p, x@),
{
    s.insert_ensures(p, x);
    views_of(s).insert_ensures(p, x@);
    assert(views_of(s.insert(p, x)) =~= views_of(s).insert(p, x@));
}

fn insert_label_sorted(v: &mut Vec<Label>, x: Label)
    ensures
        views_of(final(v)@) == insert_sorted(label_order(), views_of(old(v)@), x@),
{
    let ghost s = views_of(v@);
    let mut p: usize = 0;
    loop
        invariant
            0 <= p <= v.len(),
            v@ == old(v)@,
            s == views_of(v@),
            forall|k: int| 0 <= k < p ==> label_order()(#[trigger] s[k], x@),
        ensures
            0 <= p <= s.len(),
            v@ == old(v)@,
            forall|k: int| 0 <= k < p ==> label_order()(#[trigger] s[k], x@),
            p < s.len() ==> !label_order()(s[p as int], x@),
        decreases v.len() - p,
    {
        if p == v.len() {
            break ;
        }
        if !str_leq(v[p].name.as_str(), x.name.as_str()) {
            proof {
                assert(s[p as int] == v@[p as int]@);
            }
            break ;
        }
        proof {
            assert(s[p as int] == v@[p as int]@);
        }
        p += 1;
    }
    proof {
        lemma_insert_sorted_position(label_order(), s, x@, p as int);
    }
    let ghost before = v@;
    v.insert(p, x);
    proof {
        lemma_views_of_insert(before, p as int, x);
    }
}

fn insert_sample_sorted(v: &mut Vec<Sample>, x: Sample)
    ensures
        final(v)@ == insert_sorted(sample_order(), old(v)@, x),
{
    let ghost s = old(v)@;
    let mut p: usize = 0;
    loop
        invariant
            0 <= p <= v.len(),
            v@ == s,
            forall|k: int| 0 <= k < p ==> sample_order()(#[trigger] s[k], x),
        ensures
            0 <= p <= s.len(),
            v@ == s,
            forall|k: int| 0 <= k < p ==> sample_order()(#[trigger] s[k], x),
            p < s.len() ==> !sample_order()(s[p as int], x),
        decreases v.len() - p,
    {
        if p == v.len() {
            break ;
        }
        if !(v[p].timestamp <= x.timestamp) {
            break ;
        }
        p += 1;
    }
    proof {
        lemma_insert_sorted_position(sample_order(), s, x, p as int);
    }
    v.insert(p, x);
}

/// Unfolding one step of the sort from the left.
pub proof fn lemma_sort_step<T>(leq: spec_fn(T, T) -> bool, s: Seq<T>, j: int)
    requires
        0 <= j < s.len(),
    ensures
        sort_by_leq(leq, s.take(j + 1)) == insert_sorted(leq, sort_by_leq(leq, s.take(j)), s[j]),
{
    assert(s.take(j + 1).drop_last() =~= s.take(j));
    assert(s.take(j + 1).last() == s[j]);
}

#[verifier::loop_isolation(false)]
pub fn sort_labels_vec(v: &mut Vec<Label>)
    ensures
        views_of(final(v)@) == sort_by_leq(label_order(), views_of(old(v)@)),
{
    let ghost s = views_of(v@);
    let ghost n = v@.len();
    let mut out: Vec<Label> = Vec::new();
    loop
        invariant
            v@.len() <= n,
            v@ =~= old(v)@.skip(n - v@.len()),
            s == views_of(old(v)@),
            views_of(out@) == sort_by_leq(label_order(), s.take(n - v@.len())),
        decreases v@.len(),
    {
        if v.len() == 0 {
            break ;
        }
        let ghost j = n - v@.len();
        let x = v.remove(0);
        proof {
            assert(x == old(v)@[j]);
            assert(x@ == s[j]);
            assert(v@ =~= old(v)@.skip(j + 1));
            lemma_sort_step(label_order(), s, j);
        }
        insert_label_sorted(&mut out, x);
    }
    proof {
        assert(s.take(n as int) =~= s);
    }
    *v = out;
}

#[verifier::loop_isolation(false)]
pub fn sort_samples_vec(v: &mut Vec<Sample>)
    ensures
        final(v)@ == sort_by_leq(sample_order(), old(v)@),
{
    let ghost s = v@;
    let ghost n = v@.len();
    let mut out: Vec<Sample> = Vec::new();
    loop
        invariant
            v@.len() <= n,
            v@ =~= s.skip(n - v@.len()),
            s == old(v)@,
            out@ == sort_by_leq(sample_order(), s.take(n - v@.len())),
        decreases v@.len(),
    {
        if v.len() == 0 {
            break ;
        }
        let ghost j = n - v@.len();
        let x = v.remove(0);
        proof {
            assert(x == s[j]);
            assert(v@ =~= s.skip(j + 1));
            lemma_sort_step(sample_order(), s, j);
        }
        insert_sample_sorted(&mut out, x);
    }
    proof {
        assert(s.take(n as int) =~= s);
    }
    *v = out;
}

impl TimeSeries {
    /// Sort the labels by name and the samples by timestamp, as the wire
    /// protocol requires before transmission.
    pub fn sort_labels_and_samples(&mut self)
        ensures
            final(self)@ == canon_series(old(self)@),
    {
        sort_labels_vec(&mut self.labels);
        sort_samples_vec(&mut self.samples);
        proof {
            assert(final(self)@ =~= canon_series(old(self)@));
        }
    }
}

impl WriteRequest {
    /// Put every series of the request in canonical form: labels sorted by
    /// name and samples sorted by timestamp, as the wire protocol requires.
    #[verifier::loop_isolation(false)]
    pub fn sort(&mut self)
        ensures
            final(self)@ == canon_all(old(self)@),
    {
        let ghost s = self@;
        let ghost n = self.timeseries@.len();
        let mut out: Vec<TimeSeries> = Vec::new();
        loop
            invariant
                self.timeseries@.len() <= n,
                views_of(self.timeseries@) =~= s.skip(n - self.timeseries@.len()),
                s == old(self)@,
                views_of(out@) == canon_all(s.take(n - self.timeseries@.len())),
            decreases self.timeseries@.len(),
        {
            if self.timeseries.len() == 0 {
                break ;
            }
            let ghost j = n - self.timeseries@.len();
            let ghost pre = self.timeseries@;
            let mut t = self.timeseries.remove(0);
            proof {
                assert(t == pre[0]);
                assert(t@ == views_of(pre)[0]);
                assert(t@ == s[j]);
                assert forall|k: int| 0 <= k < self.timeseries@.len() implies views_of(
                    self.timeseries@,
                )[k] == s[j + 1 + k] by {
                    assert(self.timeseries@[k] == pre[k + 1]);
                    assert(views_of(pre)[k + 1] == pre[k + 1]@);
                }
                assert(views_of(self.timeseries@) =~= s.skip(j + 1));
            }
            t.sort_labels_and_samples();
            out.push(t);
            proof {
                assert(s.take(j + 1) =~= s.take(j).push(s[j]));
                assert(canon_all(s.take(j + 1)) =~= canon_all(s.take(j)).push(
                    canon_series(s[j]),
                ));
                assert(views_of(out@) =~= canon_all(s.take(j + 1)));
            }
        }
        proof {
            assert(s.take(n as int) =~= s);
        }
        self.timeseries = out;
    }

    /// The request in canonical form.
    pub fn sorted(self) -> (r: WriteRequest)
        ensures
            r@ == canon_all(self@),
    {
        let mut w = self;
        w.sort();
        w
    }
}

/// Skipping labels that are not called `n` does not change the lookup.
proof fn lemma_first_value_skip(labels: Seq<SpecLabel>, n: Seq<char>, i: int)
    requires
        0 <= i <= labels.len(),
        forall|k: int| 0 <= k < i ==> (#[trigger] labels[k]).name != n,
    ensures
        first_value(labels, n) == first_value(labels.skip(i), n),
    decreases i,
{
    if i == 0 {
        assert(labels.skip(0) =~= labels);
    } else {
        assert(labels[0].name != n);
        assert(labels.drop_first() =~= labels.skip(1));
        lemma_first_value_skip(labels.skip(1), n, i - 1);
        assert(labels.skip(1).skip(i - 1) =~= labels.skip(i));
    }
}

/// The series' identifying name: the value of its first `__name__` label, or
/// empty text when it has none.
pub fn series_name_of(t: &TimeSeries) -> (r: &str)
    ensures
        r@ == series_name(t@),
{
    let ghost ls = views_of(t.labels@);
    let mut i: usize = 0;
    loop
        invariant
            0 <= i <= t.labels.len(),
            ls == views_of(t.labels@),
            forall|k: int| 0 <= k < i ==> (#[trigger] ls[k]).name != label_name(),
        decreases t.labels.len() - i,
    {
        proof {
            lemma_first_value_skip(ls, label_name(), i as int);
        }
        if i == t.labels.len() {
            proof {
                reveal_strlit("");
                assert(""@ =~= Seq::<char>::empty());
            }
            return "";
        }
        if str_eq(t.labels[i].name.as_str(), "__name__") {
            proof {
                assert(ls[i as int] == t.labels@[i as int]@);
                assert(ls.skip(i as int)[0] == ls[i as int]);
            }
            return t.labels[i].value.as_str();
        }
        proof {
            assert(ls[i as int] == t.labels@[i as int]@);
        }
        i += 1;
    }
}

#[verifier::loop_isolation(false)]
fn insert_series_sorted(v: &mut Vec<TimeSeries>, x: TimeSeries)
    ensures
        views_of(final(v)@) == insert_sorted(series_order(), views_of(old(v)@), x@),
{
    let ghost s = views_of(v@);
    let mut p: usize = 0;
    loop
        invariant
            0 <= p <= v.len(),
            v@ == old(v)@,
            forall|k: int| 0 <= k < p ==> series_order()(#[trigger] s[k], x@),
        decreases v.len() - p,
    {
        if p == v.len() {
            break ;
        }
        if !str_leq(series_name_of(&v[p]), series_name_of(&x)) {
            proof {
                assert(s[p as int] == v@[p as int]@);
            }
            break ;
        }
        proof {
            assert(s[p as int] == v@[p as int]@);
        }
        p += 1;
    }
    proof {
        if p < v.len() {
            assert(!series_order()(s[p as int], x@));
        }
        lemma_insert_sorted_position(series_order(), s, x@, p as int);
    }
    let ghost before = v@;
    v.insert(p, x);
    proof {
        lemma_views_of_insert(before, p as int, x);
    }
}

/// Order the series of a request by their `__name__` value, series with equal
/// names keeping their relative order.
#[verifier::loop_isolation(false)]
pub fn sort_series_vec(v: &mut Vec<TimeSeries>)
    ensures
        views_of(final(v)@) == sort_by_leq(series_order(), views_of(old(v)@)),
{
    let ghost s = views_of(v@);
    let ghost n = v@.len();
    let mut out: Vec<TimeSeries> = Vec::new();
    loop
        invariant
            v@.len() <= n,
            v@ =~= old(v)@.skip(n - v@.len()),
            s == views_of(old(v)@),
            views_of(out@) == sort_by_leq(series_order(), s.take(n - v@.len())),
        decreases v@.len(),
    {
        if v.len() == 0 {
            break ;
        }
        let ghost j = n - v@.len();
        let x = v.remove(0);
        proof {
            assert(x == old(v)@[j]);
            assert(x@ == s[j]);
            assert(v@ =~= old(v)@.skip(j + 1));
            lemma_sort_step(series_order(), s, j);
        }
        insert_series_sorted(&mut out, x);
    }
    proof {
        assert(s.take(n as int) =~= s);
    }
    *v = out;
}

} // verus!
