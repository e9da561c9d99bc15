//! Metric identities, write-once descriptions and name search.
use fuzzy_matcher::skim::SkimMatcherV2;
use fuzzy_matcher::FuzzyMatcher;
use metrics_util::registry::{AtomicStorage, Registry};
use std::sync::Arc;
use vstd::prelude::*;
use vstd::rwlock::{RwLock, RwLockPredicate};
use crate::namespace::text_of;
use vstd::string::StringExecFns;

verus! {

/// The kind of a metric. The same name may exist as several kinds at once.
#[derive(Clone, Copy, Debug, PartialEq, Eq, Hash, Structural)]
pub enum MetricKind {
    Counter,
    Gauge,
    Histogram,
}

/// The unit a metric is measured in.
#[derive(Clone, Copy, Debug, PartialEq, Eq, Hash, Structural)]
pub enum Unit {
    Count,
    Percent,
    Seconds,
    Milliseconds,
    Microseconds,
    Nanoseconds,
    Tebibytes,
    Gibibytes,
    Mebibytes,
    Kibibytes,
    Bytes,
    TerabitsPerSecond,
    GigabitsPerSecond,
    MegabitsPerSecond,
    KilobitsPerSecond,
    BitsPerSecond,
    CountPerSecond,
}

/// The lower-case name of a metric kind.
pub fn metric_kind_str(kind: MetricKind) -> (r: &'static str)
    ensures
        r@ == kind_text(kind),
{
    match kind {
        MetricKind::Counter => "counter",
        MetricKind::Gauge => "gauge",
        MetricKind::Histogram => "histogram",
    }
}

/// The text that names a metric kind.
pub open spec fn kind_text(kind: MetricKind) -> Seq<char> {
    match kind {
        MetricKind::Counter => "counter"@,
        MetricKind::Gauge => "gauge"@,
        MetricKind::Histogram => "histogram"@,
    }
}

/// The short symbol of a unit, as shown beside an axis.
pub fn unit_str(unit: Unit) -> (r: &'static str)
    ensures
        r@ == unit_text(unit),
{
    match unit {
        Unit::Count => "count",
        Unit::Percent => "%",
        Unit::Seconds => "s",
        Unit::Milliseconds => "ms",
        Unit::Microseconds => "μs",
        Unit::Nanoseconds => "ns",
        Unit::Tebibytes => "TiB",
        Unit::Gibibytes => "GiB",
        Unit::Mebibytes => "MiB",
        Unit::Kibibytes => "KiB",
        Unit::Bytes => "B",
        Unit::TerabitsPerSecond => "Tb/s",
        Unit::GigabitsPerSecond => "Gb/s",
        Unit::MegabitsPerSecond => "Mb/s",
        Unit::KilobitsPerSecond => "Kb/s",
        Unit::BitsPerSecond => "b/s",
        Unit::CountPerSecond => "hz",
    }
}

/// The symbol of a unit.
pub open spec fn unit_text(unit: Unit) -> Seq<char> {
    match unit {
        Unit::Count => "count"@,
        Unit::Percent => "%"@,
        Unit::Seconds => "s"@,
        Unit::Milliseconds => "ms"@,
        Unit::Microseconds => "μs"@,
        Unit::Nanoseconds => "ns"@,
        Unit::Tebibytes => "TiB"@,
        Unit::Gibibytes => "GiB"@,
        Unit::Mebibytes => "MiB"@,
        Unit::Kibibytes => "KiB"@,
        Unit::Bytes => "B"@,
        Unit::TerabitsPerSecond => "Tb/s"@,
        Unit::GigabitsPerSecond => "Gb/s"@,
        Unit::MegabitsPerSecond => "Mb/s"@,
        Unit::KilobitsPerSecond => "Kb/s"@,
        Unit::BitsPerSecond => "b/s"@,
        Unit::CountPerSecond => "hz"@,
    }
}

/// The decimal digits of `n`, most significant first.
pub open spec fn decimal(n: nat) -> Seq<char>
    decreases n,
{
    if n < 10 {
        seq![digit_char(n)]
    } else {
        decimal(n / 10).push(digit_char(n % 10))
    }
}

/// The character of a decimal digit.
pub open spec fn digit_char(d: nat) -> char {
    if d == 0 {
        '0'
    } else if d == 1 {
        '1'
    } else if d == 2 {
        '2'
    } else if d == 3 {
        '3'
    } else if d == 4 {
        '4'
    } else if d == 5 {
        '5'
    } else if d == 6 {
        '6'
    } else if d == 7 {
        '7'
    } else if d == 8 {
        '8'
    } else {
        '9'
    }
}

/// The character of the decimal digit `d`.
fn digit(d: usize) -> (c: char)
    requires
        d < 10,
    ensures
        c == digit_char(d as nat),
{
    if d == 0 {
        '0'
    } else if d == 1 {
        '1'
    } else if d == 2 {
        '2'
    } else if d == 3 {
        '3'
    } else if d == 4 {
        '4'
    } else if d == 5 {
        '5'
    } else if d == 6 {
        '6'
    } else if d == 7 {
        '7'
    } else if d == 8 {
        '8'
    } else {
        '9'
    }
}

/// The decimal digits of `n`, most significant first.
fn decimal_chars(n: usize) -> (r: Vec<char>)
    ensures
        r@ == decimal(n as nat),
    decreases n,
{
    if n < 10 {
        let mut v: Vec<char> = Vec::new();
        v.push(digit(n));
        assert(v@ =~= seq![digit_char(n as nat)]);
        v
    } else {
        let mut v = decimal_chars(n / 10);
        v.push(digit(n % 10));
        v
    }
}

/// The decimal text of `n`.
fn decimal_text(n: usize) -> (r: String)
    ensures
        r@ == decimal(n as nat),
{
    text_of(&decimal_chars(n))
}

/// The identity of a metric: its name, its labels and its kind.
#[derive(Debug, PartialEq, Eq, Hash)]
pub struct MetricKey {
    pub name: String,
    pub labels: Vec<(String, String)>,
    pub kind: MetricKind,
}

/// A label pair as text.
pub open spec fn label_view(l: (String, String)) -> (Seq<char>, Seq<char>) {
    (l.0@, l.1@)
}

impl View for MetricKey {
    type V = (Seq<char>, Seq<(Seq<char>, Seq<char>)>, MetricKind);

    open spec fn view(&self) -> Self::V {
        (self.name@, self.labels@.map_values(|l: (String, String)| label_view(l)), self.kind)
    }
}

impl MetricKey {
    pub fn new(name: String, labels: Vec<(String, String)>, kind: MetricKind) -> (r: Self)
        ensures
            r.name == name,
            r.labels == labels,
            r.kind == kind,
    {
        MetricKey { name, labels, kind }
    }

    /// A copy of this key.
    pub fn duplicate(&self) -> (r: Self)
        ensures
            r@ == self@,
    {
        let mut labels: Vec<(String, String)> = Vec::with_capacity(self.labels.len());
        let mut i: usize = 0;
        while i < self.labels.len()
            invariant
                i <= self.labels@.len(),
                labels@ =~= self.labels@.subrange(0, i as int),
            decreases self.labels@.len() - i,
        {
            let l = &self.labels[i];
            labels.push((l.0.clone(), l.1.clone()));
            i = i + 1;
        }
        assert(labels@ =~= self.labels@);
        MetricKey { name: self.name.clone(), labels, kind: self.kind }
    }

    /// Whether `other` names the same metric: the same name, labels and
    /// kind.
    pub fn same_as(&self, other: &MetricKey) -> (r: bool)
        ensures
            r == (self@ == other@),
    {
        if self.kind != other.kind || self.name != other.name || self.labels.len()
            != other.labels.len() {
            proof {
                if self@ == other@ {
                    assert(self.labels@.len() == self@.1.len());
                    assert(other.labels@.len() == other@.1.len());
                }
            }
            return false;
        }
        let n = self.labels.len();
        let mut i: usize = 0;
        while i < n
            invariant
                i <= n == self.labels@.len() == other.labels@.len(),
                forall|k: int| 0 <= k < i ==> self@.1[k] == other@.1[k],
            decreases n - i,
        {
            let a = &self.labels[i];
            let b = &other.labels[i];
            if a.0 != b.0 || a.1 != b.1 {
                proof {
                    assert(self@.1[i as int] != other@.1[i as int]);
                }
                return false;
            }
            i = i + 1;
        }
        assert(self@.1 =~= other@.1);
        true
    }

    /// A title for a plot of this metric: `"name (kind)"`, followed by
    /// `" n"` when `n_duplicates` other plots of it exist.
    pub fn default_title(&self, n_duplicates: usize) -> (r: String)
        ensures
            r@ == title_text(self.name@, self.kind, n_duplicates as nat),
    {
        let base = self.name.clone().concat(" (").concat(metric_kind_str(self.kind)).concat(")");
        if n_duplicates > 0 {
            let n = decimal_text(n_duplicates);
            base.concat(" ").concat(n.as_str())
        } else {
            base
        }
    }
}

/// The title of a plot: `"name (kind)"`, and `" n"` after it for a
/// duplicate count `n` above zero.
pub open spec fn title_text(name: Seq<char>, kind: MetricKind, n: nat) -> Seq<char> {
    let base = name + " ("@ + kind_text(kind) + ")"@;
    if n > 0 {
        base + " "@ + decimal(n)
    } else {
        base
    }
}

/// How many of `keys` are `key`.
pub open spec fn occurrences(
    keys: Seq<(Seq<char>, Seq<(Seq<char>, Seq<char>)>, MetricKind)>,
    key: (Seq<char>, Seq<(Seq<char>, Seq<char>)>, MetricKind),
) -> nat
    decreases keys.len(),
{
    if keys.len() == 0 {
        0
    } else {
        occurrences(keys.drop_last(), key) + if keys.last() == key {
            1nat
        } else {
            0nat
        }
    }
}

/// How many of `keys` name the same metric as `key`: a new plot of `key`
/// is titled apart from that many existing ones.
pub fn count_duplicates(keys: &Vec<MetricKey>, key: &MetricKey) -> (r: usize)
    ensures
        r == occurrences(keys_view(keys@), key@),
{
    let mut n: usize = 0;
    let mut i: usize = 0;
    while i < keys.len()
        invariant
            i <= keys@.len(),
            n == occurrences(keys_view(keys@.subrange(0, i as int)), key@),
            n <= i,
        decreases keys@.len() - i,
    {
        let ghost prev = keys_view(keys@.subrange(0, i as int));
        let ghost next = keys_view(keys@.subrange(0, i + 1));
        assert(next.drop_last() =~= prev);
        if keys[i].same_as(key) {
            n = n + 1;
        }
        i = i + 1;
    }
    assert(keys@.subrange(0, keys@.len() as int) =~= keys@);
    n
}

/// What a description is stored under: the metric's name and kind, not its
/// labels.
#[derive(Debug, PartialEq, Eq, Hash)]
pub struct DescriptionKey {
    pub name: String,
    pub kind: MetricKind,
}

impl View for DescriptionKey {
    type V = (Seq<char>, MetricKind);

    open spec fn view(&self) -> Self::V {
        (self.name@, self.kind)
    }
}

impl DescriptionKey {
    /// The description key of a metric.
    pub fn of_key(key: &MetricKey) -> (r: Self)
        ensures
            r@ == (key.name@, key.kind),
    {
        DescriptionKey { name: key.name.clone(), kind: key.kind }
    }
}

/// A metric's unit and explanatory text.
#[derive(Debug)]
pub struct MetricDescription {
    pub unit: Option<Unit>,
    pub text: String,
}

impl View for MetricDescription {
    type V = (Option<Unit>, Seq<char>);

    open spec fn view(&self) -> Self::V {
        (self.unit, self.text@)
    }
}

impl MetricDescription {
    /// A copy of this description.
    pub fn duplicate(&self) -> (r: Self)
        ensures
            r@ == self@,
    {
        MetricDescription { unit: self.unit, text: self.text.clone() }
    }
}

/// The first description stored under `k`, if any.
pub open spec fn find(entries: Seq<((Seq<char>, MetricKind), (Option<Unit>, Seq<char>))>, k: (
    Seq<char>,
    MetricKind,
)) -> Option<(Option<Unit>, Seq<char>)>
    decreases entries.len(),
{
    if entries.len() == 0 {
        None
    } else if entries[0].0 == k {
        Some(entries[0].1)
    } else {
        find(entries.drop_first(), k)
    }
}

/// The entries after describing `k` as `d`: added only when `k` has no
/// description yet.
pub open spec fn described(
    entries: Seq<((Seq<char>, MetricKind), (Option<Unit>, Seq<char>))>,
    k: (Seq<char>, MetricKind),
    d: (Option<Unit>, Seq<char>),
) -> Seq<((Seq<char>, MetricKind), (Option<Unit>, Seq<char>))> {
    if find(entries, k) is Some {
        entries
    } else {
        entries.push((k, d))
    }
}

/// An entry of the description store as text.
pub open spec fn entry_view(e: (DescriptionKey, MetricDescription)) -> (
    (Seq<char>, MetricKind),
    (Option<Unit>, Seq<char>),
) {
    (e.0@, e.1@)
}

/// Descriptions of metric families, at most one per name and kind: the
/// first one given is kept and later ones are dropped.
pub struct DescriptionStore {
    entries: Vec<(DescriptionKey, MetricDescription)>,
}

impl View for DescriptionStore {
    type V = Seq<((Seq<char>, MetricKind), (Option<Unit>, Seq<char>))>;

    closed spec fn view(&self) -> Self::V {
        self.entries@.map_values(|e: (DescriptionKey, MetricDescription)| entry_view(e))
    }
}

/// Looking up after an append finds the earlier entry, if there was one.
pub proof fn lemma_find_push(
    entries: Seq<((Seq<char>, MetricKind), (Option<Unit>, Seq<char>))>,
    e: ((Seq<char>, MetricKind), (Option<Unit>, Seq<char>)),
    k: (Seq<char>, MetricKind),
)
    ensures
        find(entries.push(e), k) == if find(entries, k) is Some {
            find(entries, k)
        } else if e.0 == k {
            Some(e.1)
        } else {
            None
        },
    decreases entries.len(),
{
    let p = entries.push(e);
    if entries.len() > 0 {
        assert(p[0] == entries[0]);
        assert(p.drop_first() =~= entries.drop_first().push(e));
        lemma_find_push(entries.drop_first(), e, k);
        if entries[0].0 == k {
            assert(find(p, k) == Some(entries[0].1));
        } else {
            assert(find(p, k) == find(p.drop_first(), k));
            assert(find(entries, k) == find(entries.drop_first(), k));
        }
    } else {
        assert(p[0] == e);
        assert(p.drop_first() =~= entries);
        assert(find(entries, k) is None);
        if e.0 != k {
            assert(find(p, k) == find(p.drop_first(), k));
        }
    }
}

/// Describing a metric twice keeps the first description: the second call
/// changes nothing.
pub proof fn lemma_first_description_wins(
    entries: Seq<((Seq<char>, MetricKind), (Option<Unit>, Seq<char>))>,
    k: (Seq<char>, MetricKind),
    d1: (Option<Unit>, Seq<char>),
    d2: (Option<Unit>, Seq<char>),
)
    requires
        find(entries, k) is None,
    ensures
        find(described(described(entries, k, d1), k, d2), k) == Some(d1),
        described(described(entries, k, d1), k, d2) == described(entries, k, d1),
{
    lemma_find_push(entries, (k, d1), k);
}

impl DescriptionStore {
    pub fn new() -> (r: Self)
        ensures
            r@ == Seq::<((Seq<char>, MetricKind), (Option<Unit>, Seq<char>))>::empty(),
    {
        let r = DescriptionStore { entries: Vec::new() };
        assert(r@ =~= Seq::<((Seq<char>, MetricKind), (Option<Unit>, Seq<char>))>::empty());
        r
    }

    /// The description stored under `key`, if any.
    pub fn get(&self, key: &DescriptionKey) -> (r: Option<MetricDescription>)
        ensures
            r matches Some(d) ==> find(self@, key@) == Some(d@),
            r is None ==> find(self@, key@) is None,
    {
        let mut i: usize = 0;
        assert(self@.subrange(0, self@.len() as int) =~= self@);
        while i < self.entries.len()
            invariant
                i <= self.entries@.len(),
                find(self@, key@) == find(self@.subrange(i as int, self@.len() as int), key@),
            decreases self.entries@.len() - i,
        {
            let e = &self.entries[i];
            let ghost rest = self@.subrange(i as int, self@.len() as int);
            assert(rest[0] == entry_view(self.entries@[i as int]));
            if e.0.kind == key.kind && e.0.name == key.name {
                return Some(e.1.duplicate());
            }
            assert(rest.drop_first() =~= self@.subrange(i + 1, self@.len() as int));
            i = i + 1;
        }
        None
    }

    /// Stores `description` under `key` unless `key` already has one.
    pub fn add_if_missing(&mut self, key: DescriptionKey, description: MetricDescription)
        ensures
            final(self)@ == described(old(self)@, key@, description@),
    {
        let found = self.get(&key);
        if found.is_none() {
            let ghost e = (key, description);
            self.entries.push((key, description));
            assert(self@ =~= old(self)@.push(entry_view(e)));
        }
    }

    /// Describes the metric family `name` of kind `kind`, unless it already
    /// has a description.
    pub fn describe(&mut self, name: String, kind: MetricKind, unit: Option<Unit>, text: String)
        ensures
            final(self)@ == described(old(self)@, (name@, kind), (unit, text@)),
    {
        self.add_if_missing(DescriptionKey { name, kind }, MetricDescription { unit, text });
    }
}

/// A metric found by a search, with its description if it has one.
#[derive(Debug)]
pub struct SearchResult {
    pub key: MetricKey,
    pub description: Option<MetricDescription>,
}

impl View for SearchResult {
    type V = (
        (Seq<char>, Seq<(Seq<char>, Seq<char>)>, MetricKind),
        Option<(Option<Unit>, Seq<char>)>,
    );

    open spec fn view(&self) -> Self::V {
        (
            self.key@,
            match self.description {
                Some(d) => Some(d@),
                None => None,
            },
        )
    }
}

/// The lines shown for a search result: its title, one `key=value` line per
/// label, and its description text if it has one.
pub open spec fn dropdown_spec(
    r: ((Seq<char>, Seq<(Seq<char>, Seq<char>)>, MetricKind), Option<(Option<Unit>, Seq<char>)>),
) -> Seq<Seq<char>> {
    let labels = r.0.1.map_values(|l: (Seq<char>, Seq<char>)| l.0 + "="@ + l.1);
    let head = seq![title_text(r.0.0, r.0.2, 0)] + labels;
    match r.1 {
        Some(d) => head.push(d.1),
        None => head,
    }
}

impl SearchResult {
    /// The lines of text that describe this result in a search dropdown:
    /// the title, then `key=value` for each label, then the description.
    pub fn dropdown_description(&self) -> (r: Vec<String>)
        ensures
            r@.map_values(|s: String| s@) == dropdown_spec(self@),
    {
        let mut lines: Vec<String> = Vec::new();
        lines.push(self.key.default_title(0));
        let ghost labels = self.key@.1;
        let mut i: usize = 0;
        while i < self.key.labels.len()
            invariant
                i <= self.key.labels@.len(),
                labels == self.key@.1,
                lines@.len() == i + 1,
                lines@[0]@ == title_text(self.key.name@, self.key.kind, 0),
                forall|k: int|
                    0 <= k < i ==> lines@[k + 1]@ == labels[k].0 + "="@ + labels[k].1,
            decreases self.key.labels@.len() - i,
        {
            let l = &self.key.labels[i];
            let line = l.0.clone().concat("=").concat(l.1.as_str());
            lines.push(line);
            i = i + 1;
        }
        let ghost head = seq![title_text(self.key.name@, self.key.kind, 0)] + labels.map_values(
            |l: (Seq<char>, Seq<char>)| l.0 + "="@ + l.1,
        );
        assert(lines@.map_values(|s: String| s@) =~= head);
        match &self.description {
            Some(d) => {
                lines.push(d.text.clone());
                assert(lines@.map_values(|s: String| s@) =~= head.push(d.text@));
            },
            None => {},
        }
        lines
    }

    /// A copy of this result.
    pub fn duplicate(&self) -> (r: Self)
        ensures
            r@ == self@,
    {
        let description = match &self.description {
            Some(d) => Some(d.duplicate()),
            None => None,
        };
        SearchResult { key: self.key.duplicate(), description }
    }
}

/// The score that skim's fuzzy matcher gives `choice` for `pattern`, or
/// `None` when it does not match.
pub uninterp spec fn skim_score(choice: Seq<char>, pattern: Seq<char>) -> Option<i64>;

/// Relies on fuzzy_matcher's `SkimMatcherV2::fuzzy_match` with the default
/// settings: its score for `choice` against `pattern`, which is `Some(0)`
/// for an empty pattern.
#[verifier::external_body]
fn fuzzy_score(choice: &str, pattern: &str) -> (r: Option<i64>)
    ensures
        r == skim_score(choice@, pattern@),
        pattern@.len() == 0 ==> r == Some(0i64),
{
    SkimMatcherV2::default().fuzzy_match(choice, pattern)
}

/// The search result for a metric that matched: the key and the
/// description stored for its name and kind.
pub open spec fn result_for(
    k: (Seq<char>, Seq<(Seq<char>, Seq<char>)>, MetricKind),
    store: Seq<((Seq<char>, MetricKind), (Option<Unit>, Seq<char>))>,
) -> (
    (Seq<char>, Seq<(Seq<char>, Seq<char>)>, MetricKind),
    Option<(Option<Unit>, Seq<char>)>,
) {
    (k, find(store, (k.0, k.2)))
}

/// The results of searching `keys` for `query`: each key whose name the
/// fuzzy matcher accepts, in the order given, with its description.
pub open spec fn search_spec(
    keys: Seq<(Seq<char>, Seq<(Seq<char>, Seq<char>)>, MetricKind)>,
    store: Seq<((Seq<char>, MetricKind), (Option<Unit>, Seq<char>))>,
    query: Seq<char>,
) -> Seq<
    ((Seq<char>, Seq<(Seq<char>, Seq<char>)>, MetricKind), Option<(Option<Unit>, Seq<char>)>),
>
    decreases keys.len(),
{
    if keys.len() == 0 {
        Seq::empty()
    } else {
        let prev = search_spec(keys.drop_last(), store, query);
        if skim_score(keys.last().0, query) is Some {
            prev.push(result_for(keys.last(), store))
        } else {
            prev
        }
    }
}

/// The views of a list of keys.
pub open spec fn keys_view(keys: Seq<MetricKey>) -> Seq<
    (Seq<char>, Seq<(Seq<char>, Seq<char>)>, MetricKind),
> {
    keys.map_values(|k: MetricKey| k@)
}

/// The views of a list of results.
pub open spec fn results_view(results: Seq<SearchResult>) -> Seq<
    ((Seq<char>, Seq<(Seq<char>, Seq<char>)>, MetricKind), Option<(Option<Unit>, Seq<char>)>),
> {
    results.map_values(|r: SearchResult| r@)
}

/// The search result for `key` given the matcher's score for its name:
/// none when the name did not match, else the key with its description.
pub fn result_if_matched(key: &MetricKey, score: Option<i64>, store: &DescriptionStore) -> (r:
    Option<SearchResult>)
    ensures
        r is Some <==> score is Some,
        r matches Some(x) ==> x@ == result_for(key@, store@),
{
    match score {
        Some(_) => {
            let description = store.get(&DescriptionKey::of_key(key));
            Some(SearchResult { key: key.duplicate(), description })
        },
        None => None,
    }
}

/// Searches `keys` for the metrics whose name matches `query` by fuzzy
/// matching, attaching each one's description from `store`. An empty query
/// matches everything.
pub fn search_results(keys: &Vec<MetricKey>, store: &DescriptionStore, query: &str) -> (r: Vec<
    SearchResult,
>)
    ensures
        results_view(r@) == search_spec(keys_view(keys@), store@, query@),
        query@.len() == 0 ==> r@.len() == keys@.len(),
{
    let mut out: Vec<SearchResult> = Vec::new();
    let mut i: usize = 0;
    while i < keys.len()
        invariant
            i <= keys@.len(),
            results_view(out@) =~= search_spec(
                keys_view(keys@.subrange(0, i as int)),
                store@,
                query@,
            ),
            query@.len() == 0 ==> out@.len() == i,
        decreases keys@.len() - i,
    {
        let k = &keys[i];
        let score = fuzzy_score(k.name.as_str(), query);
        let ghost prev_keys = keys_view(keys@.subrange(0, i as int));
        let ghost next_keys = keys_view(keys@.subrange(0, i + 1));
        assert(next_keys.drop_last() =~= prev_keys);
        assert(next_keys.last() == k@);
        match result_if_matched(k, score, store) {
            Some(found) => {
                let ghost before = out@;
                out.push(found);
                assert(results_view(out@) =~= results_view(before).push(result_for(k@, store@)));
            },
            None => {},
        }
        i = i + 1;
    }
    assert(keys@.subrange(0, keys@.len() as int) =~= keys@);
    out
}

/// The storage cells of every registered metric, kept by metrics_util's
/// sharded concurrent registry: one atomic cell per key, created on first
/// registration and never evicted.
#[verifier::external_body]
pub struct MetricStorage {
    pub registry: Registry<metrics::Key, AtomicStorage>,
}

impl MetricStorage {
    /// Relies on metrics_util's `Registry::atomic`: an empty registry of
    /// atomic cells.
    #[verifier::external_body]
    pub(crate) fn new() -> (r: Self) {
        MetricStorage { registry: Registry::atomic() }
    }

    /// Relies on metrics_util's `Registry::get_counter_handles`: the keys of
    /// the counters registered so far, in no particular order and each once, copied
    /// as text through metrics' `Key::name` and `Key::labels`.
    #[verifier::external_body]
    pub(crate) fn counter_keys(&self) -> (r: Vec<MetricKey>)
        ensures
            forall|i: int| 0 <= i < r@.len() ==> r@[i].kind == MetricKind::Counter,
            forall|i: int, j: int| 0 <= i < j < r@.len() ==> r@[i]@ != r@[j]@,
    {
        self.registry.get_counter_handles().into_keys().map(|k| MetricKey {
            name: k.name().to_string(),
            labels: k.labels().map(|l| (l.key().to_string(), l.value().to_string())).collect(),
            kind: MetricKind::Counter,
        }).collect()
    }

    /// Relies on metrics_util's `Registry::get_gauge_handles`: the keys of
    /// the gauges registered so far, in no particular order and each once, copied
    /// as text through metrics' `Key::name` and `Key::labels`.
    #[verifier::external_body]
    pub(crate) fn gauge_keys(&self) -> (r: Vec<MetricKey>)
        ensures
            forall|i: int| 0 <= i < r@.len() ==> r@[i].kind == MetricKind::Gauge,
            forall|i: int, j: int| 0 <= i < j < r@.len() ==> r@[i]@ != r@[j]@,
    {
        self.registry.get_gauge_handles().into_keys().map(|k| MetricKey {
            name: k.name().to_string(),
            labels: k.labels().map(|l| (l.key().to_string(), l.value().to_string())).collect(),
            kind: MetricKind::Gauge,
        }).collect()
    }

    /// Relies on metrics_util's `Registry::get_histogram_handles`: the keys
    /// of the histograms registered so far, in no particular order and each once,
    /// copied as text through metrics' `Key::name` and `Key::labels`.
    #[verifier::external_body]
    pub(crate) fn histogram_keys(&self) -> (r: Vec<MetricKey>)
        ensures
            forall|i: int| 0 <= i < r@.len() ==> r@[i].kind == MetricKind::Histogram,
            forall|i: int, j: int| 0 <= i < j < r@.len() ==> r@[i]@ != r@[j]@,
    {
        self.registry.get_histogram_handles().into_keys().map(|k| MetricKey {
            name: k.name().to_string(),
            labels: k.labels().map(|l| (l.key().to_string(), l.value().to_string())).collect(),
            kind: MetricKind::Histogram,
        }).collect()
    }
}

/// Keys `..a` are counters, `a..b` gauges and `b..` histograms.
pub open spec fn kinds_in_runs(keys: Seq<MetricKey>, a: int, b: int) -> bool {
    &&& 0 <= a <= b <= keys.len()
    &&& forall|i: int| 0 <= i < a ==> keys[i].kind == MetricKind::Counter
    &&& forall|i: int| a <= i < b ==> keys[i].kind == MetricKind::Gauge
    &&& forall|i: int| b <= i < keys.len() ==> keys[i].kind == MetricKind::Histogram
}

/// The description store needs no invariant beyond its type.
pub struct AnyStore;

impl RwLockPredicate<DescriptionStore> for AnyStore {
    open spec fn inv(self, v: DescriptionStore) -> bool {
        true
    }
}

struct Inner {
    storage: MetricStorage,
    descriptions: RwLock<DescriptionStore, AnyStore>,
}

/// Tracks all metrics of the process: their storage cells and their
/// descriptions. Clones share the same registry.
#[derive(Clone)]
pub struct MetricsRegistry {
    inner: Arc<Inner>,
}

impl MetricsRegistry {
    pub fn new() -> (r: Self) {
        let inner = Inner {
            storage: MetricStorage::new(),
            descriptions: RwLock::new(DescriptionStore::new(), Ghost(AnyStore)),
        };
        MetricsRegistry { inner: Arc::new(inner) }
    }

    /// The storage cells of the registered metrics.
    pub fn inner_registry(&self) -> (r: &MetricStorage) {
        &self.inner.storage
    }

    /// Every registered metric: counters, then gauges, then histograms.
    pub fn all_keys(&self) -> (r: Vec<MetricKey>)
        ensures
            exists|a: int, b: int| kinds_in_runs(r@, a, b),
            forall|i: int, j: int| 0 <= i < j < r@.len() ==> r@[i]@ != r@[j]@,
    {
        let mut keys = self.inner.storage.counter_keys();
        let mut gauges = self.inner.storage.gauge_keys();
        let mut histograms = self.inner.storage.histogram_keys();
        let ghost a = keys@.len() as int;
        let ghost b = a + gauges@.len();
        let ghost c = keys@;
        let ghost g = gauges@;
        let ghost h = histograms@;
        keys.append(&mut gauges);
        keys.append(&mut histograms);
        assert(keys@ =~= c + g + h);
        assert(forall|i: int| a <= i < b ==> keys@[i] == g[i - a]);
        assert(forall|i: int| b <= i < keys@.len() ==> keys@[i] == h[i - b]);
        assert(kinds_in_runs(keys@, a, b));
        assert forall|i: int, j: int| 0 <= i < j < keys@.len() implies keys@[i]@ != keys@[j]@ by {
            if j < a {
                assert(keys@[i] == c[i] && keys@[j] == c[j]);
            } else if i >= a && j < b {
                assert(keys@[i] == g[i - a] && keys@[j] == g[j - a]);
            } else if i >= b {
                assert(keys@[i] == h[i - b] && keys@[j] == h[j - b]);
            } else {
                assert(keys@[i].kind != keys@[j].kind);
            }
        }
        keys
    }

    /// Searches the registry for metrics whose name matches `input`, with
    /// their descriptions. An empty `input` matches everything. Results are
    /// in no particular order.
    pub fn fuzzy_search_by_name(&self, input: &str) -> (r: Vec<SearchResult>)
        ensures
            exists|keys: Seq<MetricKey>, store: Seq<((Seq<char>, MetricKind), (Option<Unit>, Seq<char>))>|
                #[trigger] search_spec(keys_view(keys), store, input@) == results_view(r@),
    {
        let keys = self.all_keys();
        let handle = self.inner.descriptions.acquire_read();
        let store = handle.borrow();
        let results = search_results(&keys, store, input);
        proof {
            assert(search_spec(keys_view(keys@), store@, input@) == results_view(results@));
        }
        handle.release_read();
        results
    }

    /// Stores `description` under `key` unless another description got there
    /// first.
    fn add_description_if_missing(&self, key: DescriptionKey, description: MetricDescription) {
        let (mut store, handle) = self.inner.descriptions.acquire_write();
        store.add_if_missing(key, description);
        handle.release_write(store);
    }

    /// Describes the counter family `key_name`, unless it already has a
    /// description.
    pub fn describe_counter(&self, key_name: String, unit: Option<Unit>, description: String) {
        self.add_description_if_missing(
            DescriptionKey { name: key_name, kind: MetricKind::Counter },
            MetricDescription { unit, text: description },
        );
    }

    /// Describes the gauge family `key_name`, unless it already has a
    /// description.
    pub fn describe_gauge(&self, key_name: String, unit: Option<Unit>, description: String) {
        self.add_description_if_missing(
            DescriptionKey { name: key_name, kind: MetricKind::Gauge },
            MetricDescription { unit, text: description },
        );
    }

    /// Describes the histogram family `key_name`, unless it already has a
    /// description.
    pub fn describe_histogram(&self, key_name: String, unit: Option<Unit>, description: String) {
        self.add_description_if_missing(
            DescriptionKey { name: key_name, kind: MetricKind::Histogram },
            MetricDescription { unit, text: description },
        );
    }
}

} // verus!
