//! Usage metrics and registrations that clients send to an Unleash server
//! (`/api/client/metrics`, `/api/client/register`).
use vstd::prelude::*;

use crate::deep_clone::DeepClone;
use crate::entries::{dedup, has_key, unique_keys, Identified};
use crate::ordering::{
    insert_pos, lemma_insert_pos_bound, is_sorted, lemma_ascending_determined, lemma_lex_antisym, lemma_sort, lex_le, sort_seq,
    sort_vec, str_eq, str_le, strictly_ascending, Ordered,
};
use crate::string_map::{entries_insert, entries_map, lemma_entries_map, unique_string_keys, StringMap};
use crate::{law_merge_keeps_left, lemma_sort_entries};
use crate::time::{now, Timestamp};
use crate::{Deduplicate, Merge};

verus! {

/// How often a toggle was evaluated to enabled (`yes`) and disabled (`no`), and
/// how often each variant was handed out.
#[derive(Clone, Debug)]
pub struct ToggleStats {
    pub no: u32,
    pub yes: u32,
    pub variants: StringMap<u32>,
}

/// `m` with the count of `name` one higher (a key that was absent counts 1).
pub open spec fn bumped(m: Map<Seq<char>, u32>, name: Seq<char>) -> Map<Seq<char>, u32> {
    m.insert(
        name,
        if m.contains_key(name) {
            (m[name] + 1) as u32
        } else {
            1
        },
    )
}

/// The count of `name` in `m` is below the largest `u32`, so it can grow by one.
pub open spec fn can_bump(m: Map<Seq<char>, u32>, name: Seq<char>) -> bool {
    m.contains_key(name) ==> m[name] < u32::MAX
}

/// The sum of the counts of a list of entries.
pub open spec fn sum_counts(s: Seq<(String, u32)>) -> int
    decreases s.len(),
{
    if s.len() == 0 {
        0
    } else {
        sum_counts(s.drop_last()) + s.last().1
    }
}

/// The sum of the variant counts of a toggle.
pub open spec fn variant_total(t: ToggleStats) -> int {
    sum_counts(t.variants.spec_entries())
}

proof fn lemma_sum_counts_update(s: Seq<(String, u32)>, i: int, e: (String, u32))
    requires
        0 <= i < s.len(),
    ensures
        sum_counts(s.update(i, e)) == sum_counts(s) - s[i].1 + e.1,
    decreases s.len(),
{
    let t = s.update(i, e);
    if i == s.len() - 1 {
        assert(t.drop_last() =~= s.drop_last());
    } else {
        assert(t.drop_last() =~= s.drop_last().update(i, e));
        lemma_sum_counts_update(s.drop_last(), i, e);
    }
}

impl Default for ToggleStats {
    fn default() -> (r: Self)
        ensures
            r.no == 0,
            r.yes == 0,
            r@ == Map::<Seq<char>, u32>::empty(),
            variant_total(r) == 0,
    {
        ToggleStats { no: 0, yes: 0, variants: StringMap::new() }
    }
}

impl View for ToggleStats {
    type V = Map<Seq<char>, u32>;

    /// The variant counts.
    open spec fn view(&self) -> Map<Seq<char>, u32> {
        self.variants@
    }
}

impl DeepView for ToggleStats {
    type V = (u32, u32, Seq<(Seq<char>, u32)>);

    open spec fn deep_view(&self) -> Self::V {
        (self.no, self.yes, self.variants.deep_view())
    }
}

impl DeepClone for ToggleStats {
    fn deep_clone(&self) -> (r: Self) {
        ToggleStats { no: self.no, yes: self.yes, variants: self.variants.deep_clone() }
    }
}

impl ToggleStats {
    /// Increments yes count
    pub fn yes(&mut self)
        requires
            old(self).yes < u32::MAX,
        ensures
            final(self).yes == old(self).yes + 1,
            final(self).no == old(self).no,
            final(self).variants == old(self).variants,
    {
        self.yes = self.yes + 1;
    }

    /// Increments no count
    pub fn no(&mut self)
        requires
            old(self).no < u32::MAX,
        ensures
            final(self).no == old(self).no + 1,
            final(self).yes == old(self).yes,
            final(self).variants == old(self).variants,
    {
        self.no = self.no + 1;
    }

    /// Use after evaluating a toggle passing in whether or not the toggle was enabled
    pub fn count(&mut self, enabled: bool)
        requires
            enabled ==> old(self).yes < u32::MAX,
            !enabled ==> old(self).no < u32::MAX,
        ensures
            final(self).yes == old(self).yes + (if enabled {
                1int
            } else {
                0int
            }),
            final(self).no == old(self).no + (if enabled {
                0int
            } else {
                1int
            }),
            final(self).variants == old(self).variants,
    {
        if enabled {
            self.yes()
        } else {
            self.no()
        }
    }

    /// Counts occurrence for variant with name.
    /// This method will also count yes for the toggle itself
    /// Use count_disabled()
    pub fn count_variant(&mut self, name: &str)
        requires
            old(self).yes < u32::MAX,
            can_bump(old(self)@, name@),
        ensures
            final(self)@ == bumped(old(self)@, name@),
            final(self).yes == old(self).yes + 1,
            final(self).no == old(self).no,
            variant_total(*final(self)) == variant_total(*old(self)) + 1,
            variant_total(*old(self)) == old(self).yes + old(self).no ==> variant_total(*final(self))
                == final(self).yes + final(self).no,
    {
        self.increment_variant_count(name);
        self.count(true);
    }

    /// Counts the `disabled` variant, and counts no for the toggle itself.
    pub fn variant_disabled(&mut self)
        requires
            old(self).no < u32::MAX,
            can_bump(old(self)@, "disabled"@),
        ensures
            final(self)@ == bumped(old(self)@, "disabled"@),
            final(self).yes == old(self).yes,
            final(self).no == old(self).no + 1,
            variant_total(*final(self)) == variant_total(*old(self)) + 1,
            variant_total(*old(self)) == old(self).yes + old(self).no ==> variant_total(*final(self))
                == final(self).yes + final(self).no,
    {
        self.increment_variant_count("disabled");
        self.count(false);
    }

    /// Incrementing count for var
    pub fn increment_variant_count(&mut self, name: &str)
        requires
            can_bump(old(self)@, name@),
        ensures
            final(self)@ == bumped(old(self)@, name@),
            final(self).yes == old(self).yes,
            final(self).no == old(self).no,
            variant_total(*final(self)) == variant_total(*old(self)) + 1,
    {
        let ghost s = self.variants.spec_entries();
        let _keys_are_unique = self.variants.entries();
        proof {
            lemma_entries_map(s);
        }
        let current: Option<u32> = match self.variants.get(name) {
            Some(c) => Some(*c),
            None => None,
        };
        let next: u32 = match current {
            Some(c) => c + 1,
            None => 1,
        };
        let key = String::from_str(name);
        let ghost k = key;
        self.variants.insert(key, next);
        proof {
            let t = self.variants.spec_entries();
            assert(t == entries_insert(s, k, next));
            if exists|i: int| 0 <= i < s.len() && #[trigger] s[i].0@ == k@ {
                let i = choose|i: int| 0 <= i < s.len() && #[trigger] s[i].0@ == k@;
                assert(entries_map(s)[s[i].0@] == s[i].1);
                lemma_sum_counts_update(s, i, (s[i].0, next));
            } else {
                assert(t.drop_last() =~= s);
            }
        }
    }
}

/// The toggle counts of one period.
#[derive(Clone, Debug)]
pub struct MetricBucket {
    pub start: Timestamp,
    pub stop: Timestamp,
    pub toggles: StringMap<ToggleStats>,
}

/// Which SDK sent the data.
#[derive(Clone, Copy, Debug, PartialEq, Eq, Structural)]
pub enum SdkType {
    Frontend,
    Backend,
}

/// What a client says of itself.
#[derive(Clone, Debug, PartialEq, Eq)]
pub struct MetricsMetadata {
    pub sdk_version: Option<String>,
    pub sdk_type: Option<SdkType>,
    pub yggdrasil_version: Option<String>,
    pub platform_name: Option<String>,
    pub platform_version: Option<String>,
}

impl Default for MetricsMetadata {
    fn default() -> (r: Self)
        ensures
            r.sdk_version is None,
            r.sdk_type is None,
            r.yggdrasil_version is None,
            r.platform_name is None,
            r.platform_version is None,
    {
        MetricsMetadata {
            sdk_version: None,
            sdk_type: None,
            yggdrasil_version: None,
            platform_name: None,
            platform_version: None,
        }
    }
}

/// A copy of an optional string.
fn clone_opt_string(o: &Option<String>) -> (r: Option<String>)
    ensures
        r == *o,
{
    match o {
        Some(s) => Some(s.clone()),
        None => None,
    }
}

impl MetricsMetadata {
    /// A copy of the metadata.
    pub(crate) fn copy(&self) -> (r: Self)
        ensures
            r == *self,
    {
        MetricsMetadata {
            sdk_version: clone_opt_string(&self.sdk_version),
            sdk_type: self.sdk_type,
            yggdrasil_version: clone_opt_string(&self.yggdrasil_version),
            platform_name: clone_opt_string(&self.platform_name),
            platform_version: clone_opt_string(&self.platform_version),
        }
    }
}

/// The counts of one toggle in one period, for one application and environment.
#[derive(Clone, Debug)]
pub struct ClientMetricsEnv {
    pub feature_name: String,
    pub app_name: String,
    pub environment: String,
    pub timestamp: Timestamp,
    pub yes: u32,
    pub no: u32,
    pub variants: StringMap<u32>,
    pub metadata: MetricsMetadata,
}

/// One `ClientMetricsEnv` per toggle of the bucket, in the order of the bucket's
/// entries: the toggle's name and counts, the given application, environment and
/// metadata, and the start of the bucket as timestamp.
pub fn from_bucket_app_name_and_env(
    bucket: MetricBucket,
    app_name: String,
    environment: String,
    metadata: MetricsMetadata,
) -> (r: Vec<ClientMetricsEnv>)
    ensures
        r@.len() == bucket.toggles.spec_entries().len(),
        forall|i: int|
            0 <= i < r@.len() ==> {
                let e = #[trigger] r@[i];
                let t = bucket.toggles.spec_entries()[i];
                &&& e.feature_name == t.0
                &&& e.app_name == app_name
                &&& e.environment == environment
                &&& e.timestamp == bucket.start
                &&& e.yes == t.1.yes
                &&& e.no == t.1.no
                &&& e.variants == t.1.variants
                &&& e.metadata == metadata
            },
{
    let ghost entries = bucket.toggles.spec_entries();
    let timestamp = bucket.start;
    let mut rest = bucket.toggles.into_entries();
    let mut out: Vec<ClientMetricsEnv> = Vec::new();
    let ghost mut i: int = 0;
    assert(entries.skip(0) =~= entries);
    while rest.len() > 0
        invariant
            0 <= i <= entries.len(),
            rest@ == entries.skip(i),
            out@.len() == i,
            timestamp == bucket.start,
            forall|j: int|
                0 <= j < i ==> {
                    let e = #[trigger] out@[j];
                    let t = entries[j];
                    &&& e.feature_name == t.0
                    &&& e.app_name == app_name
                    &&& e.environment == environment
                    &&& e.timestamp == bucket.start
                    &&& e.yes == t.1.yes
                    &&& e.no == t.1.no
                    &&& e.variants == t.1.variants
                    &&& e.metadata == metadata
                },
        decreases rest.len(),
    {
        let (name, stats) = rest.remove(0);
        assert((name, stats) == entries[i]);
        let ToggleStats { no, yes, variants } = stats;
        out.push(
            ClientMetricsEnv {
                feature_name: name,
                app_name: app_name.clone(),
                environment: environment.clone(),
                timestamp,
                yes,
                no,
                variants,
                metadata: metadata.copy(),
            },
        );
        assert(entries.skip(i).remove(0) =~= entries.skip(i + 1));
        proof {
            i = i + 1;
        }
    }
    out
}

/// An application that connected through another one (such as a proxy).
#[derive(Clone, Debug, PartialEq, Eq)]
pub struct ConnectVia {
    pub app_name: String,
    pub instance_id: String,
}

impl ConnectVia {
    pub(crate) fn copy(&self) -> (r: Self)
        ensures
            r == *self,
    {
        ConnectVia { app_name: self.app_name.clone(), instance_id: self.instance_id.clone() }
    }
}

/// The registration of a client application.
#[derive(Clone, Debug, PartialEq, Eq)]
pub struct ClientApplication {
    pub app_name: String,
    pub connect_via: Option<Vec<ConnectVia>>,
    pub environment: Option<String>,
    pub projects: Option<Vec<String>>,
    pub instance_id: Option<String>,
    pub connection_id: Option<String>,
    pub interval: u32,
    pub started: Timestamp,
    pub strategies: Vec<String>,
    pub metadata: MetricsMetadata,
}

impl Default for ClientApplication {
    fn default() -> (r: Self)
        ensures
            r.app_name@ == Seq::<char>::empty(),
            r.connect_via is None,
            r.environment is None,
            r.projects is None,
            r.instance_id is None,
            r.connection_id is None,
            r.interval == 0,
            r.started == (Timestamp { secs: 0, nanos: 0 }),
            r.strategies@ == Seq::<String>::empty(),
            r.metadata == (MetricsMetadata {
                sdk_version: None,
                sdk_type: None,
                yggdrasil_version: None,
                platform_name: None,
                platform_version: None,
            }),
    {
        ClientApplication {
            app_name: String::new(),
            connect_via: None,
            environment: None,
            projects: None,
            instance_id: None,
            connection_id: None,
            interval: 0,
            started: Timestamp { secs: 0, nanos: 0 },
            strategies: Vec::new(),
            metadata: MetricsMetadata::default(),
        }
    }
}

/// Copies of the strings, in order.
fn clone_strings(v: &Vec<String>) -> (r: Vec<String>)
    ensures
        r@ == v@,
{
    let mut r: Vec<String> = Vec::new();
    let mut i: usize = 0;
    while i < v.len()
        invariant
            i <= v.len(),
            r@ == v@.take(i as int),
        decreases v.len() - i,
    {
        r.push(v[i].clone());
        assert(v@.take(i + 1) =~= v@.take(i as int).push(v@[i as int]));
        i = i + 1;
    }
    assert(v@.take(i as int) =~= v@);
    r
}

/// Copies of the connections, in order.
fn clone_connections(v: &Vec<ConnectVia>) -> (r: Vec<ConnectVia>)
    ensures
        r@ == v@,
{
    let mut r: Vec<ConnectVia> = Vec::new();
    let mut i: usize = 0;
    while i < v.len()
        invariant
            i <= v.len(),
            r@ == v@.take(i as int),
        decreases v.len() - i,
    {
        r.push(v[i].copy());
        assert(v@.take(i + 1) =~= v@.take(i as int).push(v@[i as int]));
        i = i + 1;
    }
    assert(v@.take(i as int) =~= v@);
    r
}

/// The sequence held by an optional vector, or the empty sequence.
pub open spec fn seq_or_empty<T>(o: Option<Vec<T>>) -> Seq<T> {
    match o {
        Some(v) => v@,
        None => Seq::empty(),
    }
}

/// The sequence held by an optional vector.
pub open spec fn opt_seq<T>(o: Option<Vec<T>>) -> Option<Seq<T>> {
    match o {
        Some(v) => Some(v@),
        None => None,
    }
}

/// The first of two options that is set.
pub open spec fn either<T>(a: Option<T>, b: Option<T>) -> Option<T> {
    if a is Some {
        a
    } else {
        b
    }
}

impl ClientApplication {
    /// A registration of application `app_name`, started at `started`, with the
    /// given interval, no connections, projects or strategies, and nothing else set.
    pub fn new_at(app_name: &str, interval: u32, started: Timestamp) -> (r: Self)
        ensures
            r.started == started,
            r.app_name@ == app_name@,
            (r.connect_via matches Some(c) && c@.len() == 0),
            r.environment is None,
            (r.projects matches Some(p) && p@.len() == 0),
            r.instance_id is None,
            r.connection_id is None,
            r.interval == interval,
            r.strategies@.len() == 0,
            r.metadata == (MetricsMetadata {
                sdk_version: None,
                sdk_type: None,
                yggdrasil_version: None,
                platform_name: None,
                platform_version: None,
            }),
    {
        ClientApplication {
            app_name: String::from_str(app_name),
            connect_via: Some(Vec::new()),
            environment: None,
            projects: Some(Vec::new()),
            instance_id: None,
            connection_id: None,
            interval,
            started,
            strategies: Vec::new(),
            metadata: MetricsMetadata {
                sdk_version: None,
                sdk_type: None,
                yggdrasil_version: None,
                platform_name: None,
                platform_version: None,
            },
        }
    }

    /// A registration of application `app_name`, started at the time of the call
    /// (read from the clock), and otherwise as `new_at` makes it.
    pub fn new(app_name: &str, interval: u32) -> (r: Self)
        ensures
            r.app_name@ == app_name@,
            (r.connect_via matches Some(c) && c@.len() == 0),
            r.environment is None,
            (r.projects matches Some(p) && p@.len() == 0),
            r.instance_id is None,
            r.connection_id is None,
            r.interval == interval,
            r.strategies@.len() == 0,
            r.metadata == (MetricsMetadata {
                sdk_version: None,
                sdk_type: None,
                yggdrasil_version: None,
                platform_name: None,
                platform_version: None,
            }),
    {
        ClientApplication::new_at(app_name, interval, now())
    }

    /// Adds the strategies that are not there yet: the strategies become those
    /// already there followed by the new ones, each name once.
    pub fn add_strategies(&mut self, strategies: Vec<String>)
        ensures
            final(self).strategies@ == dedup(old(self).strategies@ + strategies@),
            final(self).app_name == old(self).app_name,
            final(self).connect_via == old(self).connect_via,
            final(self).environment == old(self).environment,
            final(self).projects == old(self).projects,
            final(self).instance_id == old(self).instance_id,
            final(self).connection_id == old(self).connection_id,
            final(self).interval == old(self).interval,
            final(self).started == old(self).started,
            final(self).metadata == old(self).metadata,
    {
        let mut current: Vec<String> = Vec::new();
        std::mem::swap(&mut current, &mut self.strategies);
        self.strategies = current.merge(strategies);
    }

    /// A copy of this registration with one more connection, through instance
    /// `instance_id` of application `app_name`, at the end of its connections.
    pub fn connect_via(&self, app_name: &str, instance_id: &str) -> (r: ClientApplication)
        ensures
            (r.connect_via matches Some(c) && c@.len() == seq_or_empty(self.connect_via).len() + 1
                && c@.take(c@.len() - 1) == seq_or_empty(self.connect_via) && c@.last().app_name@
                == app_name@ && c@.last().instance_id@ == instance_id@),
            r.app_name == self.app_name,
            r.environment == self.environment,
            opt_seq(r.projects) == opt_seq(self.projects),
            r.instance_id == self.instance_id,
            r.connection_id == self.connection_id,
            r.interval == self.interval,
            r.started == self.started,
            r.strategies@ == self.strategies@,
            r.metadata == self.metadata,
    {
        let mut connect_via = match &self.connect_via {
            Some(c) => clone_connections(c),
            None => Vec::new(),
        };
        let ghost before = connect_via@;
        connect_via.push(
            ConnectVia { app_name: String::from_str(app_name), instance_id: String::from_str(instance_id) },
        );
        assert(connect_via@.take(connect_via@.len() - 1) =~= before);
        ClientApplication {
            app_name: self.app_name.clone(),
            connect_via: Some(connect_via),
            environment: clone_opt_string(&self.environment),
            projects: match &self.projects {
                Some(p) => Some(clone_strings(p)),
                None => None,
            },
            instance_id: clone_opt_string(&self.instance_id),
            connection_id: clone_opt_string(&self.connection_id),
            interval: self.interval,
            started: self.started,
            strategies: clone_strings(&self.strategies),
            metadata: self.metadata.copy(),
        }
    }
}

impl Merge for ClientApplication {
    /// Will keep all set fields from self, overwriting None with Somes from other
    /// Will merge strategies from self and other, deduplicating
    ///
    /// The strategies become the names of both sides, each once, sorted; the
    /// connections those of `self` followed by those of `other` when `self` has
    /// a list, else those of `other`; the projects, like every other field that
    /// `self` has set, those of `self`, else those of `other`.
    fn merge(self, other: ClientApplication) -> (r: ClientApplication)
        ensures
            r.app_name == self.app_name,
            r.environment == either(self.environment, other.environment),
            r.projects == either(self.projects, other.projects),
            r.instance_id == either(self.instance_id, other.instance_id),
            r.connection_id == either(self.connection_id, other.connection_id),
            r.interval == self.interval,
            r.started == self.started,
            r.strategies@ == sort_seq(dedup(self.strategies@ + other.strategies@)),
            opt_seq(r.connect_via) == (if self.connect_via is Some {
                Some(seq_or_empty(self.connect_via) + seq_or_empty(other.connect_via))
            } else {
                opt_seq(other.connect_via)
            }),
            r.metadata == (MetricsMetadata {
                sdk_version: either(self.metadata.sdk_version, other.metadata.sdk_version),
                sdk_type: either(self.metadata.sdk_type, other.metadata.sdk_type),
                yggdrasil_version: either(
                    self.metadata.yggdrasil_version,
                    other.metadata.yggdrasil_version,
                ),
                platform_name: either(self.metadata.platform_name, other.metadata.platform_name),
                platform_version: either(
                    self.metadata.platform_version,
                    other.metadata.platform_version,
                ),
            }),
    {
        let ClientApplication {
            app_name,
            connect_via,
            environment,
            projects,
            instance_id,
            connection_id,
            interval,
            started,
            strategies,
            metadata,
        } = self;
        let ClientApplication {
            app_name: _,
            connect_via: other_connect_via,
            environment: other_environment,
            projects: other_projects,
            instance_id: other_instance_id,
            connection_id: other_connection_id,
            interval: _,
            started: _,
            strategies: other_strategies,
            metadata: other_metadata,
        } = other;
        let merged_strategies = sort_vec(strategies.merge(other_strategies));
        let merged_connected_via = match connect_via {
            Some(c) => {
                let mut c = c;
                let mut rest = match other_connect_via {
                    Some(o) => o,
                    None => Vec::new(),
                };
                c.append(&mut rest);
                Some(c)
            },
            None => other_connect_via,
        };
        let MetricsMetadata {
            sdk_version,
            sdk_type,
            yggdrasil_version,
            platform_name,
            platform_version,
        } = metadata;
        let MetricsMetadata {
            sdk_version: other_sdk_version,
            sdk_type: other_sdk_type,
            yggdrasil_version: other_yggdrasil_version,
            platform_name: other_platform_name,
            platform_version: other_platform_version,
        } = other_metadata;
        ClientApplication {
            app_name,
            environment: or_else(environment, other_environment),
            projects: or_else(projects, other_projects),
            instance_id: or_else(instance_id, other_instance_id),
            connection_id: or_else(connection_id, other_connection_id),
            interval,
            started,
            strategies: merged_strategies,
            connect_via: merged_connected_via,
            metadata: MetricsMetadata {
                sdk_version: or_else(sdk_version, other_sdk_version),
                sdk_type: or_else(sdk_type, other_sdk_type),
                yggdrasil_version: or_else(yggdrasil_version, other_yggdrasil_version),
                platform_name: or_else(platform_name, other_platform_name),
                platform_version: or_else(platform_version, other_platform_version),
            },
        }
    }
}

/// `a` if it is set, else `b`.
fn or_else<T>(a: Option<T>, b: Option<T>) -> (r: Option<T>)
    ensures
        r == either(a, b),
{
    match a {
        Some(x) => Some(x),
        None => b,
    }
}

/// The kind of an impact metric.
#[derive(Clone, Copy, Debug, PartialEq, Eq, Structural)]
pub enum MetricType {
    Counter,
    Gauge,
    Histogram,
    Unknown,
}

/// The metric type whose lowercase name is `s`.
pub open spec fn metric_type_named(s: Seq<char>) -> MetricType {
    if s == "counter"@ {
        MetricType::Counter
    } else if s == "gauge"@ {
        MetricType::Gauge
    } else if s == "histogram"@ {
        MetricType::Histogram
    } else {
        MetricType::Unknown
    }
}

/// What `str::to_lowercase` makes of a string (Unicode lowercase mapping).
pub uninterp spec fn lowercased(s: Seq<char>) -> Seq<char>;

/// Calls `str::to_lowercase`; its result is named `lowercased` of the input.
#[verifier::external_body]
fn to_lowercase(s: &str) -> (r: String)
    ensures
        r@ == lowercased(s@),
{
    s.to_lowercase()
}

impl MetricType {
    /// The metric type named `s`, whatever its case; `Unknown` for other names.
    pub fn parse(s: &str) -> (r: MetricType)
        ensures
            r == metric_type_named(lowercased(s@)),
    {
        let lower = to_lowercase(s);
        MetricType::from_lowercase(lower.as_str())
    }

    /// The metric type with lowercase name `s`; `Unknown` for other names.
    pub fn from_lowercase(s: &str) -> (r: MetricType)
        ensures
            r == metric_type_named(s@),
    {
        if str_eq(s, "counter") {
            MetricType::Counter
        } else if str_eq(s, "gauge") {
            MetricType::Gauge
        } else if str_eq(s, "histogram") {
            MetricType::Histogram
        } else {
            MetricType::Unknown
        }
    }

    /// The lowercase name of the metric type.
    pub fn to_string(&self) -> (r: String)
        ensures
            r@ == match self {
                MetricType::Counter => "counter"@,
                MetricType::Gauge => "gauge"@,
                MetricType::Histogram => "histogram"@,
                MetricType::Unknown => "unknown"@,
            },
    {
        match self {
            MetricType::Counter => String::from_str("counter"),
            MetricType::Gauge => String::from_str("gauge"),
            MetricType::Histogram => String::from_str("histogram"),
            MetricType::Unknown => String::from_str("unknown"),
        }
    }
}

impl Ordered for (String, String) {
    /// Label pairs are ordered by their keys.
    open spec fn precedes(&self, other: &Self) -> bool {
        lex_le(self.0@, other.0@)
    }

    proof fn lemma_total(a: &Self, b: &Self) {
        crate::ordering::lemma_lex_total(a.0@, b.0@);
    }

    proof fn lemma_trans(a: &Self, b: &Self, c: &Self) {
        crate::ordering::lemma_lex_trans(a.0@, b.0@, c.0@);
    }

    proof fn lemma_precedes_deep(a: &Self, b: &Self, c: &Self, d: &Self) {
    }

    fn check_precedes(&self, other: &Self) -> (r: bool) {
        str_le(self.0.as_str(), other.0.as_str())
    }
}

/// `key:value` pairs joined by commas, in order.
pub open spec fn joined_labels(s: Seq<(String, String)>) -> Seq<char>
    decreases s.len(),
{
    if s.len() == 0 {
        Seq::empty()
    } else if s.len() == 1 {
        s[0].0@ + ":"@ + s[0].1@
    } else {
        joined_labels(s.drop_last()) + ","@ + s.last().0@ + ":"@ + s.last().1@
    }
}

/// How labels are written into a key: no labels give the empty key, one label
/// gives `name:value`, and each further label adds `,name:value` at the end.
pub proof fn law_joined_labels(s: Seq<(String, String)>, p: (String, String))
    ensures
        joined_labels(Seq::empty()) == Seq::<char>::empty(),
        joined_labels(seq![p]) == p.0@ + ":"@ + p.1@,
        s.len() > 0 ==> joined_labels(s.push(p)) == joined_labels(s) + ","@ + p.0@ + ":"@ + p.1@,
        joined_labels(s.push(p)).len() >= joined_labels(s).len() + p.0@.len() + p.1@.len() + 1,
{
    reveal_strlit(":");
    reveal_strlit(",");
    assert(s.push(p).drop_last() =~= s);
    if s.len() == 0 {
        assert(s.push(p) =~= seq![p]);
    }
}

/// The labels of a key come in lexicographic order of their names, each name
/// once, and they are exactly the given labels.
pub proof fn law_labels_in_name_order(s: Seq<(String, String)>)
    requires
        unique_string_keys(s),
    ensures
        forall|i: int, j: int|
            #![trigger sort_seq(s)[i], sort_seq(s)[j]]
            0 <= i < j < sort_seq(s).len() ==> lex_le(sort_seq(s)[i].0@, sort_seq(s)[j].0@)
                && sort_seq(s)[i].0@ != sort_seq(s)[j].0@,
        sort_seq(s).to_multiset() == s.to_multiset(),
{
    assert(unique_keys(s));
    lemma_sort_entries(s);
    lemma_sort(s);
    let t = sort_seq(s);
    assert forall|i: int, j: int| #![trigger t[i], t[j]] 0 <= i < j < t.len() implies lex_le(
        t[i].0@,
        t[j].0@,
    ) && t[i].0@ != t[j].0@ by {
        assert(t[i].precedes(&t[j]));
        assert(t[i].key() != t[j].key());
    }
}

/// The key under which samples with these labels are grouped: the labels sorted
/// by key and written as `key:value` pairs joined by commas; empty without labels.
pub fn labels_to_key(labels: &Option<StringMap<String>>) -> (r: String)
    ensures
        r@ == match labels {
            Some(m) => joined_labels(sort_seq(m.spec_entries())),
            None => Seq::empty(),
        },
{
    match labels {
        None => String::new(),
        Some(m) => {
            let entries = m.entries();
            let mut pairs: Vec<(String, String)> = Vec::new();
            let mut i: usize = 0;
            while i < entries.len()
                invariant
                    i <= entries@.len(),
                    pairs@ == entries@.take(i as int),
                decreases entries@.len() - i,
            {
                pairs.push((entries[i].0.clone(), entries[i].1.clone()));
                assert(entries@.take(i + 1) =~= entries@.take(i as int).push(entries@[i as int]));
                i = i + 1;
            }
            assert(entries@.take(i as int) =~= entries@);
            let sorted = sort_vec(pairs);
            let mut key = String::new();
            let mut j: usize = 0;
            while j < sorted.len()
                invariant
                    j <= sorted@.len(),
                    key@ == joined_labels(sorted@.take(j as int)),
                decreases sorted@.len() - j,
            {
                assert(sorted@.take(j + 1).drop_last() =~= sorted@.take(j as int));
                if j > 0 {
                    key.append(",");
                }
                key.append(sorted[j].0.as_str());
                key.append(":");
                key.append(sorted[j].1.as_str());
                proof {
                    if j == 0 {
                        assert(key@ =~= joined_labels(sorted@.take(1)));
                    } else {
                        assert(key@ =~= joined_labels(sorted@.take(j + 1)));
                    }
                }
                j = j + 1;
            }
            assert(sorted@.take(j as int) =~= sorted@);
            key
        },
    }
}

impl Ordered for (String, usize) {
    /// Keyed positions are ordered by their keys.
    open spec fn precedes(&self, other: &Self) -> bool {
        lex_le(self.0@, other.0@)
    }

    proof fn lemma_total(a: &Self, b: &Self) {
        crate::ordering::lemma_lex_total(a.0@, b.0@);
    }

    proof fn lemma_trans(a: &Self, b: &Self, c: &Self) {
        crate::ordering::lemma_lex_trans(a.0@, b.0@, c.0@);
    }

    proof fn lemma_precedes_deep(a: &Self, b: &Self, c: &Self, d: &Self) {
    }

    fn check_precedes(&self, other: &Self) -> (r: bool) {
        str_le(self.0.as_str(), other.0.as_str())
    }
}

/// Each key with its position.
pub open spec fn keyed_positions(keys: Seq<String>) -> Seq<(String, usize)> {
    Seq::new(keys.len(), |i: int| (keys[i], i as usize))
}

/// The positions of a sequence of keyed positions, cut where the key changes:
/// each run of equal keys becomes one group.
pub open spec fn runs(s: Seq<(String, usize)>) -> Seq<Seq<usize>>
    decreases s.len(),
{
    if s.len() == 0 {
        Seq::empty()
    } else {
        let g = runs(s.drop_last());
        if s.len() > 1 && s[s.len() - 2].0@ == s.last().0@ {
            g.update(g.len() - 1, g.last().push(s.last().1))
        } else {
            g.push(seq![s.last().1])
        }
    }
}

proof fn lemma_runs_nonempty(s: Seq<(String, usize)>)
    ensures
        s.len() > 0 ==> runs(s).len() > 0,
    decreases s.len(),
{
    if s.len() > 1 {
        lemma_runs_nonempty(s.drop_last());
    }
}

/// How the samples of a metric are merged: the positions of the samples sorted by
/// their keys (a stable sort, so equal keys keep their order), in groups of equal
/// keys. The samples of one group are combined into one, in the order given.
pub fn merge_groups(keys: &Vec<String>) -> (r: Vec<Vec<usize>>)
    ensures
        r.deep_view() == runs(sort_seq(keyed_positions(keys@))),
{
    let mut pairs: Vec<(String, usize)> = Vec::new();
    let mut i: usize = 0;
    while i < keys.len()
        invariant
            i <= keys@.len(),
            pairs@ == keyed_positions(keys@).take(i as int),
        decreases keys@.len() - i,
    {
        pairs.push((keys[i].clone(), i));
        assert(keyed_positions(keys@).take(i + 1) =~= keyed_positions(keys@).take(i as int).push(
            (keys@[i as int], i),
        ));
        i = i + 1;
    }
    assert(keyed_positions(keys@).take(i as int) =~= keyed_positions(keys@));
    let sorted = sort_vec(pairs);
    let ghost s = sorted@;
    let mut groups: Vec<Vec<usize>> = Vec::new();
    let mut j: usize = 0;
    assert(groups.deep_view() =~= runs(s.take(0)));
    while j < sorted.len()
        invariant
            j <= s.len(),
            s == sorted@,
            groups.deep_view() == runs(s.take(j as int)),
        decreases s.len() - j,
    {
        assert(s.take(j + 1).drop_last() =~= s.take(j as int));
        assert(s.take(j + 1).last() == s[j as int]);
        let ghost before = groups.deep_view();
        proof {
            lemma_runs_nonempty(s.take(j as int));
            assert(groups.deep_view().len() == groups@.len());
        }
        if j > 0 && str_eq(sorted[j - 1].0.as_str(), sorted[j].0.as_str()) {
            assert(s.take(j + 1)[j - 1] == s[j - 1]);
            let last = groups.len() - 1;
            let mut group = groups.remove(last);
            assert(group.deep_view() =~= group@);
            assert(group@ == before[last as int]);
            group.push(sorted[j].1);
            groups.push(group);
            assert(groups.deep_view() =~= before.update(
                last as int,
                before[last as int].push(s[j as int].1),
            )) by {
                assert forall|m: int| 0 <= m < groups@.len() implies groups.deep_view()[m]
                    == before.update(last as int, before[last as int].push(s[j as int].1))[m] by {
                    if m < last {
                        assert(groups@[m].deep_view() == before[m]);
                    } else {
                        assert(groups@[m].deep_view() =~= groups@[m]@);
                    }
                }
            }
        } else {
            let mut group: Vec<usize> = Vec::new();
            group.push(sorted[j].1);
            groups.push(group);
            assert(groups.deep_view() =~= before.push(seq![s[j as int].1])) by {
                assert forall|m: int| 0 <= m < groups@.len() implies groups.deep_view()[m]
                    == before.push(seq![s[j as int].1])[m] by {
                    if m < groups@.len() - 1 {
                        assert(groups@[m].deep_view() == before[m]);
                    } else {
                        assert(groups@[m].deep_view() =~= groups@[m]@);
                    }
                }
            }
            assert(j > 0 ==> s.take(j + 1)[j - 1] == s[j - 1]);
        }
        j = j + 1;
    }
    assert(s.take(j as int) =~= s);
    groups
}

/// In a list sorted by key, nothing from the place where `x` is inserted on has
/// the key of `x`.
proof fn lemma_insert_after_equal_keys(t: Seq<(String, usize)>, x: (String, usize))
    requires
        is_sorted(t),
    ensures
        insert_pos(t, x) <= t.len(),
        forall|j: int| insert_pos(t, x) <= j < t.len() ==> #[trigger] t[j].0@ != x.0@,
{
    lemma_insert_pos_bound(t, x);
    let p = insert_pos(t, x) as int;
    assert forall|j: int| p <= j < t.len() implies #[trigger] t[j].0@ != x.0@ by {
        if t[j].0@ == x.0@ {
            crate::ordering::lemma_lex_total(x.0@, x.0@);
            assert(t[j].precedes(&x));
            if j > p {
                assert(t[p].precedes(&t[j]));
                crate::ordering::lemma_lex_trans(t[p].0@, t[j].0@, x.0@);
            }
        }
    }
}

/// The keys sorted with their positions: each entry is a key with its position,
/// and every position occurs.
proof fn lemma_sorted_keyed_members(keys: Seq<String>)
    requires
        keys.len() <= usize::MAX,
    ensures
        sort_seq(keyed_positions(keys)).len() == keys.len(),
        is_sorted(sort_seq(keyed_positions(keys))),
        forall|j: int|
            0 <= j < sort_seq(keyed_positions(keys)).len() ==> (#[trigger] sort_seq(
                keyed_positions(keys),
            )[j]).1 < keys.len() && sort_seq(keyed_positions(keys))[j].0 == keys[sort_seq(
                keyed_positions(keys),
            )[j].1 as int],
        forall|p: int|
            0 <= p < keys.len() ==> sort_seq(keyed_positions(keys)).contains(
                #[trigger] keyed_positions(keys)[p],
            ),
{
    let kp = keyed_positions(keys);
    let s = sort_seq(kp);
    lemma_sort(kp);
    assert forall|j: int| 0 <= j < s.len() implies (#[trigger] s[j]).1 < keys.len() && s[j].0
        == keys[s[j].1 as int] by {
        broadcast use vstd::seq_lib::group_to_multiset_ensures;

        assert(s.contains(s[j]));
        assert(s.to_multiset().count(s[j]) > 0);
        assert(kp.contains(s[j]));
        let i = choose|i: int| 0 <= i < kp.len() && kp[i] == s[j];
        assert(kp[i].1 == i as usize);
    }
    assert forall|p: int| 0 <= p < keys.len() implies s.contains(#[trigger] kp[p]) by {
        broadcast use vstd::seq_lib::group_to_multiset_ensures;

        assert(kp.contains(kp[p]));
        assert(kp.to_multiset().count(kp[p]) > 0);
    }
}

/// Sorting keys with their positions is stable: entries with equal keys keep the
/// order of their positions.
#[verifier::rlimit(40)]
proof fn lemma_sorted_keyed_stable(keys: Seq<String>)
    requires
        keys.len() <= usize::MAX,
    ensures
        forall|j1: int, j2: int|
            #![trigger sort_seq(keyed_positions(keys))[j1], sort_seq(keyed_positions(keys))[j2]]
            0 <= j1 < j2 < keys.len() && sort_seq(keyed_positions(keys))[j1].0@ == sort_seq(
                keyed_positions(keys),
            )[j2].0@ ==> sort_seq(keyed_positions(keys))[j1].1 < sort_seq(
                keyed_positions(keys),
            )[j2].1,
    decreases keys.len(),
{
    if keys.len() > 0 {
        let kp = keyed_positions(keys);
        let s = sort_seq(kp);
        let n = keys.len();
        let k0 = keys.drop_last();
        lemma_sorted_keyed_stable(k0);
        lemma_sorted_keyed_members(k0);
        assert(kp.drop_last() =~= keyed_positions(k0));
        let t = sort_seq(keyed_positions(k0));
        let x = kp.last();
        assert(x.1 == (n - 1) as usize);
        lemma_insert_after_equal_keys(t, x);
        let p = insert_pos(t, x) as int;
        assert(s == t.insert(p, x));
        assert forall|j1: int, j2: int|
            #![trigger s[j1], s[j2]]
            0 <= j1 < j2 < n && s[j1].0@ == s[j2].0@ implies s[j1].1 < s[j2].1 by {
            if j1 == p {
                assert(s[j2] == t[j2 - 1]);
                assert(t[j2 - 1].0@ != x.0@);
            } else if j2 == p {
                assert(s[j1] == t[j1]);
                assert(t[j1].1 < k0.len());
            } else {
                let i1 = if j1 < p {
                    j1
                } else {
                    j1 - 1
                };
                let i2 = if j2 < p {
                    j2
                } else {
                    j2 - 1
                };
                assert(s[j1] == t[i1] && s[j2] == t[i2]);
                assert(t[i1].0@ == t[i2].0@);
            }
        }
    }
}

/// The first key of each group of `runs(s)`.
spec fn group_key(keys: Seq<String>, g: Seq<usize>) -> Seq<char> {
    keys[g[0] as int]@
}

/// No group is empty, and the positions of a group are positions of keys equal
/// to the group's key.
#[verifier::opaque]
spec fn groups_keyed(keys: Seq<String>, g: Seq<Seq<usize>>) -> bool {
    &&& forall|m: int| 0 <= m < g.len() ==> (#[trigger] g[m]).len() > 0
    &&& forall|m: int, i: int|
        #![trigger g[m][i]]
        0 <= m < g.len() && 0 <= i < g[m].len() ==> g[m][i] < keys.len() && keys[g[m][i] as int]@
            == group_key(keys, g[m])
}

/// The positions of each group ascend.
#[verifier::opaque]
spec fn groups_ascending(g: Seq<Seq<usize>>) -> bool {
    forall|m: int, i: int, i2: int|
        #![trigger g[m][i], g[m][i2]]
        0 <= m < g.len() && 0 <= i < i2 < g[m].len() ==> g[m][i] < g[m][i2]
}

/// The keys of the groups ascend strictly.
#[verifier::opaque]
spec fn group_keys_ascending(keys: Seq<String>, g: Seq<Seq<usize>>) -> bool {
    forall|m: int, m2: int|
        #![trigger g[m], g[m2]]
        0 <= m < m2 < g.len() ==> lex_le(group_key(keys, g[m]), group_key(keys, g[m2]))
            && group_key(keys, g[m]) != group_key(keys, g[m2])
}

/// Every position of `s` is in a group.
#[verifier::opaque]
spec fn groups_cover(s: Seq<(String, usize)>, g: Seq<Seq<usize>>) -> bool {
    forall|j: int|
        0 <= j < s.len() ==> exists|m: int, i: int|
            0 <= m < g.len() && 0 <= i < g[m].len() && #[trigger] g[m][i] == (#[trigger] s[j]).1
}

/// Every position in a group is a position of `s`.
#[verifier::opaque]
spec fn groups_within(s: Seq<(String, usize)>, g: Seq<Seq<usize>>) -> bool {
    forall|m: int, i: int|
        0 <= m < g.len() && 0 <= i < g[m].len() ==> exists|j: int|
            0 <= j < s.len() && #[trigger] s[j].1 == #[trigger] g[m][i]
}

/// What a list of keyed positions must be for `runs` to group it by key: sorted
/// by key, each entry a key with its position, equal keys in order of position.
spec fn keyed_and_sorted(keys: Seq<String>, s: Seq<(String, usize)>) -> bool {
    &&& is_sorted(s)
    &&& forall|j: int|
        0 <= j < s.len() ==> (#[trigger] s[j]).1 < keys.len() && s[j].0@ == keys[s[j].1 as int]@
    &&& forall|j1: int, j2: int|
        #![trigger s[j1], s[j2]]
        0 <= j1 < j2 < s.len() && s[j1].0@ == s[j2].0@ ==> s[j1].1 < s[j2].1
}

proof fn lemma_keyed_and_sorted_prefix(keys: Seq<String>, s: Seq<(String, usize)>)
    requires
        keyed_and_sorted(keys, s),
        s.len() > 0,
    ensures
        keyed_and_sorted(keys, s.drop_last()),
{
    let s0 = s.drop_last();
    assert forall|p: int, q: int| #![trigger s0[p], s0[q]] 0 <= p < q < s0.len() implies s0[p].precedes(
        &s0[q],
    ) by {
        assert(s0[p] == s[p] && s0[q] == s[q]);
    }
    assert forall|j: int| 0 <= j < s0.len() implies (#[trigger] s0[j]).1 < keys.len() && s0[j].0@
        == keys[s0[j].1 as int]@ by {
        assert(s0[j] == s[j]);
    }
    assert forall|j1: int, j2: int|
        #![trigger s0[j1], s0[j2]]
        0 <= j1 < j2 < s0.len() && s0[j1].0@ == s0[j2].0@ implies s0[j1].1 < s0[j2].1 by {
        assert(s0[j1] == s[j1] && s0[j2] == s[j2]);
    }
}

/// The group of the last position is the last group.
spec fn ends_with_last(s: Seq<(String, usize)>, g: Seq<Seq<usize>>) -> bool {
    s.len() > 0 ==> g.len() > 0 && g.last().len() > 0 && g.last().last() == s.last().1
}

/// When the last entry has the key of the one before, it joins the last group.
#[verifier::spinoff_prover]
proof fn lemma_runs_extend(keys: Seq<String>, s: Seq<(String, usize)>)
    requires
        keyed_and_sorted(keys, s),
        s.len() > 1,
        s[s.len() - 2].0@ == s.last().0@,
        groups_keyed(keys, runs(s.drop_last())),
        groups_ascending(runs(s.drop_last())),
        group_keys_ascending(keys, runs(s.drop_last())),
        groups_cover(s.drop_last(), runs(s.drop_last())),
        groups_within(s.drop_last(), runs(s.drop_last())),
        ends_with_last(s.drop_last(), runs(s.drop_last())),
    ensures
        groups_keyed(keys, runs(s)),
        groups_ascending(runs(s)),
        group_keys_ascending(keys, runs(s)),
        groups_cover(s, runs(s)),
        groups_within(s, runs(s)),
        ends_with_last(s, runs(s)),
{
    let n = s.len();
    let s0 = s.drop_last();
    let x = s.last();
    let g = runs(s0);
    let r = runs(s);
    let gl = g.len() - 1;
    assert(x == s[n - 1]);
    assert(s0.last() == s[n - 2]);
    assert(s[n - 2].1 < x.1);
    let last = g[gl].push(x.1);
    assert(r == g.update(gl, last));
    assert(r.len() == g.len());
    assert(forall|m: int| 0 <= m < gl ==> r[m] == g[m]);
    assert(r[gl] == last);
    assert(last[0] == g[gl][0]);
    assert(group_key(keys, g[gl]) == x.0@) by {
        reveal(groups_keyed);
        assert(keys[g[gl][g[gl].len() - 1] as int]@ == group_key(keys, g[gl]));
    }
    assert(groups_keyed(keys, r)) by {
        reveal(groups_keyed);
        assert forall|m: int, i: int|
            #![trigger r[m][i]]
            0 <= m < r.len() && 0 <= i < r[m].len() implies r[m][i] < keys.len() && keys[r[m][i] as int]@
                == group_key(keys, r[m]) by {
            if m == gl && i < g[gl].len() {
                assert(r[m][i] == g[gl][i]);
            } else if m < gl {
                assert(r[m] == g[m]);
            }
        }
        assert forall|m: int| 0 <= m < r.len() implies (#[trigger] r[m]).len() > 0 by {
            if m < gl {
                assert(r[m] == g[m]);
            }
        }
    }
    assert(groups_ascending(r)) by {
        reveal(groups_ascending);
        assert forall|m: int, i: int, i2: int|
            #![trigger r[m][i], r[m][i2]]
            0 <= m < r.len() && 0 <= i < i2 < r[m].len() implies r[m][i] < r[m][i2] by {
            if m == gl {
                if i2 == r[m].len() - 1 {
                    assert(r[m][i] == g[gl][i]);
                    if i < g[gl].len() - 1 {
                        assert(g[gl][i] < g[gl][g[gl].len() - 1]);
                    }
                } else {
                    assert(r[m][i] == g[gl][i] && r[m][i2] == g[gl][i2]);
                }
            } else {
                assert(r[m] == g[m]);
            }
        }
    }
    assert(group_keys_ascending(keys, r)) by {
        reveal(group_keys_ascending);
        assert forall|m: int, m2: int|
            #![trigger r[m], r[m2]]
            0 <= m < m2 < r.len() implies lex_le(group_key(keys, r[m]), group_key(keys, r[m2]))
                && group_key(keys, r[m]) != group_key(keys, r[m2]) by {
            assert(group_key(keys, r[m]) == group_key(keys, g[m]));
            assert(group_key(keys, r[m2]) == group_key(keys, g[m2]));
            assert(g[m] == g[m] && g[m2] == g[m2]);
        }
    }
    assert(groups_cover(s, r)) by {
        reveal(groups_cover);
        assert forall|j: int| 0 <= j < s.len() implies exists|m: int, i: int|
            0 <= m < r.len() && 0 <= i < r[m].len() && #[trigger] r[m][i] == (#[trigger] s[j]).1 by {
            if j == n - 1 {
                assert(r[gl][r[gl].len() - 1] == s[j].1);
            } else {
                assert(s0[j] == s[j]);
                let (m, i) = choose|m: int, i: int|
                    0 <= m < g.len() && 0 <= i < g[m].len() && #[trigger] g[m][i] == (
                    #[trigger] s0[j]).1;
                assert(r[m][i] == g[m][i]);
            }
        }
    }
    assert(groups_within(s, r)) by {
        reveal(groups_within);
        assert forall|m: int, i: int|
            0 <= m < r.len() && 0 <= i < r[m].len() implies exists|j: int|
            0 <= j < s.len() && #[trigger] s[j].1 == #[trigger] r[m][i] by {
            if m == gl && i == r[m].len() - 1 {
                assert(s[n - 1].1 == r[m][i]);
            } else {
                assert(r[m][i] == g[m][i]);
                let j = choose|j: int| 0 <= j < s0.len() && #[trigger] s0[j].1 == #[trigger] g[m][i];
                assert(s[j] == s0[j]);
            }
        }
    }
}

/// When the last entry has a new key, it starts a group of its own.
#[verifier::spinoff_prover]
proof fn lemma_runs_new_group(keys: Seq<String>, s: Seq<(String, usize)>)
    requires
        keyed_and_sorted(keys, s),
        s.len() > 0,
        !(s.len() > 1 && s[s.len() - 2].0@ == s.last().0@),
        groups_keyed(keys, runs(s.drop_last())),
        groups_ascending(runs(s.drop_last())),
        group_keys_ascending(keys, runs(s.drop_last())),
        groups_cover(s.drop_last(), runs(s.drop_last())),
        groups_within(s.drop_last(), runs(s.drop_last())),
        ends_with_last(s.drop_last(), runs(s.drop_last())),
    ensures
        groups_keyed(keys, runs(s)),
        groups_ascending(runs(s)),
        group_keys_ascending(keys, runs(s)),
        groups_cover(s, runs(s)),
        groups_within(s, runs(s)),
        ends_with_last(s, runs(s)),
{
    let n = s.len();
    let s0 = s.drop_last();
    let x = s.last();
    let g = runs(s0);
    let r = runs(s);
    let gl = g.len() as int;
    assert(x == s[n - 1]);
    assert(r == g.push(seq![x.1]));
    assert(forall|m: int| 0 <= m < gl ==> r[m] == g[m]);
    assert(r[gl] == seq![x.1]);
    assert(group_key(keys, r[gl]) == x.0@);
    assert forall|m: int| 0 <= m < gl implies lex_le(group_key(keys, g[m]), x.0@) && group_key(
        keys,
        g[m],
    ) != x.0@ by {
        reveal(groups_within);
        reveal(groups_keyed);
        assert(g[m].len() > 0);
        let j = choose|j: int| 0 <= j < s0.len() && #[trigger] s0[j].1 == #[trigger] g[m][0];
        assert(s0[j] == s[j]);
        assert(s[j].0@ == group_key(keys, g[m]));
        assert(s[j].precedes(&s[n - 1]));
        if n > 1 {
            assert(s0.last() == s[n - 2]);
            crate::ordering::lemma_lex_total(s[j].0@, s[j].0@);
            if j < n - 2 {
                assert(s[j].precedes(&s[n - 2]));
            }
            assert(s[n - 2].precedes(&s[n - 1]));
            if group_key(keys, g[m]) == x.0@ {
                lemma_lex_antisym(s[n - 2].0@, x.0@);
            }
        }
    }
    assert(groups_keyed(keys, r)) by {
        reveal(groups_keyed);
        assert forall|m: int, i: int|
            #![trigger r[m][i]]
            0 <= m < r.len() && 0 <= i < r[m].len() implies r[m][i] < keys.len() && keys[r[m][i] as int]@
                == group_key(keys, r[m]) by {
            if m < gl {
                assert(r[m] == g[m]);
            }
        }
        assert forall|m: int| 0 <= m < r.len() implies (#[trigger] r[m]).len() > 0 by {
            if m < gl {
                assert(r[m] == g[m]);
            }
        }
    }
    assert(groups_ascending(r)) by {
        reveal(groups_ascending);
        assert forall|m: int, i: int, i2: int|
            #![trigger r[m][i], r[m][i2]]
            0 <= m < r.len() && 0 <= i < i2 < r[m].len() implies r[m][i] < r[m][i2] by {
            if m < gl {
                assert(r[m] == g[m]);
            }
        }
    }
    assert(group_keys_ascending(keys, r)) by {
        reveal(group_keys_ascending);
        assert forall|m: int, m2: int|
            #![trigger r[m], r[m2]]
            0 <= m < m2 < r.len() implies lex_le(group_key(keys, r[m]), group_key(keys, r[m2]))
                && group_key(keys, r[m]) != group_key(keys, r[m2]) by {
            assert(r[m] == g[m]);
            if m2 < gl {
                assert(r[m2] == g[m2]);
                assert(g[m] == g[m] && g[m2] == g[m2]);
            }
        }
    }
    assert(groups_cover(s, r)) by {
        reveal(groups_cover);
        assert forall|j: int| 0 <= j < s.len() implies exists|m: int, i: int|
            0 <= m < r.len() && 0 <= i < r[m].len() && #[trigger] r[m][i] == (#[trigger] s[j]).1 by {
            if j == n - 1 {
                assert(r[gl][0] == s[j].1);
            } else {
                assert(s0[j] == s[j]);
                let (m, i) = choose|m: int, i: int|
                    0 <= m < g.len() && 0 <= i < g[m].len() && #[trigger] g[m][i] == (
                    #[trigger] s0[j]).1;
                assert(r[m] == g[m]);
            }
        }
    }
    assert(groups_within(s, r)) by {
        reveal(groups_within);
        assert forall|m: int, i: int|
            0 <= m < r.len() && 0 <= i < r[m].len() implies exists|j: int|
            0 <= j < s.len() && #[trigger] s[j].1 == #[trigger] r[m][i] by {
            if m == gl {
                assert(s[n - 1].1 == r[m][i]);
            } else {
                assert(r[m] == g[m]);
                let j = choose|j: int| 0 <= j < s0.len() && #[trigger] s0[j].1 == #[trigger] g[m][i];
                assert(s[j] == s0[j]);
            }
        }
    }
}

/// `runs` groups a sorted list of keyed positions by key.
proof fn lemma_runs_groups(keys: Seq<String>, s: Seq<(String, usize)>)
    requires
        keyed_and_sorted(keys, s),
    ensures
        groups_keyed(keys, runs(s)),
        groups_ascending(runs(s)),
        group_keys_ascending(keys, runs(s)),
        groups_cover(s, runs(s)),
        groups_within(s, runs(s)),
        ends_with_last(s, runs(s)),
    decreases s.len(),
{
    if s.len() == 0 {
        assert(runs(s) =~= Seq::<Seq<usize>>::empty());
        reveal(groups_keyed);
        reveal(groups_ascending);
        reveal(group_keys_ascending);
        reveal(groups_cover);
        reveal(groups_within);
    } else {
        lemma_keyed_and_sorted_prefix(keys, s);
        lemma_runs_groups(keys, s.drop_last());
        if s.len() > 1 && s[s.len() - 2].0@ == s.last().0@ {
            lemma_runs_extend(keys, s);
        } else {
            lemma_runs_new_group(keys, s);
        }
    }
}

/// Position `p` is in one of the groups.
pub open spec fn in_a_group(g: Seq<Seq<usize>>, p: int) -> bool {
    exists|m: int, i: int| 0 <= m < g.len() && 0 <= i < g[m].len() && #[trigger] g[m][i] == p
}

proof fn lemma_folded_all(t: MetricType, kinds: Seq<SampleKind>, base: usize, g: Seq<usize>)
    requires
        forall|i: int| 0 <= i < g.len() ==> folds_into(t, kinds[base as int], kinds[#[trigger] g[i] as int]),
    ensures
        folded(t, kinds, base, g) == g,
    decreases g.len(),
{
    if g.len() > 0 {
        lemma_folded_all(t, kinds, base, g.drop_last());
        assert(folds_into(t, kinds[base as int], kinds[g[g.len() - 1] as int]));
        assert(g.drop_last().push(g.last()) =~= g);
    }
}

/// What the merge plan does with each group of samples with equal keys: a
/// counter whose samples are all numbers, or a histogram whose samples are all
/// buckets, keeps the first sample of the group and folds every other sample of
/// the group into it, in order; a gauge or an unknown metric keeps the last
/// sample of the group alone.
pub proof fn law_merge_plan(t: MetricType, keys: Seq<String>, kinds: Seq<SampleKind>)
    requires
        keys.len() <= usize::MAX,
        keys.len() == kinds.len(),
    ensures
        sample_merge_plan(t, keys, kinds).len() == runs(sort_seq(keyed_positions(keys))).len(),
        forall|m: int|
            0 <= m < sample_merge_plan(t, keys, kinds).len() ==> {
                let g = runs(sort_seq(keyed_positions(keys)))[m];
                let e = #[trigger] sample_merge_plan(t, keys, kinds)[m];
                &&& ((t == MetricType::Counter && forall|p: int|
                    0 <= p < kinds.len() ==> kinds[p] == SampleKind::Numeric) ==> e == (
                    g[0],
                    g.drop_first(),
                ))
                &&& ((t == MetricType::Histogram && forall|p: int|
                    0 <= p < kinds.len() ==> kinds[p] == SampleKind::Bucket) ==> e == (
                    g[0],
                    g.drop_first(),
                ))
                &&& ((t == MetricType::Gauge || t == MetricType::Unknown) ==> e == (
                    g.last(),
                    Seq::<usize>::empty(),
                ))
            },
{
    law_merge_groups(keys);
    let gs = runs(sort_seq(keyed_positions(keys)));
    assert forall|m: int| 0 <= m < sample_merge_plan(t, keys, kinds).len() implies {
        let g = gs[m];
        let e = #[trigger] sample_merge_plan(t, keys, kinds)[m];
        &&& ((t == MetricType::Counter && forall|p: int|
            0 <= p < kinds.len() ==> kinds[p] == SampleKind::Numeric) ==> e == (g[0], g.drop_first()))
        &&& ((t == MetricType::Histogram && forall|p: int|
            0 <= p < kinds.len() ==> kinds[p] == SampleKind::Bucket) ==> e == (g[0], g.drop_first()))
        &&& ((t == MetricType::Gauge || t == MetricType::Unknown) ==> e == (
            g.last(),
            Seq::<usize>::empty(),
        ))
    } by {
        let g = gs[m];
        assert(g.len() > 0);
        assert(g[0] == gs[m][0]);
        assert(g[0] < keys.len());
        if t == MetricType::Counter || t == MetricType::Histogram {
            let r = g.drop_first();
            if (t == MetricType::Counter && forall|p: int|
                0 <= p < kinds.len() ==> kinds[p] == SampleKind::Numeric) || (t
                == MetricType::Histogram && forall|p: int|
                0 <= p < kinds.len() ==> kinds[p] == SampleKind::Bucket) {
                assert forall|i: int| 0 <= i < r.len() implies folds_into(
                    t,
                    kinds[g[0] as int],
                    kinds[#[trigger] r[i] as int],
                ) by {
                    assert(r[i] == gs[m][i + 1]);
                    assert(r[i] < keys.len());
                }
                lemma_folded_all(t, kinds, g[0], r);
            }
        }
    }
}

/// How `merge_groups` groups the samples: each group is non-empty; all its samples
/// have the same key, and they come in the order of their positions; different
/// groups have different keys, in ascending order; every sample is in exactly one
/// group.
#[verifier::rlimit(40)]
pub proof fn law_merge_groups(keys: Seq<String>)
    requires
        keys.len() <= usize::MAX,
    ensures
        forall|m: int|
            0 <= m < runs(sort_seq(keyed_positions(keys))).len() ==> (#[trigger] runs(
                sort_seq(keyed_positions(keys)),
            )[m]).len() > 0,
        forall|m: int, i: int|
            #![trigger runs(sort_seq(keyed_positions(keys)))[m][i]]
            0 <= m < runs(sort_seq(keyed_positions(keys))).len() && 0 <= i < runs(
                sort_seq(keyed_positions(keys)),
            )[m].len() ==> runs(sort_seq(keyed_positions(keys)))[m][i] < keys.len() && keys[runs(
                sort_seq(keyed_positions(keys)),
            )[m][i] as int]@ == keys[runs(sort_seq(keyed_positions(keys)))[m][0] as int]@,
        forall|m: int, i: int, i2: int|
            #![trigger runs(sort_seq(keyed_positions(keys)))[m][i], runs(sort_seq(keyed_positions(keys)))[m][i2]]
            0 <= m < runs(sort_seq(keyed_positions(keys))).len() && 0 <= i < i2 < runs(
                sort_seq(keyed_positions(keys)),
            )[m].len() ==> runs(sort_seq(keyed_positions(keys)))[m][i] < runs(
                sort_seq(keyed_positions(keys)),
            )[m][i2],
        forall|m: int, m2: int|
            #![trigger runs(sort_seq(keyed_positions(keys)))[m], runs(sort_seq(keyed_positions(keys)))[m2]]
            0 <= m < m2 < runs(sort_seq(keyed_positions(keys))).len() ==> lex_le(
                keys[runs(sort_seq(keyed_positions(keys)))[m][0] as int]@,
                keys[runs(sort_seq(keyed_positions(keys)))[m2][0] as int]@,
            ) && keys[runs(sort_seq(keyed_positions(keys)))[m][0] as int]@ != keys[runs(
                sort_seq(keyed_positions(keys)),
            )[m2][0] as int]@,
        forall|p: int|
            0 <= p < keys.len() ==> #[trigger] in_a_group(runs(sort_seq(keyed_positions(keys))), p),
        forall|m: int, i: int, m2: int, i2: int|
            #![trigger runs(sort_seq(keyed_positions(keys)))[m][i], runs(sort_seq(keyed_positions(keys)))[m2][i2]]
            0 <= m < runs(sort_seq(keyed_positions(keys))).len() && 0 <= i < runs(
                sort_seq(keyed_positions(keys)),
            )[m].len() && 0 <= m2 < runs(sort_seq(keyed_positions(keys))).len() && 0 <= i2 < runs(
                sort_seq(keyed_positions(keys)),
            )[m2].len() && runs(sort_seq(keyed_positions(keys)))[m][i] == runs(
                sort_seq(keyed_positions(keys)),
            )[m2][i2] ==> m == m2 && i == i2,
{
    let s = sort_seq(keyed_positions(keys));
    lemma_sorted_keyed_members(keys);
    lemma_sorted_keyed_stable(keys);
    assert(keyed_and_sorted(keys, s)) by {
        assert forall|j: int| 0 <= j < s.len() implies (#[trigger] s[j]).1 < keys.len() && s[j].0@
            == keys[s[j].1 as int]@ by {
        }
    }
    lemma_runs_groups(keys, s);
    let g = runs(s);
    reveal(groups_keyed);
    reveal(groups_ascending);
    reveal(group_keys_ascending);
    reveal(groups_cover);
    assert forall|p: int| 0 <= p < keys.len() implies #[trigger] in_a_group(g, p) by {
        assert(s.contains(keyed_positions(keys)[p]));
        assert(keyed_positions(keys)[p] == (keys[p], p as usize));
        let j = choose|j: int| 0 <= j < s.len() && s[j] == keyed_positions(keys)[p];
        let (m, i) = choose|m: int, i: int|
            0 <= m < g.len() && 0 <= i < g[m].len() && #[trigger] g[m][i] == (#[trigger] s[j]).1;
        assert(s[j].1 == p);
        assert(g[m][i] == p);
    }
    assert forall|m: int, i: int, m2: int, i2: int|
        #![trigger g[m][i], g[m2][i2]]
        0 <= m < g.len() && 0 <= i < g[m].len() && 0 <= m2 < g.len() && 0 <= i2 < g[m2].len()
            && g[m][i] == g[m2][i2] implies m == m2 && i == i2 by {
        if m < m2 {
            assert(group_key(keys, g[m]) != group_key(keys, g[m2]));
        } else if m2 < m {
            assert(group_key(keys, g[m2]) != group_key(keys, g[m]));
        } else if i < i2 {
            assert(g[m][i] < g[m][i2]);
        } else if i2 < i {
            assert(g[m][i2] < g[m][i]);
        }
    }
}

/// What a metric sample holds: one number, or the buckets of a histogram.
#[derive(Clone, Copy, Debug, PartialEq, Eq, Structural)]
pub enum SampleKind {
    Numeric,
    Bucket,
}

/// Whether, when a metric of type `t` is merged, a sample of kind `k` is folded
/// into the kept sample of kind `base` with the same key: counters add numbers to
/// a number, histograms merge buckets into buckets.
pub open spec fn folds_into(t: MetricType, base: SampleKind, k: SampleKind) -> bool {
    match t {
        MetricType::Counter => base == SampleKind::Numeric && k == SampleKind::Numeric,
        MetricType::Histogram => base == SampleKind::Bucket && k == SampleKind::Bucket,
        _ => false,
    }
}

/// The positions in `g`, in order, of the samples folded into the sample at `base`.
pub open spec fn folded(t: MetricType, kinds: Seq<SampleKind>, base: usize, g: Seq<usize>) -> Seq<
    usize,
>
    decreases g.len(),
{
    if g.len() == 0 {
        Seq::empty()
    } else {
        let f = folded(t, kinds, base, g.drop_last());
        if folds_into(t, kinds[base as int], kinds[g.last() as int]) {
            f.push(g.last())
        } else {
            f
        }
    }
}

/// How a group of samples with equal keys becomes one sample: the position of the
/// sample that is kept, and the positions of those folded into it. Counters and
/// histograms keep the first sample and fold the later ones of its kind into it
/// (the others are dropped); any other metric keeps the last sample alone.
pub open spec fn group_plan(t: MetricType, kinds: Seq<SampleKind>, g: Seq<usize>) -> (
    usize,
    Seq<usize>,
) {
    if t == MetricType::Counter || t == MetricType::Histogram {
        (g[0], folded(t, kinds, g[0], g.drop_first()))
    } else {
        (g.last(), Seq::empty())
    }
}

/// The plan for merging the samples of a metric of type `t` whose keys and kinds
/// are given: one entry per group of equal keys, in key order.
pub open spec fn sample_merge_plan(t: MetricType, keys: Seq<String>, kinds: Seq<SampleKind>) -> Seq<
    (usize, Seq<usize>),
> {
    runs(sort_seq(keyed_positions(keys))).map_values(|g: Seq<usize>| group_plan(t, kinds, g))
}

proof fn lemma_runs_members(s: Seq<(String, usize)>, n: nat)
    requires
        forall|j: int| 0 <= j < s.len() ==> (#[trigger] s[j]).1 < n,
    ensures
        forall|i: int|
            0 <= i < runs(s).len() ==> (#[trigger] runs(s)[i]).len() > 0 && forall|k: int|
                0 <= k < runs(s)[i].len() ==> #[trigger] runs(s)[i][k] < n,
    decreases s.len(),
{
    if s.len() > 0 {
        let s0 = s.drop_last();
        assert forall|j: int| 0 <= j < s0.len() implies (#[trigger] s0[j]).1 < n by {
            assert(s0[j] == s[j]);
        }
        lemma_runs_members(s0, n);
        lemma_runs_nonempty(s0);
        let g = runs(s0);
        let x = s.last().1;
        assert(x < n);
        if s.len() > 1 && s[s.len() - 2].0@ == s.last().0@ {
            let last = g.last().push(x);
            assert forall|i: int| 0 <= i < runs(s).len() implies (#[trigger] runs(s)[i]).len() > 0
                && forall|k: int| 0 <= k < runs(s)[i].len() ==> #[trigger] runs(s)[i][k] < n by {
                if i == g.len() - 1 {
                    assert(runs(s)[i] == last);
                    assert forall|k: int| 0 <= k < last.len() implies #[trigger] last[k] < n by {
                        if k < last.len() - 1 {
                            assert(last[k] == g[g.len() - 1][k]);
                        }
                    }
                } else {
                    assert(runs(s)[i] == g[i]);
                }
            }
        } else {
            assert forall|i: int| 0 <= i < runs(s).len() implies (#[trigger] runs(s)[i]).len() > 0
                && forall|k: int| 0 <= k < runs(s)[i].len() ==> #[trigger] runs(s)[i][k] < n by {
                if i == g.len() {
                    assert(runs(s)[i] == seq![x]);
                } else {
                    assert(runs(s)[i] == g[i]);
                }
            }
        }
    }
}

/// The positions of the samples sorted by key all lie within the samples.
proof fn lemma_sorted_positions(keys: Seq<String>)
    requires
        keys.len() <= usize::MAX,
    ensures
        forall|j: int|
            0 <= j < sort_seq(keyed_positions(keys)).len() ==> (#[trigger] sort_seq(
                keyed_positions(keys),
            )[j]).1 < keys.len(),
{
    broadcast use vstd::seq_lib::group_to_multiset_ensures;

    let p = keyed_positions(keys);
    let s = sort_seq(p);
    lemma_sort(p);
    assert forall|j: int| 0 <= j < s.len() implies (#[trigger] s[j]).1 < keys.len() by {
        assert(s.contains(s[j]));
        assert(s.to_multiset().count(s[j]) > 0);
        assert(p.contains(s[j]));
        let i = choose|i: int| 0 <= i < p.len() && p[i] == s[j];
        assert(p[i].1 == i as usize);
    }
}

/// The positions in `g` of the samples that fold into the one at `base`.
fn folded_positions(t: MetricType, kinds: &Vec<SampleKind>, base: usize, g: &Vec<usize>) -> (r: Vec<
    usize,
>)
    requires
        base < kinds.len(),
        forall|k: int| 0 <= k < g.len() ==> #[trigger] g[k] < kinds.len(),
    ensures
        r@ == folded(t, kinds@, base, g@),
{
    let mut out: Vec<usize> = Vec::new();
    let mut i: usize = 0;
    while i < g.len()
        invariant
            i <= g.len(),
            base < kinds.len(),
            forall|k: int| 0 <= k < g.len() ==> #[trigger] g[k] < kinds.len(),
            out@ == folded(t, kinds@, base, g@.take(i as int)),
        decreases g.len() - i,
    {
        assert(g@.take(i + 1).drop_last() =~= g@.take(i as int));
        assert(g@.take(i + 1).last() == g[i as int]);
        let b = kinds[base];
        let k = kinds[g[i]];
        let fold = match t {
            MetricType::Counter => b == SampleKind::Numeric && k == SampleKind::Numeric,
            MetricType::Histogram => b == SampleKind::Bucket && k == SampleKind::Bucket,
            _ => false,
        };
        if fold {
            out.push(g[i]);
        }
        i = i + 1;
    }
    assert(g@.take(i as int) =~= g@);
    out
}

/// How the samples of a metric of type `metric_type` are merged, given the key
/// and the kind of each sample: the samples are sorted by key (stably), each group
/// of equal keys gives one entry, the position of the sample kept and the
/// positions of the samples folded into it, in order.
pub fn merge_plan(metric_type: MetricType, keys: &Vec<String>, kinds: &Vec<SampleKind>) -> (r: Vec<
    (usize, Vec<usize>),
>)
    requires
        keys.len() == kinds.len(),
    ensures
        r.deep_view() == sample_merge_plan(metric_type, keys@, kinds@),
{
    let groups = merge_groups(keys);
    let ghost gs = runs(sort_seq(keyed_positions(keys@)));
    proof {
        lemma_sorted_positions(keys@);
        lemma_runs_members(sort_seq(keyed_positions(keys@)), keys@.len());
        assert(groups.deep_view().len() == groups@.len());
    }
    let mut plan: Vec<(usize, Vec<usize>)> = Vec::new();
    let mut i: usize = 0;
    while i < groups.len()
        invariant
            i <= groups@.len(),
            keys@.len() == kinds@.len(),
            groups.deep_view() == gs,
            gs.len() == groups@.len(),
            forall|m: int|
                0 <= m < gs.len() ==> (#[trigger] gs[m]).len() > 0 && forall|k: int|
                    0 <= k < gs[m].len() ==> #[trigger] gs[m][k] < keys@.len(),
            plan.deep_view() == gs.take(i as int).map_values(
                |g: Seq<usize>| group_plan(metric_type, kinds@, g),
            ),
        decreases groups@.len() - i,
    {
        let g = &groups[i];
        assert(g@ == gs[i as int]) by {
            assert(groups.deep_view()[i as int] == groups@[i as int].deep_view());
            assert(groups@[i as int].deep_view() =~= groups@[i as int]@);
        }
        let ghost before = plan.deep_view();
        let entry = if metric_type == MetricType::Counter || metric_type == MetricType::Histogram {
            let base = g[0];
            let mut tail: Vec<usize> = Vec::new();
            let mut k: usize = 1;
            while k < g.len()
                invariant
                    1 <= k <= g@.len(),
                    tail@ == g@.subrange(1, k as int),
                decreases g@.len() - k,
            {
                tail.push(g[k]);
                assert(g@.subrange(1, k + 1) =~= g@.subrange(1, k as int).push(g@[k as int]));
                k = k + 1;
            }
            assert(tail@ =~= g@.drop_first());
            (base, folded_positions(metric_type, kinds, base, &tail))
        } else {
            let last = g[g.len() - 1];
            (last, Vec::new())
        };
        plan.push(entry);
        assert(plan.deep_view() =~= before.push(group_plan(metric_type, kinds@, gs[i as int]))) by {
            assert forall|m: int| 0 <= m < plan@.len() implies plan.deep_view()[m] == before.push(
                group_plan(metric_type, kinds@, gs[i as int]),
            )[m] by {
                if m < plan@.len() - 1 {
                    assert(plan@[m].deep_view() == before[m]);
                } else {
                    assert(plan@[m].1.deep_view() =~= plan@[m].1@);
                }
            }
        }
        assert(gs.take(i + 1).map_values(|g: Seq<usize>| group_plan(metric_type, kinds@, g))
            =~= gs.take(i as int).map_values(|g: Seq<usize>| group_plan(metric_type, kinds@, g)).push(
            group_plan(metric_type, kinds@, gs[i as int]),
        ));
        i = i + 1;
    }
    assert(gs.take(i as int) =~= gs);
    plan
}

/// The texts of a sequence of strings.
pub open spec fn texts(s: Seq<String>) -> Seq<Seq<char>> {
    s.map_values(|x: String| x@)
}

/// Names sorted with distinct names are strictly ascending.
proof fn lemma_sorted_unique_ascending(s: Seq<String>)
    requires
        is_sorted(s),
        unique_keys(s),
    ensures
        strictly_ascending(texts(s)),
        forall|e: Seq<char>| texts(s).contains(e) <==> has_key(s, e),
{
    let t = texts(s);
    assert forall|i: int, j: int| #![trigger t[i], t[j]] 0 <= i < j < t.len() implies lex_le(t[i], t[j])
        && t[i] != t[j] by {
        assert(s[i].precedes(&s[j]));
        assert(s[i].key() != s[j].key());
    }
    assert forall|e: Seq<char>| t.contains(e) <==> has_key(s, e) by {
        if t.contains(e) {
            let i = choose|i: int| 0 <= i < t.len() && t[i] == e;
            assert(s[i].key() == e);
        }
        if has_key(s, e) {
            let i = choose|i: int| 0 <= i < s.len() && #[trigger] s[i].key() == e;
            assert(t[i] == e);
        }
    }
}

/// The strategies of a merged registration are the names of both sides, each
/// once, sorted; they are the same names in the same order whichever side is
/// merged into which.
pub proof fn law_merged_strategies(a: ClientApplication, b: ClientApplication)
    ensures
        is_sorted(sort_seq(dedup(a.strategies@ + b.strategies@))),
        unique_keys(sort_seq(dedup(a.strategies@ + b.strategies@))),
        forall|n: Seq<char>|
            has_key(sort_seq(dedup(a.strategies@ + b.strategies@)), n) <==> (has_key(a.strategies@, n)
                || has_key(b.strategies@, n)),
        texts(sort_seq(dedup(a.strategies@ + b.strategies@))) == texts(
            sort_seq(dedup(b.strategies@ + a.strategies@)),
        ),
{
    let x = a.strategies@;
    let y = b.strategies@;
    let d1 = dedup(x + y);
    let d2 = dedup(y + x);
    law_merge_keeps_left(x, y);
    law_merge_keeps_left(y, x);
    lemma_sort_entries(d1);
    lemma_sort_entries(d2);
    lemma_sort(d1);
    lemma_sort(d2);
    lemma_sorted_unique_ascending(sort_seq(d1));
    lemma_sorted_unique_ascending(sort_seq(d2));
    assert forall|e: Seq<char>| texts(sort_seq(d1)).contains(e) <==> texts(sort_seq(d2)).contains(
        e,
    ) by {
        assert(texts(sort_seq(d1)).contains(e) <==> has_key(sort_seq(d1), e));
        assert(texts(sort_seq(d2)).contains(e) <==> has_key(sort_seq(d2), e));
        assert(has_key(sort_seq(d1), e) <==> has_key(d1, e));
        assert(has_key(sort_seq(d2), e) <==> has_key(d2, e));
    }
    lemma_ascending_determined(texts(sort_seq(d1)), texts(sort_seq(d2)));
}

impl Identified for (String, String) {
    type Key = Seq<char>;

    /// A label is identified by its name.
    open spec fn key(&self) -> Seq<char> {
        self.0@
    }

    fn same_key(&self, other: &Self) -> (r: bool) {
        self.0 == other.0
    }
}

proof fn lemma_joined_labels_congruent(a: Seq<(String, String)>, b: Seq<(String, String)>)
    requires
        a.len() == b.len(),
        forall|i: int| 0 <= i < a.len() ==> (#[trigger] a[i]).0@ == b[i].0@ && a[i].1@ == b[i].1@,
    ensures
        joined_labels(a) == joined_labels(b),
    decreases a.len(),
{
    if a.len() > 0 {
        assert forall|i: int| 0 <= i < a.len() - 1 implies (#[trigger] a.drop_last()[i]).0@ == b.drop_last()[
            i
        ].0@ && a.drop_last()[i].1@ == b.drop_last()[i].1@ by {
            assert(a.drop_last()[i] == a[i] && b.drop_last()[i] == b[i]);
        }
        lemma_joined_labels_congruent(a.drop_last(), b.drop_last());
        assert(a[a.len() - 1].0@ == b[b.len() - 1].0@);
    }
}

/// Labels with the same contents give the same key, in whatever order they were
/// inserted.
pub proof fn law_labels_key_by_content(a: Seq<(String, String)>, b: Seq<(String, String)>)
    requires
        unique_string_keys(a),
        unique_string_keys(b),
        entries_map(a) == entries_map(b),
    ensures
        joined_labels(sort_seq(a)) == joined_labels(sort_seq(b)),
{
    let sa = sort_seq(a);
    let sb = sort_seq(b);
    lemma_entries_map(a);
    lemma_entries_map(b);
    assert(unique_keys(a) && unique_keys(b));
    lemma_sort_entries(a);
    lemma_sort_entries(b);
    lemma_sort(a);
    lemma_sort(b);
    let ka = sa.map_values(|p: (String, String)| p.0@);
    let kb = sb.map_values(|p: (String, String)| p.0@);
    assert forall|i: int, j: int| #![trigger ka[i], ka[j]] 0 <= i < j < ka.len() implies lex_le(
        ka[i],
        ka[j],
    ) && ka[i] != ka[j] by {
        assert(sa[i].precedes(&sa[j]));
        assert(sa[i].key() != sa[j].key());
    }
    assert forall|i: int, j: int| #![trigger kb[i], kb[j]] 0 <= i < j < kb.len() implies lex_le(
        kb[i],
        kb[j],
    ) && kb[i] != kb[j] by {
        assert(sb[i].precedes(&sb[j]));
        assert(sb[i].key() != sb[j].key());
    }
    assert forall|e: Seq<char>| ka.contains(e) <==> kb.contains(e) by {
        if ka.contains(e) {
            let i = choose|i: int| 0 <= i < ka.len() && ka[i] == e;
            assert(has_key(sa, sa[i].key()));
            assert(has_key(a, e));
            let j = choose|j: int| 0 <= j < a.len() && #[trigger] a[j].key() == e;
            assert(entries_map(a).contains_key(a[j].0@));
            assert(entries_map(b).contains_key(e));
            let m = choose|m: int| 0 <= m < b.len() && #[trigger] b[m].0@ == e;
            assert(has_key(b, b[m].key()));
            assert(has_key(sb, e));
            let n = choose|n: int| 0 <= n < sb.len() && #[trigger] sb[n].key() == e;
            assert(kb[n] == e);
        }
        if kb.contains(e) {
            let i = choose|i: int| 0 <= i < kb.len() && kb[i] == e;
            assert(has_key(sb, sb[i].key()));
            assert(has_key(b, e));
            let j = choose|j: int| 0 <= j < b.len() && #[trigger] b[j].key() == e;
            assert(entries_map(b).contains_key(b[j].0@));
            assert(entries_map(a).contains_key(e));
            let m = choose|m: int| 0 <= m < a.len() && #[trigger] a[m].0@ == e;
            assert(has_key(a, a[m].key()));
            assert(has_key(sa, e));
            let n = choose|n: int| 0 <= n < sa.len() && #[trigger] sa[n].key() == e;
            assert(ka[n] == e);
        }
    }
    lemma_ascending_determined(ka, kb);
    assert forall|i: int| 0 <= i < sa.len() implies (#[trigger] sa[i]).0@ == sb[i].0@ && sa[i].1@
        == sb[i].1@ by {
        assert(ka[i] == kb[i]);
        assert(sa.contains(sa[i]));
        assert(a.contains(sa[i]));
        let j = choose|j: int| 0 <= j < a.len() && a[j] == sa[i];
        assert(entries_map(a).contains_key(a[j].0@));
        assert(sb.contains(sb[i]));
        assert(b.contains(sb[i]));
        let m = choose|m: int| 0 <= m < b.len() && b[m] == sb[i];
        assert(entries_map(b).contains_key(b[m].0@));
    }
    lemma_joined_labels_congruent(sa, sb);
}

} // verus!
