//! Feature toggle configuration as served by an Unleash server's
//! `/api/client/features` endpoint, and the rules for combining and updating it.
use vstd::prelude::*;
use vstd::std_specs::cmp::PartialEqSpecImpl;

use crate::deep_clone::{deep_seq, opt_deep_seq, DeepClone};
use crate::entries::{
    dedup, drop_key, first_of_its_key, has_key, key_index, law_drop_key, law_put_entry,
    lemma_deep_seq_keys, lemma_drop_key_deep, lemma_drop_key_same_groups, lemma_put_entry_deep,
    lemma_put_entry_same_groups, of_key, put_entry, put_entry_vec, same_groups, unique_keys,
    DeepKeyed, Identified,
};
use crate::ordering::{is_sorted, lemma_sort, lex_le, sort_seq, sort_vec, str_eq, str_le, Ordered};
use crate::{
    law_merge_keeps_left, law_upsert_prefers_new, lemma_sort_entries, lemma_sort_keeps_groups,
    lemma_sort_same_groups, KeyOrdered,
};
use crate::string_map::{entries_map, text_map, StringMap};
use crate::time::Timestamp;
use crate::{Deduplicate, Merge, Upsert};

verus! {

/// The query that selected a set of features.
#[derive(Clone, Debug, PartialEq, Eq, Hash)]
pub struct Query {
    pub tags: Option<Vec<Vec<String>>>,
    pub projects: Option<Vec<String>>,
    pub name_prefix: Option<String>,
    pub environment: Option<String>,
    pub inline_segment_constraints: Option<bool>,
}

/// The operator of a constraint. A name that no operator has is kept in `Unknown`.
#[derive(Clone, Debug, PartialEq, Eq, PartialOrd, Ord, Hash)]
pub enum Operator {
    NotIn,
    In,
    StrEndsWith,
    StrStartsWith,
    StrContains,
    NumEq,
    NumGt,
    NumGte,
    NumLt,
    NumLte,
    DateAfter,
    DateBefore,
    SemverEq,
    SemverLt,
    SemverGt,
    Unknown(String),
}

/// The operator that has wire name `s` (as `"STR_ENDS_WITH"` for `StrEndsWith`),
/// if any.
pub open spec fn operator_named(s: Seq<char>) -> Option<Operator> {
    if s == "NOT_IN"@ {
        Some(Operator::NotIn)
    } else if s == "IN"@ {
        Some(Operator::In)
    } else if s == "STR_ENDS_WITH"@ {
        Some(Operator::StrEndsWith)
    } else if s == "STR_STARTS_WITH"@ {
        Some(Operator::StrStartsWith)
    } else if s == "STR_CONTAINS"@ {
        Some(Operator::StrContains)
    } else if s == "NUM_EQ"@ {
        Some(Operator::NumEq)
    } else if s == "NUM_GT"@ {
        Some(Operator::NumGt)
    } else if s == "NUM_GTE"@ {
        Some(Operator::NumGte)
    } else if s == "NUM_LT"@ {
        Some(Operator::NumLt)
    } else if s == "NUM_LTE"@ {
        Some(Operator::NumLte)
    } else if s == "DATE_AFTER"@ {
        Some(Operator::DateAfter)
    } else if s == "DATE_BEFORE"@ {
        Some(Operator::DateBefore)
    } else if s == "SEMVER_EQ"@ {
        Some(Operator::SemverEq)
    } else if s == "SEMVER_LT"@ {
        Some(Operator::SemverLt)
    } else if s == "SEMVER_GT"@ {
        Some(Operator::SemverGt)
    } else {
        None
    }
}

impl Operator {
    /// The operator with wire name `name`, or `Unknown(name)` when no operator
    /// has that name.
    pub fn from_name(name: String) -> (r: Operator)
        ensures
            r == (match operator_named(name@) {
                Some(op) => op,
                None => Operator::Unknown(name),
            }),
    {
        let s = name.as_str();
        if str_eq(s, "NOT_IN") {
            Operator::NotIn
        } else if str_eq(s, "IN") {
            Operator::In
        } else if str_eq(s, "STR_ENDS_WITH") {
            Operator::StrEndsWith
        } else if str_eq(s, "STR_STARTS_WITH") {
            Operator::StrStartsWith
        } else if str_eq(s, "STR_CONTAINS") {
            Operator::StrContains
        } else if str_eq(s, "NUM_EQ") {
            Operator::NumEq
        } else if str_eq(s, "NUM_GT") {
            Operator::NumGt
        } else if str_eq(s, "NUM_GTE") {
            Operator::NumGte
        } else if str_eq(s, "NUM_LT") {
            Operator::NumLt
        } else if str_eq(s, "NUM_LTE") {
            Operator::NumLte
        } else if str_eq(s, "DATE_AFTER") {
            Operator::DateAfter
        } else if str_eq(s, "DATE_BEFORE") {
            Operator::DateBefore
        } else if str_eq(s, "SEMVER_EQ") {
            Operator::SemverEq
        } else if str_eq(s, "SEMVER_LT") {
            Operator::SemverLt
        } else if str_eq(s, "SEMVER_GT") {
            Operator::SemverGt
        } else {
            Operator::Unknown(name)
        }
    }
}

impl DeepView for Operator {
    type V = Operator;

    open spec fn deep_view(&self) -> Operator {
        *self
    }
}

impl DeepClone for Operator {
    fn deep_clone(&self) -> (r: Self) {
        match self {
            Operator::NotIn => Operator::NotIn,
            Operator::In => Operator::In,
            Operator::StrEndsWith => Operator::StrEndsWith,
            Operator::StrStartsWith => Operator::StrStartsWith,
            Operator::StrContains => Operator::StrContains,
            Operator::NumEq => Operator::NumEq,
            Operator::NumGt => Operator::NumGt,
            Operator::NumGte => Operator::NumGte,
            Operator::NumLt => Operator::NumLt,
            Operator::NumLte => Operator::NumLte,
            Operator::DateAfter => Operator::DateAfter,
            Operator::DateBefore => Operator::DateBefore,
            Operator::SemverEq => Operator::SemverEq,
            Operator::SemverLt => Operator::SemverLt,
            Operator::SemverGt => Operator::SemverGt,
            Operator::Unknown(s) => Operator::Unknown(s.clone()),
        }
    }
}

/// The context in which toggles are evaluated.
#[derive(Clone, Debug)]
pub struct Context {
    pub user_id: Option<String>,
    pub session_id: Option<String>,
    pub environment: Option<String>,
    pub app_name: Option<String>,
    pub current_time: Option<String>,
    pub remote_address: Option<String>,
    pub properties: Option<StringMap<String>>,
}

impl Default for Context {
    fn default() -> (r: Self)
        ensures
            r.user_id is None,
            r.session_id is None,
            r.environment is None,
            r.app_name is None,
            r.current_time is None,
            r.remote_address is None,
            (r.properties matches Some(p) && p@ == Map::<Seq<char>, String>::empty()),
    {
        Context {
            user_id: None,
            session_id: None,
            environment: None,
            current_time: None,
            app_name: None,
            remote_address: None,
            properties: Some(StringMap::new()),
        }
    }
}

/// A JSON value as it may arrive for a context field or property.
#[derive(Clone, Debug, PartialEq, Eq)]
pub enum PropertyValue {
    Null,
    Text(String),
    /// A number, written as JSON writes it.
    Number(String),
    Bool(bool),
    /// An array or an object.
    Nested,
}

/// The text that a context value stands for: non-empty text as it is, a number
/// as written, a boolean as `true` or `false`; none for anything else.
pub open spec fn stringified(v: PropertyValue) -> Option<Seq<char>> {
    match v {
        PropertyValue::Text(s) => if s@.len() == 0 {
            None
        } else {
            Some(s@)
        },
        PropertyValue::Number(n) => Some(n@),
        PropertyValue::Bool(b) => Some(
            if b {
                "true"@
            } else {
                "false"@
            },
        ),
        _ => None,
    }
}

/// The properties that a list of raw properties leaves: each key whose last value
/// stands for a text, with that text (a later entry of a key replaces an earlier
/// one, as in a map).
pub open spec fn stringified_properties(props: Seq<(String, PropertyValue)>) -> Map<
    Seq<char>,
    Seq<char>,
>
    decreases props.len(),
{
    if props.len() == 0 {
        Map::empty()
    } else {
        let m = stringified_properties(props.drop_last());
        match stringified(props.last().1) {
            Some(t) => m.insert(props.last().0@, t),
            None => m.remove(props.last().0@),
        }
    }
}

/// Turns a context value into text: numbers and booleans are written out, empty
/// text, null, arrays and objects are dropped.
pub fn stringify_value(v: PropertyValue) -> (r: Option<String>)
    ensures
        match r {
            Some(s) => stringified(v) == Some(s@),
            None => stringified(v) is None,
        },
{
    match v {
        PropertyValue::Text(s) => {
            if s.as_str().is_empty() {
                None
            } else {
                Some(s)
            }
        },
        PropertyValue::Number(n) => Some(n),
        PropertyValue::Bool(b) => {
            if b {
                Some(String::from_str("true"))
            } else {
                Some(String::from_str("false"))
            }
        },
        _ => None,
    }
}

/// The properties of a context: each property whose value stands for a text,
/// with that text (see `stringify_value`); nulls and other values are dropped.
pub fn stringify_properties(props: Vec<(String, PropertyValue)>) -> (r: StringMap<String>)
    ensures
        r@.dom() == stringified_properties(props@).dom(),
        forall|k: Seq<char>| #[trigger]
            r@.contains_key(k) ==> r@[k]@ == stringified_properties(props@)[k],
{
    let ghost orig = props@;
    let mut rest = props;
    let mut out: StringMap<String> = StringMap::new();
    let ghost mut i: int = 0;
    assert(orig.take(0) =~= Seq::<(String, PropertyValue)>::empty());
    assert(orig.skip(0) =~= orig);
    assert(out@.dom() =~= stringified_properties(orig.take(0)).dom());
    while rest.len() > 0
        invariant
            0 <= i <= orig.len(),
            rest@ == orig.skip(i),
            out@.dom() == stringified_properties(orig.take(i)).dom(),
            forall|k: Seq<char>| #[trigger]
                out@.contains_key(k) ==> out@[k]@ == stringified_properties(orig.take(i))[k],
        decreases rest.len(),
    {
        let (k, v) = rest.remove(0);
        assert(orig.take(i + 1).drop_last() =~= orig.take(i));
        assert(orig.take(i + 1).last() == (k, v));
        let ghost kv = k@;
        match stringify_value(v) {
            Some(s) => {
                out.insert(k, s);
                assert(out@.dom() =~= stringified_properties(orig.take(i + 1)).dom());
                assert forall|key: Seq<char>| #[trigger] out@.contains_key(key) implies out@[key]@
                    == stringified_properties(orig.take(i + 1))[key] by {
                    if key != kv {
                    }
                }
            },
            None => {
                out.remove(k.as_str());
                assert(out@.dom() =~= stringified_properties(orig.take(i + 1)).dom());
            },
        }
        assert(orig.skip(i).remove(0) =~= orig.skip(i + 1));
        proof {
            i = i + 1;
        }
    }
    assert(orig.take(i) =~= orig);
    out
}

/// A condition on one field of the context.
#[derive(Clone, Debug, PartialEq, Eq, PartialOrd, Ord)]
pub struct Constraint {
    pub context_name: String,
    pub operator: Operator,
    pub case_insensitive: bool,
    pub inverted: bool,
    pub values: Option<Vec<String>>,
    pub value: Option<String>,
}

impl DeepView for Constraint {
    type V = (Seq<char>, Operator, bool, bool, Option<Seq<Seq<char>>>, Option<Seq<char>>);

    open spec fn deep_view(&self) -> Self::V {
        (
            self.context_name@,
            self.operator,
            self.case_insensitive,
            self.inverted,
            self.values.deep_view(),
            self.value.deep_view(),
        )
    }
}

impl DeepClone for Constraint {
    fn deep_clone(&self) -> (r: Self) {
        Constraint {
            context_name: self.context_name.deep_clone(),
            operator: self.operator.deep_clone(),
            case_insensitive: self.case_insensitive,
            inverted: self.inverted,
            values: self.values.deep_clone(),
            value: self.value.deep_clone(),
        }
    }
}

/// How the weight of a variant was chosen.
#[derive(Clone, Copy, Debug, PartialEq, Eq, Structural)]
pub enum WeightType {
    Fix,
    Variable,
}

impl DeepView for WeightType {
    type V = WeightType;

    open spec fn deep_view(&self) -> WeightType {
        *self
    }
}

impl DeepClone for WeightType {
    fn deep_clone(&self) -> (r: Self) {
        *self
    }
}

/// An activation strategy of a feature.
#[derive(Clone, Debug)]
pub struct Strategy {
    pub name: String,
    pub sort_order: Option<i32>,
    pub segments: Option<Vec<i32>>,
    pub constraints: Option<Vec<Constraint>>,
    pub parameters: Option<StringMap<String>>,
    pub variants: Option<Vec<StrategyVariant>>,
}

impl DeepView for Strategy {
    type V = (
        Seq<char>,
        Option<i32>,
        Option<Seq<i32>>,
        Option<Seq<<Constraint as DeepView>::V>>,
        Option<Seq<(Seq<char>, Seq<char>)>>,
        Option<Seq<StrategyVariant>>,
    );

    open spec fn deep_view(&self) -> Self::V {
        (
            self.name@,
            self.sort_order,
            self.segments.deep_view(),
            self.constraints.deep_view(),
            self.parameters.deep_view(),
            self.variants.deep_view(),
        )
    }
}

impl DeepClone for Strategy {
    fn deep_clone(&self) -> (r: Self) {
        Strategy {
            name: self.name.deep_clone(),
            sort_order: self.sort_order,
            segments: self.segments.deep_clone(),
            constraints: self.constraints.deep_clone(),
            parameters: self.parameters.deep_clone(),
            variants: self.variants.deep_clone(),
        }
    }
}

/// Whether two operators are the same: the same variant, and for `Unknown` the
/// same name.
pub open spec fn same_operator(a: Operator, b: Operator) -> bool {
    match (a, b) {
        (Operator::Unknown(x), Operator::Unknown(y)) => x@ == y@,
        _ => a == b,
    }
}

/// Whether two constraints agree in every field.
pub open spec fn same_constraint(a: Constraint, b: Constraint) -> bool {
    &&& a.context_name@ == b.context_name@
    &&& same_operator(a.operator, b.operator)
    &&& a.case_insensitive == b.case_insensitive
    &&& a.inverted == b.inverted
    &&& a.values.deep_view() == b.values.deep_view()
    &&& a.value.deep_view() == b.value.deep_view()
}

/// Whether two optional lists of constraints are both absent, or agree element
/// by element.
pub open spec fn same_constraints(a: Option<Vec<Constraint>>, b: Option<Vec<Constraint>>) -> bool {
    match (a, b) {
        (None, None) => true,
        (Some(x), Some(y)) => x.len() == y.len() && forall|i: int|
            0 <= i < x.len() ==> same_constraint(#[trigger] x@[i], y@[i]),
        _ => false,
    }
}

/// Whether two optional parameter maps are both absent, or hold the same texts.
pub open spec fn same_parameters(a: Option<StringMap<String>>, b: Option<StringMap<String>>) -> bool {
    match (a, b) {
        (None, None) => true,
        (Some(x), Some(y)) => text_map(x@) == text_map(y@),
        _ => false,
    }
}

/// When two strategies are equal: same name, sort order, segments, constraints
/// and parameters. The variants are not compared.
pub open spec fn same_strategy(a: Strategy, b: Strategy) -> bool {
    &&& a.name@ == b.name@
    &&& a.sort_order == b.sort_order
    &&& a.segments.deep_view() == b.segments.deep_view()
    &&& same_constraints(a.constraints, b.constraints)
    &&& same_parameters(a.parameters, b.parameters)
}

fn operator_eq(a: &Operator, b: &Operator) -> (r: bool)
    ensures
        r == same_operator(*a, *b),
{
    match (a, b) {
        (Operator::Unknown(x), Operator::Unknown(y)) => str_eq(x.as_str(), y.as_str()),
        (Operator::NotIn, Operator::NotIn) => true,
        (Operator::In, Operator::In) => true,
        (Operator::StrEndsWith, Operator::StrEndsWith) => true,
        (Operator::StrStartsWith, Operator::StrStartsWith) => true,
        (Operator::StrContains, Operator::StrContains) => true,
        (Operator::NumEq, Operator::NumEq) => true,
        (Operator::NumGt, Operator::NumGt) => true,
        (Operator::NumGte, Operator::NumGte) => true,
        (Operator::NumLt, Operator::NumLt) => true,
        (Operator::NumLte, Operator::NumLte) => true,
        (Operator::DateAfter, Operator::DateAfter) => true,
        (Operator::DateBefore, Operator::DateBefore) => true,
        (Operator::SemverEq, Operator::SemverEq) => true,
        (Operator::SemverLt, Operator::SemverLt) => true,
        (Operator::SemverGt, Operator::SemverGt) => true,
        _ => false,
    }
}

fn opt_text_eq(a: &Option<String>, b: &Option<String>) -> (r: bool)
    ensures
        r == (a.deep_view() == b.deep_view()),
{
    match (a, b) {
        (None, None) => true,
        (Some(x), Some(y)) => str_eq(x.as_str(), y.as_str()),
        _ => false,
    }
}

fn opt_texts_eq(a: &Option<Vec<String>>, b: &Option<Vec<String>>) -> (r: bool)
    ensures
        r == (a.deep_view() == b.deep_view()),
{
    match (a, b) {
        (None, None) => true,
        (Some(x), Some(y)) => {
            if x.len() != y.len() {
                assert(x.deep_view().len() != y.deep_view().len());
                return false;
            }
            let mut i: usize = 0;
            while i < x.len()
                invariant
                    i <= x@.len(),
                    x@.len() == y@.len(),
                    *a == Some(*x),
                    *b == Some(*y),
                    forall|j: int| 0 <= j < i ==> (#[trigger] x@[j])@ == y@[j]@,
                decreases x@.len() - i,
            {
                if !str_eq(x[i].as_str(), y[i].as_str()) {
                    assert(x.deep_view()[i as int] != y.deep_view()[i as int]);
                    return false;
                }
                i = i + 1;
            }
            assert(x.deep_view() =~= y.deep_view());
            true
        },
        _ => false,
    }
}

fn constraint_eq(a: &Constraint, b: &Constraint) -> (r: bool)
    ensures
        r == same_constraint(*a, *b),
{
    str_eq(a.context_name.as_str(), b.context_name.as_str()) && operator_eq(
        &a.operator,
        &b.operator,
    ) && a.case_insensitive == b.case_insensitive && a.inverted == b.inverted && opt_texts_eq(
        &a.values,
        &b.values,
    ) && opt_text_eq(&a.value, &b.value)
}

fn constraints_eq(a: &Option<Vec<Constraint>>, b: &Option<Vec<Constraint>>) -> (r: bool)
    ensures
        r == same_constraints(*a, *b),
{
    match (a, b) {
        (None, None) => true,
        (Some(x), Some(y)) => {
            if x.len() != y.len() {
                return false;
            }
            let mut i: usize = 0;
            while i < x.len()
                invariant
                    i <= x@.len(),
                    x@.len() == y@.len(),
                    *a == Some(*x),
                    *b == Some(*y),
                    forall|j: int| 0 <= j < i ==> same_constraint(#[trigger] x@[j], y@[j]),
                decreases x@.len() - i,
            {
                if !constraint_eq(&x[i], &y[i]) {
                    return false;
                }
                i = i + 1;
            }
            true
        },
        _ => false,
    }
}

fn segments_eq(a: &Option<Vec<i32>>, b: &Option<Vec<i32>>) -> (r: bool)
    ensures
        r == (a.deep_view() == b.deep_view()),
{
    match (a, b) {
        (None, None) => true,
        (Some(x), Some(y)) => {
            if x.len() != y.len() {
                assert(x.deep_view().len() != y.deep_view().len());
                return false;
            }
            let mut i: usize = 0;
            while i < x.len()
                invariant
                    i <= x@.len(),
                    x@.len() == y@.len(),
                    *a == Some(*x),
                    *b == Some(*y),
                    forall|j: int| 0 <= j < i ==> x@[j] == y@[j],
                decreases x@.len() - i,
            {
                if x[i] != y[i] {
                    assert(x.deep_view()[i as int] != y.deep_view()[i as int]);
                    return false;
                }
                i = i + 1;
            }
            assert(x.deep_view() =~= y.deep_view());
            true
        },
        _ => false,
    }
}

impl PartialEq for Strategy {
    fn eq(&self, other: &Self) -> (r: bool) {
        let same_order = match (self.sort_order, other.sort_order) {
            (None, None) => true,
            (Some(x), Some(y)) => x == y,
            _ => false,
        };
        let same_parameters = match (&self.parameters, &other.parameters) {
            (None, None) => true,
            (Some(x), Some(y)) => x.same_texts(y),
            _ => false,
        };
        str_eq(self.name.as_str(), other.name.as_str()) && same_order && segments_eq(
            &self.segments,
            &other.segments,
        ) && constraints_eq(&self.constraints, &other.constraints) && same_parameters
    }
}

impl PartialEqSpecImpl for Strategy {
    open spec fn obeys_eq_spec() -> bool {
        true
    }

    open spec fn eq_spec(&self, other: &Strategy) -> bool {
        same_strategy(*self, *other)
    }
}

impl Eq for Strategy {

}

/// Whether sort order `a` comes no later than `b`: an absent order comes first,
/// then the orders by value.
pub open spec fn sort_order_le(a: Option<i32>, b: Option<i32>) -> bool {
    match (a, b) {
        (None, _) => true,
        (Some(_), None) => false,
        (Some(x), Some(y)) => x <= y,
    }
}

impl Ordered for Strategy {
    /// Strategies are ordered by sort order, then by name.
    open spec fn precedes(&self, other: &Self) -> bool {
        if self.sort_order == other.sort_order {
            lex_le(self.name@, other.name@)
        } else {
            sort_order_le(self.sort_order, other.sort_order)
        }
    }

    proof fn lemma_total(a: &Self, b: &Self) {
        crate::ordering::lemma_lex_total(a.name@, b.name@);
    }

    proof fn lemma_trans(a: &Self, b: &Self, c: &Self) {
        if a.sort_order == b.sort_order && b.sort_order == c.sort_order {
            crate::ordering::lemma_lex_trans(a.name@, b.name@, c.name@);
        }
    }

    proof fn lemma_precedes_deep(a: &Self, b: &Self, c: &Self, d: &Self) {
    }

    fn check_precedes(&self, other: &Self) -> (r: bool) {
        match (self.sort_order, other.sort_order) {
            (None, None) => str_le(self.name.as_str(), other.name.as_str()),
            (None, Some(_)) => true,
            (Some(_), None) => false,
            (Some(x), Some(y)) => if x == y {
                str_le(self.name.as_str(), other.name.as_str())
            } else {
                x < y
            },
        }
    }
}

/// A variant forced for the contexts whose field has one of the values.
#[derive(Clone, Debug, PartialEq, Eq)]
pub struct Override {
    pub context_name: String,
    pub values: Vec<String>,
}

impl DeepView for Override {
    type V = (Seq<char>, Seq<Seq<char>>);

    open spec fn deep_view(&self) -> Self::V {
        (self.context_name@, self.values.deep_view())
    }
}

impl DeepClone for Override {
    fn deep_clone(&self) -> (r: Self) {
        Override { context_name: self.context_name.deep_clone(), values: self.values.deep_clone() }
    }
}

/// The payload of a variant.
#[derive(Clone, Debug, PartialEq, Eq)]
pub struct Payload {
    pub payload_type: String,
    pub value: String,
}

impl DeepView for Payload {
    type V = Payload;

    open spec fn deep_view(&self) -> Payload {
        *self
    }
}

impl DeepClone for Payload {
    fn deep_clone(&self) -> (r: Self) {
        Payload { payload_type: self.payload_type.clone(), value: self.value.clone() }
    }
}

/// A variant of a feature.
#[derive(Clone, Debug, PartialEq, Eq)]
pub struct Variant {
    pub name: String,
    pub weight: i32,
    pub weight_type: Option<WeightType>,
    pub stickiness: Option<String>,
    pub payload: Option<Payload>,
    pub overrides: Option<Vec<Override>>,
}

impl DeepView for Variant {
    type V = (
        Seq<char>,
        i32,
        Option<WeightType>,
        Option<Seq<char>>,
        Option<Payload>,
        Option<Seq<(Seq<char>, Seq<Seq<char>>)>>,
    );

    open spec fn deep_view(&self) -> Self::V {
        (
            self.name@,
            self.weight,
            self.weight_type,
            self.stickiness.deep_view(),
            self.payload,
            self.overrides.deep_view(),
        )
    }
}

impl DeepClone for Variant {
    fn deep_clone(&self) -> (r: Self) {
        Variant {
            name: self.name.deep_clone(),
            weight: self.weight,
            weight_type: self.weight_type,
            stickiness: self.stickiness.deep_clone(),
            payload: self.payload.deep_clone(),
            overrides: self.overrides.deep_clone(),
        }
    }
}

/// A variant of a strategy.
#[derive(Clone, Debug, PartialEq, Eq)]
pub struct StrategyVariant {
    pub name: String,
    pub weight: i32,
    pub payload: Option<Payload>,
    pub stickiness: Option<String>,
}

impl DeepView for StrategyVariant {
    type V = StrategyVariant;

    open spec fn deep_view(&self) -> StrategyVariant {
        *self
    }
}

impl DeepClone for StrategyVariant {
    fn deep_clone(&self) -> (r: Self) {
        let payload = match &self.payload {
            Some(p) => Some(p.deep_clone()),
            None => None,
        };
        let stickiness = match &self.stickiness {
            Some(s) => Some(s.clone()),
            None => None,
        };
        StrategyVariant { name: self.name.clone(), weight: self.weight, payload, stickiness }
    }
}

/// A named, reusable list of constraints. Segments are identified by their id.
#[derive(Clone, Debug)]
pub struct Segment {
    pub id: i32,
    pub constraints: Vec<Constraint>,
}

impl PartialEq for Segment {
    fn eq(&self, other: &Self) -> (r: bool) {
        self.id == other.id
    }
}

impl PartialEqSpecImpl for Segment {
    open spec fn obeys_eq_spec() -> bool {
        true
    }

    open spec fn eq_spec(&self, other: &Self) -> bool {
        self.id == other.id
    }
}

impl Eq for Segment {
}

impl DeepView for Segment {
    type V = (i32, Seq<<Constraint as DeepView>::V>);

    open spec fn deep_view(&self) -> Self::V {
        (self.id, self.constraints.deep_view())
    }
}

impl DeepClone for Segment {
    fn deep_clone(&self) -> (r: Self) {
        Segment { id: self.id, constraints: self.constraints.deep_clone() }
    }
}

impl Identified for Segment {
    type Key = i32;

    open spec fn key(&self) -> i32 {
        self.id
    }

    fn same_key(&self, other: &Self) -> (r: bool) {
        self.id == other.id
    }
}

impl DeepKeyed for Segment {
    proof fn lemma_key_of_deep_view(a: &Self, b: &Self) {
    }
}

impl Ordered for Segment {
    open spec fn precedes(&self, other: &Self) -> bool {
        self.id <= other.id
    }

    proof fn lemma_total(a: &Self, b: &Self) {
    }

    proof fn lemma_trans(a: &Self, b: &Self, c: &Self) {
    }

    proof fn lemma_precedes_deep(a: &Self, b: &Self, c: &Self, d: &Self) {
    }

    fn check_precedes(&self, other: &Self) -> (r: bool) {
        self.id <= other.id
    }
}

/// A feature that this feature depends on.
#[derive(Clone, Debug, PartialEq, Eq)]
pub struct FeatureDependency {
    pub feature: String,
    pub enabled: Option<bool>,
    pub variants: Option<Vec<String>>,
}

impl DeepView for FeatureDependency {
    type V = (Seq<char>, Option<bool>, Option<Seq<Seq<char>>>);

    open spec fn deep_view(&self) -> Self::V {
        (self.feature@, self.enabled, self.variants.deep_view())
    }
}

impl DeepClone for FeatureDependency {
    fn deep_clone(&self) -> (r: Self) {
        FeatureDependency {
            feature: self.feature.deep_clone(),
            enabled: self.enabled,
            variants: self.variants.deep_clone(),
        }
    }
}

/// A feature toggle and its configuration. Features are identified by their name.
#[derive(Clone, Debug)]
pub struct ClientFeature {
    pub name: String,
    pub feature_type: Option<String>,
    pub description: Option<String>,
    pub created_at: Option<Timestamp>,
    pub last_seen_at: Option<Timestamp>,
    pub enabled: bool,
    pub stale: Option<bool>,
    pub impression_data: Option<bool>,
    pub project: Option<String>,
    pub strategies: Option<Vec<Strategy>>,
    pub variants: Option<Vec<Variant>>,
    pub dependencies: Option<Vec<FeatureDependency>>,
}

impl Default for ClientFeature {
    fn default() -> (r: Self)
        ensures
            r.name@ == Seq::<char>::empty(),
            r.feature_type is None,
            r.description is None,
            r.created_at is None,
            r.last_seen_at is None,
            !r.enabled,
            r.stale is None,
            r.impression_data is None,
            r.project is None,
            r.strategies is None,
            r.variants is None,
            r.dependencies is None,
    {
        ClientFeature {
            name: String::new(),
            feature_type: None,
            description: None,
            created_at: None,
            last_seen_at: None,
            enabled: false,
            stale: None,
            impression_data: None,
            project: None,
            strategies: None,
            variants: None,
            dependencies: None,
        }
    }
}

impl PartialEq for ClientFeature {
    fn eq(&self, other: &Self) -> (r: bool) {
        self.name == other.name
    }
}

impl PartialEqSpecImpl for ClientFeature {
    open spec fn obeys_eq_spec() -> bool {
        true
    }

    open spec fn eq_spec(&self, other: &Self) -> bool {
        self.name@ == other.name@
    }
}

impl Eq for ClientFeature {
}

impl DeepView for ClientFeature {
    type V = (
        (
            Seq<char>,
            Option<Seq<char>>,
            Option<Seq<char>>,
            Option<Timestamp>,
            Option<Timestamp>,
            bool,
        ),
        (
            Option<bool>,
            Option<bool>,
            Option<Seq<char>>,
            Option<Seq<<Strategy as DeepView>::V>>,
            Option<Seq<<Variant as DeepView>::V>>,
            Option<Seq<<FeatureDependency as DeepView>::V>>,
        ),
    );

    open spec fn deep_view(&self) -> Self::V {
        (
            (
                self.name@,
                self.feature_type.deep_view(),
                self.description.deep_view(),
                self.created_at,
                self.last_seen_at,
                self.enabled,
            ),
            (
                self.stale,
                self.impression_data,
                self.project.deep_view(),
                self.strategies.deep_view(),
                self.variants.deep_view(),
                self.dependencies.deep_view(),
            ),
        )
    }
}

impl DeepClone for ClientFeature {
    fn deep_clone(&self) -> (r: Self) {
        ClientFeature {
            name: self.name.deep_clone(),
            feature_type: self.feature_type.deep_clone(),
            description: self.description.deep_clone(),
            created_at: self.created_at,
            last_seen_at: self.last_seen_at,
            enabled: self.enabled,
            stale: self.stale,
            impression_data: self.impression_data,
            project: self.project.deep_clone(),
            strategies: self.strategies.deep_clone(),
            variants: self.variants.deep_clone(),
            dependencies: self.dependencies.deep_clone(),
        }
    }
}

impl Identified for ClientFeature {
    type Key = Seq<char>;

    open spec fn key(&self) -> Seq<char> {
        self.name@
    }

    fn same_key(&self, other: &Self) -> (r: bool) {
        self.name == other.name
    }
}

impl DeepKeyed for ClientFeature {
    proof fn lemma_key_of_deep_view(a: &Self, b: &Self) {
    }
}

impl Ordered for ClientFeature {
    /// Features are ordered by name.
    open spec fn precedes(&self, other: &Self) -> bool {
        lex_le(self.name@, other.name@)
    }

    proof fn lemma_total(a: &Self, b: &Self) {
        crate::ordering::lemma_lex_total(a.name@, b.name@);
    }

    proof fn lemma_trans(a: &Self, b: &Self, c: &Self) {
        crate::ordering::lemma_lex_trans(a.name@, b.name@, c.name@);
    }

    proof fn lemma_precedes_deep(a: &Self, b: &Self, c: &Self, d: &Self) {
    }

    fn check_precedes(&self, other: &Self) -> (r: bool) {
        str_le(self.name.as_str(), other.name.as_str())
    }
}

/// Version information about a set of features.
#[derive(Clone, Debug, PartialEq, Eq)]
pub struct Meta {
    pub etag: Option<String>,
    pub revision_id: Option<usize>,
    pub query_hash: Option<String>,
}

impl Default for Meta {
    fn default() -> (r: Self)
        ensures
            r.etag is None,
            r.revision_id is None,
            r.query_hash is None,
    {
        Meta { etag: None, revision_id: None, query_hash: None }
    }
}

/// The features and segments that a server hands a client.
#[derive(Clone, Debug, PartialEq, Eq)]
pub struct ClientFeatures {
    pub version: u32,
    pub features: Vec<ClientFeature>,
    pub segments: Option<Vec<Segment>>,
    pub query: Option<Query>,
    pub meta: Option<Meta>,
}

/// The sequence held by an optional vector.
pub open spec fn opt_seq<T>(o: Option<Vec<T>>) -> Option<Seq<T>> {
    match o {
        Some(v) => Some(v@),
        None => None,
    }
}

/// The segments of a merge or an upsert: where both sides have segments, the
/// deduplication of `first` followed by `second`; where one side has, that side;
/// in every case sorted by id.
pub open spec fn combined_segments(first: Option<Seq<Segment>>, second: Option<Seq<Segment>>) -> Option<
    Seq<Segment>,
> {
    match (first, second) {
        (Some(s), Some(o)) => Some(sort_seq(dedup(s + o))),
        (Some(s), None) => Some(sort_seq(s)),
        (None, Some(o)) => Some(sort_seq(o)),
        (None, None) => None,
    }
}

fn combine_segments(first: Option<Vec<Segment>>, second: Option<Vec<Segment>>) -> (r: Option<
    Vec<Segment>,
>)
    ensures
        opt_seq(r) == combined_segments(opt_seq(first), opt_seq(second)),
{
    match (first, second) {
        (Some(s), Some(o)) => {
            let mut s = s;
            let mut o = o;
            s.append(&mut o);
            Some(sort_vec(s.deduplicate()))
        },
        (Some(s), None) => Some(sort_vec(s)),
        (None, Some(o)) => Some(sort_vec(o)),
        (None, None) => None,
    }
}

impl Merge for ClientFeatures {
    /// Keeps the features of both sides, one per name, those of `self` where both
    /// have a name, sorted by name; likewise the segments by id (see
    /// `combined_segments`). The version is the greater one, the query that of
    /// `self` if it has one, the meta that of `other` if it has one.
    fn merge(self, other: Self) -> (r: Self)
        ensures
            r.version == if self.version >= other.version {
                self.version
            } else {
                other.version
            },
            r.features@ == sort_seq(dedup(self.features@ + other.features@)),
            opt_seq(r.segments) == combined_segments(opt_seq(self.segments), opt_seq(other.segments)),
            r.query == (if self.query is Some {
                self.query
            } else {
                other.query
            }),
            r.meta == (if other.meta is Some {
                other.meta
            } else {
                self.meta
            }),
    {
        let ClientFeatures { version, features, segments, query, meta } = self;
        let ClientFeatures {
            version: other_version,
            features: other_features,
            segments: other_segments,
            query: other_query,
            meta: other_meta,
        } = other;
        let features = sort_vec(features.merge(other_features));
        let segments = combine_segments(segments, other_segments);
        ClientFeatures {
            version: if version >= other_version {
                version
            } else {
                other_version
            },
            features,
            segments,
            query: if query.is_some() {
                query
            } else {
                other_query
            },
            meta: if other_meta.is_some() {
                other_meta
            } else {
                meta
            },
        }
    }
}

impl Upsert for ClientFeatures {
    /// Keeps the features of both sides, one per name, those of `other` where both
    /// have a name, sorted by name; likewise the segments by id (see
    /// `combined_segments`). The version is the greater one, the query that of
    /// `self` if it has one, the meta that of `other` if it has one.
    fn upsert(self, other: Self) -> (r: Self)
        ensures
            r.version == if self.version >= other.version {
                self.version
            } else {
                other.version
            },
            r.features@ == sort_seq(dedup(other.features@ + self.features@)),
            opt_seq(r.segments) == combined_segments(opt_seq(other.segments), opt_seq(self.segments)),
            r.query == (if self.query is Some {
                self.query
            } else {
                other.query
            }),
            r.meta == (if other.meta is Some {
                other.meta
            } else {
                self.meta
            }),
    {
        let ClientFeatures { version, features, segments, query, meta } = self;
        let ClientFeatures {
            version: other_version,
            features: other_features,
            segments: other_segments,
            query: other_query,
            meta: other_meta,
        } = other;
        let features = sort_vec(features.upsert(other_features));
        let segments = combine_segments(other_segments, segments);
        ClientFeatures {
            version: if version >= other_version {
                version
            } else {
                other_version
            },
            features,
            segments,
            query: if query.is_some() {
                query
            } else {
                other_query
            },
            meta: if other_meta.is_some() {
                other_meta
            } else {
                meta
            },
        }
    }
}

/// A change to a set of features and segments.
#[derive(Clone, Debug, PartialEq, Eq)]
pub enum DeltaEvent {
    /// Event for a feature update.
    FeatureUpdated { event_id: u32, feature: ClientFeature },
    /// Event for a feature removal.
    FeatureRemoved { event_id: u32, feature_name: String, project: String },
    /// Event for a segment update.
    SegmentUpdated { event_id: u32, segment: Segment },
    /// Event for a segment removal.
    SegmentRemoved { event_id: u32, segment_id: i32 },
    /// Hydration event for features and segments.
    Hydration { event_id: u32, features: Vec<ClientFeature>, segments: Vec<Segment> },
}

impl DeltaEvent {
    pub open spec fn spec_event_id(&self) -> u32 {
        match self {
            DeltaEvent::FeatureUpdated { event_id, .. } => *event_id,
            DeltaEvent::FeatureRemoved { event_id, .. } => *event_id,
            DeltaEvent::SegmentUpdated { event_id, .. } => *event_id,
            DeltaEvent::SegmentRemoved { event_id, .. } => *event_id,
            DeltaEvent::Hydration { event_id, .. } => *event_id,
        }
    }

    pub fn get_event_id(&self) -> (r: u32)
        ensures
            r == self.spec_event_id(),
    {
        match self {
            DeltaEvent::FeatureUpdated { event_id, .. } => *event_id,
            DeltaEvent::FeatureRemoved { event_id, .. } => *event_id,
            DeltaEvent::SegmentUpdated { event_id, .. } => *event_id,
            DeltaEvent::SegmentRemoved { event_id, .. } => *event_id,
            DeltaEvent::Hydration { event_id, .. } => *event_id,
        }
    }
}

/// Schema for delta updates of feature configurations.
#[derive(Clone, Debug, PartialEq, Eq)]
pub struct ClientFeaturesDelta {
    /// A list of delta events.
    pub events: Vec<DeltaEvent>,
}

/// Features and segments, as a delta event sees them.
pub type DeltaState = (Seq<ClientFeature>, Option<Seq<Segment>>);

/// The state after one event: an updated feature (segment) takes the place of the
/// first one with its name (id), or is added at the end; a removal drops every
/// feature (segment) with the name (id); a hydration replaces both lists. An
/// update of a segment where there were no segments starts an empty list.
pub open spec fn apply_event(st: DeltaState, e: DeltaEvent) -> DeltaState {
    match e {
        DeltaEvent::FeatureUpdated { feature, .. } => (put_entry(st.0, feature), st.1),
        DeltaEvent::FeatureRemoved { feature_name, .. } => (drop_key(st.0, feature_name@), st.1),
        DeltaEvent::SegmentUpdated { segment, .. } => (
            st.0,
            Some(
                put_entry(
                    match st.1 {
                        Some(s) => s,
                        None => Seq::empty(),
                    },
                    segment,
                ),
            ),
        ),
        DeltaEvent::SegmentRemoved { segment_id, .. } => (
            st.0,
            match st.1 {
                Some(s) => Some(drop_key(s, segment_id)),
                None => None,
            },
        ),
        DeltaEvent::Hydration { features, segments, .. } => (features@, Some(segments@)),
    }
}

/// The state after the events, applied in order.
pub open spec fn apply_events(st: DeltaState, events: Seq<DeltaEvent>) -> DeltaState
    decreases events.len(),
{
    if events.len() == 0 {
        st
    } else {
        apply_event(apply_events(st, events.drop_last()), events.last())
    }
}

/// The features that a delta leaves, before they are sorted.
pub open spec fn delta_features(cf: ClientFeatures, delta: ClientFeaturesDelta) -> Seq<ClientFeature> {
    apply_events((cf.features@, opt_seq(cf.segments)), delta.events@).0
}

/// The segments that a delta leaves.
pub open spec fn delta_segments(cf: ClientFeatures, delta: ClientFeaturesDelta) -> Option<Seq<Segment>> {
    apply_events((cf.features@, opt_seq(cf.segments)), delta.events@).1
}

/// `v` without its features named `name`; `s` is a sequence with the deep view of `v`.
fn remove_features_named(v: Vec<ClientFeature>, name: &String, Ghost(s): Ghost<Seq<ClientFeature>>) -> (r: Vec<
    ClientFeature,
>)
    requires
        v.deep_view() == deep_seq(s),
    ensures
        r.deep_view() == deep_seq(drop_key(s, name@)),
{
    let ghost orig = v@;
    proof {
        lemma_deep_seq_keys(orig, s);
        assert(v.deep_view() =~= deep_seq(orig));
        assert forall|m: int| 0 <= m < orig.len() implies (#[trigger] orig[m]).deep_view()
            == s[m].deep_view() by {
            assert(deep_seq(orig)[m] == deep_seq(s)[m]);
        }
    }
    let mut rest = v;
    let mut out: Vec<ClientFeature> = Vec::new();
    let ghost mut i: int = 0;
    assert(orig.skip(0) =~= orig);
    assert(s.take(0) =~= Seq::<ClientFeature>::empty());
    assert(out.deep_view() =~= deep_seq(drop_key(s.take(0), name@)));
    while rest.len() > 0
        invariant
            0 <= i <= orig.len(),
            orig.len() == s.len(),
            rest@ == orig.skip(i),
            forall|m: int| 0 <= m < orig.len() ==> (#[trigger] orig[m]).deep_view() == s[m].deep_view(),
            forall|m: int| 0 <= m < orig.len() ==> (#[trigger] orig[m]).key() == s[m].key(),
            out.deep_view() == deep_seq(drop_key(s.take(i), name@)),
        decreases rest.len(),
    {
        let x = rest.remove(0);
        assert(x == orig[i]);
        assert(s.take(i + 1).drop_last() =~= s.take(i));
        assert(s.take(i + 1).last() == s[i]);
        let ghost d = drop_key(s.take(i), name@);
        let ghost out_before = out@;
        assert(out.deep_view() =~= deep_seq(out@));
        if !(x.name == *name) {
            out.push(x);
            assert(out.deep_view() =~= deep_seq(d.push(s[i]))) by {
                assert(deep_seq(out_before) == deep_seq(d));
                assert forall|m: int| 0 <= m < out@.len() implies (#[trigger] out@[m]).deep_view()
                    == d.push(s[i])[m].deep_view() by {
                    if m < out_before.len() {
                        assert(deep_seq(out_before)[m] == deep_seq(d)[m]);
                    }
                }
            }
        }
        assert(orig.skip(i).remove(0) =~= orig.skip(i + 1));
        proof {
            i = i + 1;
        }
    }
    assert(s.take(i) =~= s);
    out
}

/// `v` without its segments with id `id`; `s` is a sequence with the deep view of `v`.
fn remove_segments_with_id(v: Vec<Segment>, id: i32, Ghost(s): Ghost<Seq<Segment>>) -> (r: Vec<Segment>)
    requires
        v.deep_view() == deep_seq(s),
    ensures
        r.deep_view() == deep_seq(drop_key(s, id)),
{
    let ghost orig = v@;
    proof {
        lemma_deep_seq_keys(orig, s);
        assert(v.deep_view() =~= deep_seq(orig));
        assert forall|m: int| 0 <= m < orig.len() implies (#[trigger] orig[m]).deep_view()
            == s[m].deep_view() by {
            assert(deep_seq(orig)[m] == deep_seq(s)[m]);
        }
    }
    let mut rest = v;
    let mut out: Vec<Segment> = Vec::new();
    let ghost mut i: int = 0;
    assert(orig.skip(0) =~= orig);
    assert(s.take(0) =~= Seq::<Segment>::empty());
    assert(out.deep_view() =~= deep_seq(drop_key(s.take(0), id)));
    while rest.len() > 0
        invariant
            0 <= i <= orig.len(),
            orig.len() == s.len(),
            rest@ == orig.skip(i),
            forall|m: int| 0 <= m < orig.len() ==> (#[trigger] orig[m]).deep_view() == s[m].deep_view(),
            forall|m: int| 0 <= m < orig.len() ==> (#[trigger] orig[m]).key() == s[m].key(),
            out.deep_view() == deep_seq(drop_key(s.take(i), id)),
        decreases rest.len(),
    {
        let x = rest.remove(0);
        assert(x == orig[i]);
        assert(s.take(i + 1).drop_last() =~= s.take(i));
        assert(s.take(i + 1).last() == s[i]);
        let ghost d = drop_key(s.take(i), id);
        let ghost out_before = out@;
        assert(out.deep_view() =~= deep_seq(out@));
        if x.id != id {
            out.push(x);
            assert(out.deep_view() =~= deep_seq(d.push(s[i]))) by {
                assert(deep_seq(out_before) == deep_seq(d));
                assert forall|m: int| 0 <= m < out@.len() implies (#[trigger] out@[m]).deep_view()
                    == d.push(s[i])[m].deep_view() by {
                    if m < out_before.len() {
                        assert(deep_seq(out_before)[m] == deep_seq(d)[m]);
                    }
                }
            }
        }
        assert(orig.skip(i).remove(0) =~= orig.skip(i + 1));
        proof {
            i = i + 1;
        }
    }
    assert(s.take(i) =~= s);
    out
}

impl ClientFeatures {
    /// Modifies the current ClientFeatures instance by applying the events.
    ///
    /// The features become (copies of) those that the events leave, sorted by
    /// name; the segments, those that the events leave; nothing else changes.
    pub fn apply_delta(&mut self, delta: &ClientFeaturesDelta)
        ensures
            final(self).version == old(self).version,
            final(self).query == old(self).query,
            final(self).meta == old(self).meta,
            final(self).features.deep_view() == deep_seq(sort_seq(delta_features(*old(self), *delta))),
            final(self).segments.deep_view() == opt_deep_seq(delta_segments(*old(self), *delta)),
    {
        self.apply_delta_events(delta);
    }

    /// Returns a new ClientFeatures instance with the events applied.
    ///
    /// This is `apply_delta` on `ClientFeatures::default()`: version 2, no query,
    /// no meta, no features and no segments before the events.
    pub fn create_from_delta(delta: &ClientFeaturesDelta) -> (r: ClientFeatures)
        ensures
            r.version == 2,
            r.query is None,
            r.meta is None,
            r.features.deep_view() == deep_seq(
                sort_seq(apply_events((Seq::empty(), None), delta.events@).0),
            ),
            r.segments.deep_view() == opt_deep_seq(apply_events((Seq::empty(), None), delta.events@).1),
    {
        let mut client_features = ClientFeatures::default();
        proof {
            assert(opt_seq(client_features.segments) == None::<Seq<Segment>>);
        }
        client_features.apply_delta_events(delta);
        client_features
    }

    fn apply_delta_events(&mut self, delta: &ClientFeaturesDelta)
        ensures
            final(self).version == old(self).version,
            final(self).query == old(self).query,
            final(self).meta == old(self).meta,
            final(self).features.deep_view() == deep_seq(sort_seq(delta_features(*old(self), *delta))),
            final(self).segments.deep_view() == opt_deep_seq(delta_segments(*old(self), *delta)),
    {
        let ghost st0: DeltaState = (self.features@, opt_seq(self.segments));
        let mut features: Vec<ClientFeature> = Vec::new();
        std::mem::swap(&mut features, &mut self.features);
        let mut segments: Option<Vec<Segment>> = None;
        std::mem::swap(&mut segments, &mut self.segments);
        let ghost mut st: DeltaState = st0;
        assert(features.deep_view() =~= deep_seq(st.0));
        assert(segments.deep_view() == opt_deep_seq(st.1)) by {
            if let Some(l) = segments {
                assert(l.deep_view() =~= deep_seq(l@));
            }
        }
        assert(delta.events@.take(0) =~= Seq::<DeltaEvent>::empty());
        let mut i: usize = 0;
        while i < delta.events.len()
            invariant
                i <= delta.events@.len(),
                st == apply_events(st0, delta.events@.take(i as int)),
                features.deep_view() == deep_seq(st.0),
                segments.deep_view() == opt_deep_seq(st.1),
            decreases delta.events@.len() - i,
        {
            let event = &delta.events[i];
            let ghost next = apply_event(st, *event);
            match event {
                DeltaEvent::FeatureUpdated { feature, .. } => {
                    put_entry_vec(&mut features, feature, Ghost(st.0));
                },
                DeltaEvent::FeatureRemoved { feature_name, .. } => {
                    features = remove_features_named(features, feature_name, Ghost(st.0));
                },
                DeltaEvent::SegmentUpdated { segment, .. } => {
                    let ghost old_list = match st.1 {
                        Some(l) => l,
                        None => Seq::<Segment>::empty(),
                    };
                    let mut list = match segments {
                        Some(l) => l,
                        None => Vec::new(),
                    };
                    assert(list.deep_view() =~= deep_seq(old_list));
                    put_entry_vec(&mut list, segment, Ghost(old_list));
                    segments = Some(list);
                },
                DeltaEvent::SegmentRemoved { segment_id, .. } => {
                    segments = match segments {
                        Some(l) => Some(remove_segments_with_id(l, *segment_id, Ghost(st.1->0))),
                        None => None,
                    };
                },
                DeltaEvent::Hydration { features: new_features, segments: new_segments, .. } => {
                    features = new_features.deep_clone();
                    segments = Some(new_segments.deep_clone());
                    assert(features.deep_view() =~= deep_seq(new_features@)) by {
                        assert(new_features.deep_view() =~= deep_seq(new_features@));
                    }
                    assert(new_segments.deep_view() =~= deep_seq(new_segments@));
                },
            }
            proof {
                assert(delta.events@.take(i + 1).drop_last() =~= delta.events@.take(i as int));
                assert(delta.events@.take(i + 1).last() == *event);
                st = next;
            }
            i = i + 1;
        }
        assert(delta.events@.take(i as int) =~= delta.events@);
        let ghost unsorted = features@;
        assert(features.deep_view() =~= deep_seq(unsorted));
        let sorted = sort_vec(features);
        proof {
            crate::ordering::lemma_sort_deep(unsorted, st.0);
            assert(sorted.deep_view() =~= deep_seq(sorted@));
        }
        self.features = sorted;
        self.segments = segments;
    }
}

/// Each name comes before or equals every later one, in lexicographic order (see
/// `law_lex_le_first_difference`).
pub open spec fn names_ascending(s: Seq<ClientFeature>) -> bool {
    forall|i: int, j: int|
        #![trigger s[i], s[j]]
        0 <= i < j < s.len() ==> lex_le(s[i].name@, s[j].name@)
}

/// Sorting features puts them in lexicographic order of their names, and keeps
/// all of them.
pub proof fn law_sorted_features_by_name(s: Seq<ClientFeature>)
    ensures
        names_ascending(sort_seq(s)),
        sort_seq(s).to_multiset() == s.to_multiset(),
{
    lemma_sort(s);
}

/// The segments of an optional list, or none.
pub open spec fn segments_or_empty(o: Option<Seq<Segment>>) -> Seq<Segment> {
    match o {
        Some(s) => s,
        None => Seq::empty(),
    }
}

/// What combining two optional segment lists gives: a list exactly when either
/// side has one; every id of either side, and no other; ids ascending; where both
/// sides have lists, each id once, and the segment of `first` where both have it.
pub open spec fn segments_combined(
    first: Option<Seq<Segment>>,
    second: Option<Seq<Segment>>,
    r: Option<Seq<Segment>>,
) -> bool {
    let l = segments_or_empty(r);
    &&& (r is Some <==> (first is Some || second is Some))
    &&& forall|id: i32|
        #[trigger] has_key(l, id) <==> (has_key(segments_or_empty(first), id) || has_key(
            segments_or_empty(second),
            id,
        ))
    &&& forall|i: int, j: int| #![trigger l[i], l[j]] 0 <= i < j < l.len() ==> l[i].id <= l[j].id
    &&& (first is Some && second is Some) ==> unique_keys(l)
    &&& (first is Some && second is Some) ==> forall|x: Segment|
        l.contains(x) && has_key(segments_or_empty(first), x.id) ==> first_of_its_key(
            segments_or_empty(first),
            x,
        )
}

/// Combining segments of a merge or an upsert keeps every id of both sides, sorted.
pub proof fn law_combined_segments(first: Option<Seq<Segment>>, second: Option<Seq<Segment>>)
    ensures
        segments_combined(first, second, combined_segments(first, second)),
{
    match (first, second) {
        (Some(s), Some(o)) => {
            let d = dedup(s + o);
            law_merge_keeps_left(s, o);
            lemma_sort_entries(d);
            lemma_sort(d);
            assert forall|x: Segment|
                sort_seq(d).contains(x) && has_key(s, x.id) implies first_of_its_key(s, x) by {
                assert(d.contains(x));
                let i = choose|i: int| 0 <= i < d.len() && d[i] == x;
                assert(has_key(s, d[i].key()));
            }
        },
        (Some(s), None) => {
            lemma_sort_entries(s);
            lemma_sort(s);
            assert forall|id: i32| has_key(segments_or_empty(None::<Seq<Segment>>), id) == false by {
            }
        },
        (None, Some(o)) => {
            lemma_sort_entries(o);
            lemma_sort(o);
        },
        (None, None) => {
        },
    }
}

/// Merging feature sets: the features come out sorted by name, each name once,
/// with every name of either side; where both sides have a name, the feature
/// kept is the first one of `a` with that name.
pub proof fn law_merge_features(a: ClientFeatures, b: ClientFeatures)
    ensures
        is_sorted(sort_seq(dedup(a.features@ + b.features@))),
        names_ascending(sort_seq(dedup(a.features@ + b.features@))),
        segments_combined(
            opt_seq(a.segments),
            opt_seq(b.segments),
            combined_segments(opt_seq(a.segments), opt_seq(b.segments)),
        ),
        unique_keys(sort_seq(dedup(a.features@ + b.features@))),
        forall|name: Seq<char>|
            has_key(sort_seq(dedup(a.features@ + b.features@)), name) <==> (has_key(a.features@, name)
                || has_key(b.features@, name)),
        forall|f: ClientFeature|
            sort_seq(dedup(a.features@ + b.features@)).contains(f) && has_key(a.features@, f.name@)
                ==> first_of_its_key(a.features@, f),
{
    let d = dedup(a.features@ + b.features@);
    law_sorted_features_by_name(d);
    law_combined_segments(opt_seq(a.segments), opt_seq(b.segments));
    law_merge_keeps_left(a.features@, b.features@);
    lemma_sort_entries(d);
    lemma_sort(d);
    assert forall|f: ClientFeature|
        sort_seq(d).contains(f) && has_key(a.features@, f.name@) implies first_of_its_key(
        a.features@,
        f,
    ) by {
        assert(d.contains(f));
        let i = choose|i: int| 0 <= i < d.len() && d[i] == f;
        assert(has_key(a.features@, d[i].key()));
        assert(first_of_its_key(a.features@, d[i]));
    }
}

/// Upserting feature sets: the features come out sorted by name, each name once,
/// with every name of either side; where both sides have a name, the feature
/// kept is the first one of `b` (the new data) with that name.
pub proof fn law_upsert_features(a: ClientFeatures, b: ClientFeatures)
    ensures
        is_sorted(sort_seq(dedup(b.features@ + a.features@))),
        names_ascending(sort_seq(dedup(b.features@ + a.features@))),
        segments_combined(
            opt_seq(b.segments),
            opt_seq(a.segments),
            combined_segments(opt_seq(b.segments), opt_seq(a.segments)),
        ),
        unique_keys(sort_seq(dedup(b.features@ + a.features@))),
        forall|name: Seq<char>|
            has_key(sort_seq(dedup(b.features@ + a.features@)), name) <==> (has_key(a.features@, name)
                || has_key(b.features@, name)),
        forall|f: ClientFeature|
            sort_seq(dedup(b.features@ + a.features@)).contains(f) && has_key(b.features@, f.name@)
                ==> first_of_its_key(b.features@, f),
{
    let d = dedup(b.features@ + a.features@);
    law_sorted_features_by_name(d);
    law_combined_segments(opt_seq(b.segments), opt_seq(a.segments));
    law_upsert_prefers_new(a.features@, b.features@);
    lemma_sort_entries(d);
    lemma_sort(d);
    assert forall|f: ClientFeature|
        sort_seq(d).contains(f) && has_key(b.features@, f.name@) implies first_of_its_key(
        b.features@,
        f,
    ) by {
        assert(d.contains(f));
        let i = choose|i: int| 0 <= i < d.len() && d[i] == f;
        assert(has_key(b.features@, d[i].key()));
        assert(first_of_its_key(b.features@, d[i]));
    }
}

/// After a delta the features are sorted by name. What the last event did can be
/// read back: an updated feature is there, and it is the first with its name; a
/// removed name is gone; a hydration leaves its features, sorted; an updated
/// segment is the first with its id, and a removed id is gone.
pub proof fn law_delta_read_back(cf: ClientFeatures, delta: ClientFeaturesDelta)
    ensures
        is_sorted(sort_seq(delta_features(cf, delta))),
        names_ascending(sort_seq(delta_features(cf, delta))),
        delta.events@.len() > 0 ==> match delta.events@.last() {
            DeltaEvent::FeatureUpdated { feature, .. } => {
                &&& sort_seq(delta_features(cf, delta)).contains(feature)
                &&& delta_features(cf, delta)[key_index(
                    delta_features(cf, delta),
                    feature.name@,
                ) as int] == feature
            },
            DeltaEvent::FeatureRemoved { feature_name, .. } => !has_key(
                sort_seq(delta_features(cf, delta)),
                feature_name@,
            ),
            DeltaEvent::SegmentUpdated { segment, .. } => delta_segments(cf, delta) matches Some(
                s,
            ) && key_index(s, segment.id) < s.len() && s[key_index(s, segment.id) as int] == segment,
            DeltaEvent::SegmentRemoved { segment_id, .. } => delta_segments(cf, delta) matches Some(s)
                ==> !has_key(s, segment_id),
            DeltaEvent::Hydration { features, segments, .. } => sort_seq(delta_features(cf, delta))
                == sort_seq(features@) && delta_segments(cf, delta) == Some(segments@),
        },
{
    let r = delta_features(cf, delta);
    law_sorted_features_by_name(r);
    lemma_sort(r);
    lemma_sort_entries(r);
    if delta.events@.len() > 0 {
        let st = apply_events((cf.features@, opt_seq(cf.segments)), delta.events@.drop_last());
        match delta.events@.last() {
            DeltaEvent::FeatureUpdated { feature, .. } => {
                law_put_entry(st.0, feature);
                let i = key_index(r, feature.name@);
                assert(r.contains(r[i as int]));
            },
            DeltaEvent::FeatureRemoved { feature_name, .. } => {
                law_drop_key(st.0, feature_name@);
            },
            DeltaEvent::SegmentUpdated { segment, .. } => {
                law_put_entry(
                    match st.1 {
                        Some(l) => l,
                        None => Seq::<Segment>::empty(),
                    },
                    segment,
                );
            },
            DeltaEvent::SegmentRemoved { segment_id, .. } => {
                if let Some(l) = st.1 {
                    law_drop_key(l, segment_id);
                }
            },
            DeltaEvent::Hydration { .. } => {
            },
        }
    }
}

impl KeyOrdered for ClientFeature {
    /// Features are ordered by name, and identified by it.
    proof fn lemma_order_follows_key(a: &Self, b: &Self) {
        if lex_le(a.name@, b.name@) && lex_le(b.name@, a.name@) {
            crate::ordering::lemma_lex_antisym(a.name@, b.name@);
        }
        crate::ordering::lemma_lex_total(a.name@, b.name@);
    }
}

/// Applying the events of one list and then those of another is applying the
/// events of both lists, in order.
pub proof fn lemma_apply_events_append(st: DeltaState, e1: Seq<DeltaEvent>, e2: Seq<DeltaEvent>)
    ensures
        apply_events(st, e1 + e2) == apply_events(apply_events(st, e1), e2),
    decreases e2.len(),
{
    if e2.len() == 0 {
        assert(e1 + e2 =~= e1);
    } else {
        assert((e1 + e2).drop_last() =~= e1 + e2.drop_last());
        assert((e1 + e2).last() == e2.last());
        lemma_apply_events_append(st, e1, e2.drop_last());
    }
}

/// Events applied to feature lists with the same features of each name, in the
/// same order, give such lists again, and the same segments.
proof fn lemma_apply_events_groups(
    a: Seq<ClientFeature>,
    b: Seq<ClientFeature>,
    segments: Option<Seq<Segment>>,
    e: Seq<DeltaEvent>,
)
    requires
        same_groups(a, b),
    ensures
        same_groups(apply_events((a, segments), e).0, apply_events((b, segments), e).0),
        apply_events((a, segments), e).1 == apply_events((b, segments), e).1,
    decreases e.len(),
{
    if e.len() > 0 {
        lemma_apply_events_groups(a, b, segments, e.drop_last());
        let sa = apply_events((a, segments), e.drop_last());
        let sb = apply_events((b, segments), e.drop_last());
        match e.last() {
            DeltaEvent::FeatureUpdated { feature, .. } => {
                lemma_put_entry_same_groups(sa.0, sb.0, feature);
            },
            DeltaEvent::FeatureRemoved { feature_name, .. } => {
                lemma_drop_key_same_groups(sa.0, sb.0, feature_name@);
            },
            _ => {
            },
        }
    }
}

/// Events applied to states with the same contents give states with the same
/// contents.
proof fn lemma_apply_events_deep(
    a: Seq<ClientFeature>,
    b: Seq<ClientFeature>,
    sa: Option<Seq<Segment>>,
    sb: Option<Seq<Segment>>,
    e: Seq<DeltaEvent>,
)
    requires
        deep_seq(a) == deep_seq(b),
        opt_deep_seq(sa) == opt_deep_seq(sb),
    ensures
        deep_seq(apply_events((a, sa), e).0) == deep_seq(apply_events((b, sb), e).0),
        opt_deep_seq(apply_events((a, sa), e).1) == opt_deep_seq(apply_events((b, sb), e).1),
    decreases e.len(),
{
    if e.len() > 0 {
        lemma_apply_events_deep(a, b, sa, sb, e.drop_last());
        let ta = apply_events((a, sa), e.drop_last());
        let tb = apply_events((b, sb), e.drop_last());
        let la = match ta.1 {
            Some(l) => l,
            None => Seq::<Segment>::empty(),
        };
        let lb = match tb.1 {
            Some(l) => l,
            None => Seq::<Segment>::empty(),
        };
        assert(ta.1 is Some <==> tb.1 is Some);
        assert(deep_seq(la) == deep_seq(lb)) by {
            if ta.1 is None {
                assert(deep_seq(la) =~= deep_seq(lb));
            }
        }
        match e.last() {
            DeltaEvent::FeatureUpdated { feature, .. } => {
                lemma_put_entry_deep(ta.0, tb.0, feature);
            },
            DeltaEvent::FeatureRemoved { feature_name, .. } => {
                lemma_drop_key_deep(ta.0, tb.0, feature_name@);
            },
            DeltaEvent::SegmentUpdated { segment, .. } => {
                lemma_put_entry_deep(la, lb, segment);
            },
            DeltaEvent::SegmentRemoved { segment_id, .. } => {
                lemma_drop_key_deep(la, lb, segment_id);
            },
            DeltaEvent::Hydration { .. } => {
            },
        }
    }
}

/// Applying one delta and then another gives what one delta with the events of
/// both gives: where `x1` holds what `apply_delta` makes of `x0` and `d1`, the
/// features and segments that `d2` leaves of `x1` have the same contents as those
/// that the joined events leave of `x0`.
pub proof fn law_deltas_in_turn(
    x0: ClientFeatures,
    x1: ClientFeatures,
    d1: ClientFeaturesDelta,
    d2: ClientFeaturesDelta,
    joined: ClientFeaturesDelta,
)
    requires
        x1.features.deep_view() == deep_seq(sort_seq(delta_features(x0, d1))),
        x1.segments.deep_view() == opt_deep_seq(delta_segments(x0, d1)),
        joined.events@ == d1.events@ + d2.events@,
    ensures
        deep_seq(sort_seq(delta_features(x1, d2))) == deep_seq(sort_seq(delta_features(x0, joined))),
        opt_deep_seq(delta_segments(x1, d2)) == opt_deep_seq(delta_segments(x0, joined)),
{
    let st0 = (x0.features@, opt_seq(x0.segments));
    let st = apply_events(st0, d1.events@);
    let sorted = sort_seq(st.0);
    assert(x1.features.deep_view() =~= deep_seq(x1.features@));
    assert(x1.segments.deep_view() == opt_deep_seq(opt_seq(x1.segments))) by {
        if let Some(v) = x1.segments {
            assert(v.deep_view() =~= deep_seq(v@));
        }
    }
    lemma_apply_events_deep(
        x1.features@,
        sorted,
        opt_seq(x1.segments),
        st.1,
        d2.events@,
    );
    let after_sorted = apply_events((sorted, st.1), d2.events@);
    let after = apply_events(st, d2.events@);
    crate::ordering::lemma_sort_deep(delta_features(x1, d2), after_sorted.0);
    assert(same_groups(sorted, st.0)) by {
        assert forall|k: Seq<char>| #[trigger] of_key(sorted, k) == of_key(st.0, k) by {
            lemma_sort_keeps_groups(st.0, k);
        }
    }
    lemma_apply_events_groups(sorted, st.0, st.1, d2.events@);
    lemma_sort_same_groups(after_sorted.0, after.0);
    lemma_apply_events_append(st0, d1.events@, d2.events@);
}

impl Default for ClientFeatures {
    fn default() -> (r: Self)
        ensures
            r.version == 2,
            r.features@ == Seq::<ClientFeature>::empty(),
            r.segments is None,
            r.query is None,
            r.meta is None,
    {
        ClientFeatures { version: 2, features: Vec::new(), segments: None, query: None, meta: None }
    }
}

} // verus!
