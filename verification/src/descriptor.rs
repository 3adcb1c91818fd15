//! The stack descriptor: the declarative, tool-agnostic description of a
//! data pipeline, and the check of its structure.

use crate::text::{copy_string, find_name, views};
use crate::yaml::{yaml_doc, YamlDoc};
use vstd::prelude::*;
use vstd::string::StringExecFns;

verus! {

/// A column of a transformation's output.
#[derive(Debug, Clone)]
pub struct Column {
    pub name: String,
    pub data_type: String,
}

/// A column, as contracts speak of it.
pub struct ColumnView {
    pub name: Seq<char>,
    pub data_type: Seq<char>,
}

impl View for Column {
    type V = ColumnView;

    open spec fn view(&self) -> ColumnView {
        ColumnView { name: self.name@, data_type: self.data_type@ }
    }
}

/// An aggregation: a function applied to a column.  Both are opaque tokens.
#[derive(Debug, Clone)]
pub struct Aggregation {
    pub column: String,
    pub function: String,
}

/// An aggregation, as contracts speak of it.
pub struct AggregationView {
    pub column: Seq<char>,
    pub function: Seq<char>,
}

impl View for Aggregation {
    type V = AggregationView;

    open spec fn view(&self) -> AggregationView {
        AggregationView { column: self.column@, function: self.function@ }
    }
}

/// A transformation: a named step that a backend of type `transform_type`
/// compiles, after the transformations named in `depends_on`.
#[derive(Debug, Clone)]
pub struct TransformationConfig {
    pub name: String,
    pub depends_on: Vec<String>,
    pub transform_type: String,
    pub columns: Vec<Column>,
    pub aggregations: Vec<Aggregation>,
}

/// A transformation, as contracts speak of it.
pub struct TransformationView {
    pub name: Seq<char>,
    pub depends_on: Seq<Seq<char>>,
    pub transform_type: Seq<char>,
    pub columns: Seq<ColumnView>,
    pub aggregations: Seq<AggregationView>,
}

impl View for TransformationConfig {
    type V = TransformationView;

    open spec fn view(&self) -> TransformationView {
        TransformationView {
            name: self.name@,
            depends_on: views(self.depends_on@),
            transform_type: self.transform_type@,
            columns: views(self.columns@),
            aggregations: views(self.aggregations@),
        }
    }
}

/// The columns that a transformation aggregates, in order.
pub open spec fn aggregation_columns(t: TransformationView) -> Seq<Seq<char>> {
    t.aggregations.map_values(|a: AggregationView| a.column)
}

/// No column of the transformation is aggregated twice.
pub open spec fn aggregated_once(t: TransformationView) -> bool {
    aggregation_columns(t).no_duplicates()
}

/// An ingestion source.  `config` belongs to the source type and is only
/// passed on.
#[derive(Debug, Clone)]
pub struct Source {
    pub name: String,
    pub source_type: String,
    pub config: serde_yaml::Value,
}

/// A source, as contracts speak of it: its `config` by what it holds.
pub struct SourceView {
    pub name: Seq<char>,
    pub source_type: Seq<char>,
    pub config: YamlDoc,
}

impl View for Source {
    type V = SourceView;

    open spec fn view(&self) -> SourceView {
        SourceView { name: self.name@, source_type: self.source_type@, config: yaml_doc(self.config) }
    }
}

/// A serving target: a dashboard or report over the transformations and
/// sources named in `data_sources`.
#[derive(Debug, Clone)]
pub struct ServingTarget {
    pub name: String,
    pub serving_type: String,
    pub template: String,
    pub data_sources: Vec<String>,
    pub config: serde_yaml::Value,
}

/// A serving target, as contracts speak of it: its `config` by what it holds.
pub struct ServingView {
    pub name: Seq<char>,
    pub serving_type: Seq<char>,
    pub template: Seq<char>,
    pub data_sources: Seq<Seq<char>>,
    pub config: YamlDoc,
}

impl View for ServingTarget {
    type V = ServingView;

    open spec fn view(&self) -> ServingView {
        ServingView {
            name: self.name@,
            serving_type: self.serving_type@,
            template: self.template@,
            data_sources: views(self.data_sources@),
            config: yaml_doc(self.config),
        }
    }
}

/// How a run is scheduled and how failures are handled.  Only `retries`
/// and `timeout` bear on a run; the rest is passed on.
#[derive(Debug, Clone)]
pub struct OrchestrationPolicy {
    pub schedule: String,
    pub retries: u32,
    pub timeout: String,
    pub notifications: serde_yaml::Value,
}

/// An orchestration policy, as contracts speak of it.
pub struct PolicyView {
    pub schedule: Seq<char>,
    pub retries: u32,
    pub timeout: Seq<char>,
    pub notifications: YamlDoc,
}

impl View for OrchestrationPolicy {
    type V = PolicyView;

    open spec fn view(&self) -> PolicyView {
        PolicyView {
            schedule: self.schedule@,
            retries: self.retries,
            timeout: self.timeout@,
            notifications: yaml_doc(self.notifications),
        }
    }
}

/// The value of a decimal digit.
pub open spec fn digit_value(c: char) -> Option<nat> {
    if '0' <= c <= '9' {
        Some((c as nat - '0' as nat) as nat)
    } else {
        None
    }
}

/// The number that the decimal digits `s` write, where `s` holds digits
/// only and one at least.
pub open spec fn decimal_value(s: Seq<char>) -> Option<nat>
    decreases s.len(),
{
    if s.len() == 0 {
        None
    } else if s.len() == 1 {
        digit_value(s[0])
    } else {
        match (decimal_value(s.drop_last()), digit_value(s.last())) {
            (Some(v), Some(d)) => Some(v * 10 + d),
            _ => None,
        }
    }
}

/// The limit of a call in seconds, where `timeout` writes a whole number
/// that a `u64` holds.
pub open spec fn seconds_of(timeout: Seq<char>) -> Option<u64> {
    match decimal_value(timeout) {
        Some(v) => if v <= u64::MAX {
            Some(v as u64)
        } else {
            None
        },
        None => None,
    }
}

/// The digits of a number begin with the digits of a number that is not
/// larger.
pub proof fn lemma_decimal_prefix(s: Seq<char>, k: int)
    requires
        1 <= k <= s.len(),
        decimal_value(s) is Some,
    ensures
        decimal_value(s.take(k)) is Some,
        decimal_value(s.take(k)).unwrap() <= decimal_value(s).unwrap(),
    decreases s.len(),
{
    if k == s.len() {
        assert(s.take(k) =~= s);
    } else {
        lemma_decimal_prefix(s.drop_last(), k);
        assert(s.drop_last().take(k) =~= s.take(k));
    }
}

impl OrchestrationPolicy {
    /// The limit of each call in seconds: `timeout` read as a whole number
    /// of seconds in decimal digits.  `None` where it is anything else, or
    /// too large: no run is prepared for such a descriptor.
    pub fn timeout_seconds(&self) -> (r: Option<u64>)
        ensures
            r == seconds_of(self.timeout@),
    {
        let text = self.timeout.as_str();
        let n = text.unicode_len();
        if n == 0 {
            return None;
        }
        let mut value: u64 = 0;
        let mut i: usize = 0;
        while i < n
            invariant
                text@ == self.timeout@,
                n == text@.len(),
                i <= n,
                i == 0 ==> value == 0,
                i > 0 ==> decimal_value(text@.take(i as int)) == Some(value as nat),
            decreases n - i,
        {
            let c = text.get_char(i);
            let ghost next = text@.take(i + 1);
            proof {
                assert(next.drop_last() =~= text@.take(i as int));
                assert(next.last() == c);
                assert(next.len() == 1 ==> next[0] == c);
            }
            if c < '0' || c > '9' {
                proof {
                    assert(decimal_value(next) is None);
                    if decimal_value(text@) is Some {
                        lemma_decimal_prefix(text@, i + 1);
                    }
                }
                return None;
            }
            let digit = (c as u32 - '0' as u32) as u64;
            assert(digit_value(c) == Some(digit as nat));
            if value > (u64::MAX - digit) / 10 {
                proof {
                    assert(decimal_value(next) == Some((value * 10 + digit) as nat));
                    assert(value * 10 + digit > u64::MAX);
                    if decimal_value(text@) is Some {
                        lemma_decimal_prefix(text@, i + 1);
                    }
                }
                return None;
            }
            value = value * 10 + digit;
            i += 1;
        }
        assert(text@.take(n as int) =~= text@);
        Some(value)
    }
}

/// The description of a whole stack.
#[derive(Debug, Clone)]
pub struct StackDescriptor {
    pub name: String,
    pub description: String,
    pub environment: String,
    pub sources: Vec<Source>,
    pub transformations: Vec<TransformationConfig>,
    pub serving: Vec<ServingTarget>,
    pub orchestration: OrchestrationPolicy,
}

/// A stack descriptor, as contracts speak of it.
pub struct StackView {
    pub name: Seq<char>,
    pub description: Seq<char>,
    pub environment: Seq<char>,
    pub sources: Seq<SourceView>,
    pub transformations: Seq<TransformationView>,
    pub serving: Seq<ServingView>,
    pub orchestration: PolicyView,
}

impl View for StackDescriptor {
    type V = StackView;

    open spec fn view(&self) -> StackView {
        StackView {
            name: self.name@,
            description: self.description@,
            environment: self.environment@,
            sources: views(self.sources@),
            transformations: views(self.transformations@),
            serving: views(self.serving@),
            orchestration: self.orchestration@,
        }
    }
}

/// A document is not the description of a stack.
#[derive(Debug, Clone)]
pub struct ParseError {
    pub message: String,
}

/// The class of a named entity of a stack.
#[derive(Debug, Clone, Copy, PartialEq, Eq, Structural)]
pub enum EntityKind {
    Source,
    Transformation,
    ServingTarget,
}

/// What is wrong with the structure of a descriptor.
#[derive(Debug, Clone)]
pub enum StructuralError {
    /// Two entities of one class have the same name.
    DuplicateName { kind: EntityKind, name: String },
    /// A transformation depends on a name that no transformation has.
    UnknownDependency { transformation: String, missing: String },
    /// A serving target reads from a name that neither a transformation nor
    /// a source has.
    UnknownDataSource { serving_target: String, missing: String },
}

/// A structural error, as contracts speak of it.
pub enum StructuralErrorView {
    DuplicateName { kind: EntityKind, name: Seq<char> },
    UnknownDependency { transformation: Seq<char>, missing: Seq<char> },
    UnknownDataSource { serving_target: Seq<char>, missing: Seq<char> },
}

impl View for StructuralError {
    type V = StructuralErrorView;

    open spec fn view(&self) -> StructuralErrorView {
        match self {
            StructuralError::DuplicateName { kind, name } => StructuralErrorView::DuplicateName {
                kind: *kind,
                name: name@,
            },
            StructuralError::UnknownDependency {
                transformation,
                missing,
            } => StructuralErrorView::UnknownDependency {
                transformation: transformation@,
                missing: missing@,
            },
            StructuralError::UnknownDataSource {
                serving_target,
                missing,
            } => StructuralErrorView::UnknownDataSource {
                serving_target: serving_target@,
                missing: missing@,
            },
        }
    }
}

impl StructuralError {
    /// The error in words.
    pub fn message(&self) -> (r: String)
        ensures
            r@ == structural_message(self@),
    {
        match self {
            StructuralError::DuplicateName { kind, name } => {
                let mut r = String::from_str("duplicate ");
                match kind {
                    EntityKind::Source => r.append("source"),
                    EntityKind::Transformation => r.append("transformation"),
                    EntityKind::ServingTarget => r.append("serving target"),
                }
                r.append(" name '");
                r.append(name.as_str());
                r.append("'");
                r
            },
            StructuralError::UnknownDependency { transformation, missing } => {
                let mut r = String::from_str("transformation '");
                r.append(transformation.as_str());
                r.append("' depends on '");
                r.append(missing.as_str());
                r.append("', which is not declared");
                r
            },
            StructuralError::UnknownDataSource { serving_target, missing } => {
                let mut r = String::from_str("serving target '");
                r.append(serving_target.as_str());
                r.append("' reads from '");
                r.append(missing.as_str());
                r.append("', which is not declared");
                r
            },
        }
    }
}

/// The name of an entity class in messages.
pub open spec fn kind_word(kind: EntityKind) -> Seq<char> {
    match kind {
        EntityKind::Source => "source"@,
        EntityKind::Transformation => "transformation"@,
        EntityKind::ServingTarget => "serving target"@,
    }
}

/// The words of a structural error.
pub open spec fn structural_message(e: StructuralErrorView) -> Seq<char> {
    match e {
        StructuralErrorView::DuplicateName { kind, name } => "duplicate "@ + kind_word(kind)
            + " name '"@ + name + "'"@,
        StructuralErrorView::UnknownDependency { transformation, missing } => "transformation '"@
            + transformation + "' depends on '"@ + missing + "', which is not declared"@,
        StructuralErrorView::UnknownDataSource { serving_target, missing } => "serving target '"@
            + serving_target + "' reads from '"@ + missing + "', which is not declared"@,
    }
}

/// The names of the sources, in declaration order.
pub open spec fn source_names(s: Seq<SourceView>) -> Seq<Seq<char>> {
    s.map_values(|x: SourceView| x.name)
}

/// The names of the transformations, in declaration order.
pub open spec fn transformation_names(s: Seq<TransformationView>) -> Seq<Seq<char>> {
    s.map_values(|x: TransformationView| x.name)
}

/// The names of the serving targets, in declaration order.
pub open spec fn serving_names(s: Seq<ServingView>) -> Seq<Seq<char>> {
    s.map_values(|x: ServingView| x.name)
}

/// The names that a serving target may read from: those of the
/// transformations, then those of the sources.
pub open spec fn data_source_names(d: StackView) -> Seq<Seq<char>> {
    transformation_names(d.transformations) + source_names(d.sources)
}

/// Position `j` holds the first name that an earlier position holds too.
pub open spec fn is_first_duplicate(names: Seq<Seq<char>>, j: int) -> bool {
    &&& 0 <= j < names.len()
    &&& names.take(j).no_duplicates()
    &&& names.take(j).contains(names[j])
}

/// Every name of `refs` occurs in `known`.
pub open spec fn all_known(refs: Seq<Seq<char>>, known: Seq<Seq<char>>) -> bool {
    forall|k: int| 0 <= k < refs.len() ==> known.contains(#[trigger] refs[k])
}

/// Position `k` holds the first name of `refs` that does not occur in
/// `known`.
pub open spec fn is_first_missing(refs: Seq<Seq<char>>, known: Seq<Seq<char>>, k: int) -> bool {
    &&& 0 <= k < refs.len()
    &&& !known.contains(refs[k])
    &&& all_known(refs.take(k), known)
}

/// Every dependency of the first `i` transformations is the name of a
/// transformation.
pub open spec fn resolve_up_to(ts: Seq<TransformationView>, i: int) -> bool {
    forall|j: int| 0 <= j < i ==> all_known((#[trigger] ts[j]).depends_on, transformation_names(ts))
}

/// Every dependency of every transformation is the name of a
/// transformation.
pub open spec fn dependencies_resolve(ts: Seq<TransformationView>) -> bool {
    resolve_up_to(ts, ts.len() as int)
}

/// The transformations have names of their own and depend on each other
/// only.
pub open spec fn transformations_valid(ts: Seq<TransformationView>) -> bool {
    &&& transformation_names(ts).no_duplicates()
    &&& dependencies_resolve(ts)
}

/// Every data source of every serving target is the name of a
/// transformation or of a source.
pub open spec fn data_sources_resolve(d: StackView) -> bool {
    sources_resolve_up_to(d, d.serving.len() as int)
}

/// Within each entity class no name occurs twice, and every reference is
/// to a declared name.
pub open spec fn structurally_valid(d: StackView) -> bool {
    &&& source_names(d.sources).no_duplicates()
    &&& transformations_valid(d.transformations)
    &&& serving_names(d.serving).no_duplicates()
    &&& data_sources_resolve(d)
}

/// `e` is the first fault of the transformations: the first name that
/// occurs twice or, where none does, the first dependency of the first
/// transformation that names no transformation.
pub open spec fn is_transformation_fault(ts: Seq<TransformationView>, e: StructuralErrorView) -> bool {
    let names = transformation_names(ts);
    match e {
        StructuralErrorView::DuplicateName { kind, name } => {
            &&& kind == EntityKind::Transformation
            &&& exists|j: int| #[trigger] is_first_duplicate(names, j) && name == names[j]
        },
        StructuralErrorView::UnknownDependency { transformation, missing } => {
            &&& names.no_duplicates()
            &&& exists|i: int, k: int|
                {
                    &&& 0 <= i < ts.len()
                    &&& resolve_up_to(ts, i)
                    &&& #[trigger] is_first_missing(ts[i].depends_on, names, k)
                    &&& transformation == ts[i].name
                    &&& missing == ts[i].depends_on[k]
                }
        },
        StructuralErrorView::UnknownDataSource { .. } => false,
    }
}

/// `e` is the first fault of the descriptor, where the sources are checked
/// first, then the transformations, then the serving targets.
pub open spec fn is_first_fault(d: StackView, e: StructuralErrorView) -> bool {
    match e {
        StructuralErrorView::DuplicateName { kind: EntityKind::Source, name } => {
            exists|j: int| #[trigger]
                is_first_duplicate(source_names(d.sources), j) && name == source_names(d.sources)[j]
        },
        StructuralErrorView::DuplicateName { kind: EntityKind::ServingTarget, name } => {
            &&& source_names(d.sources).no_duplicates()
            &&& transformations_valid(d.transformations)
            &&& exists|j: int| #[trigger]
                is_first_duplicate(serving_names(d.serving), j) && name == serving_names(
                    d.serving,
                )[j]
        },
        StructuralErrorView::UnknownDataSource { serving_target, missing } => {
            &&& source_names(d.sources).no_duplicates()
            &&& transformations_valid(d.transformations)
            &&& serving_names(d.serving).no_duplicates()
            &&& exists|i: int, k: int|
                {
                    &&& 0 <= i < d.serving.len()
                    &&& sources_resolve_up_to(d, i)
                    &&& #[trigger] is_first_missing(d.serving[i].data_sources, data_source_names(d), k)
                    &&& serving_target == d.serving[i].name
                    &&& missing == d.serving[i].data_sources[k]
                }
        },
        _ => source_names(d.sources).no_duplicates() && is_transformation_fault(d.transformations, e),
    }
}

/// Only one position is the first to repeat a name, and where there is one
/// the names are not all different.
pub proof fn lemma_first_duplicate_unique(names: Seq<Seq<char>>, a: int, b: int)
    requires
        is_first_duplicate(names, a),
        is_first_duplicate(names, b),
    ensures
        a == b,
        !names.no_duplicates(),
{
    let i = choose|i: int| 0 <= i < names.take(a).len() && names.take(a)[i] == names[a];
    assert(names[i] == names[a]);
    if a < b {
        assert(names.take(b)[i] == names.take(b)[a]);
    }
    let j = choose|j: int| 0 <= j < names.take(b).len() && names.take(b)[j] == names[b];
    if b < a {
        assert(names[j] == names[b]);
        assert(names.take(a)[j] == names.take(a)[b]);
    }
}

/// Only one position is the first to hold an unknown name, and where
/// there is one not every name is known.
pub proof fn lemma_first_missing_unique(refs: Seq<Seq<char>>, known: Seq<Seq<char>>, a: int, b: int)
    requires
        is_first_missing(refs, known, a),
        is_first_missing(refs, known, b),
    ensures
        a == b,
        !all_known(refs, known),
{
    if a < b {
        assert(refs.take(b)[a] == refs[a]);
    }
    if b < a {
        assert(refs.take(a)[b] == refs[b]);
    }
}

/// The transformations have one first fault at most, and none where their
/// structure is sound.
pub proof fn lemma_transformation_fault_unique(
    ts: Seq<TransformationView>,
    a: StructuralErrorView,
    b: StructuralErrorView,
)
    requires
        is_transformation_fault(ts, a),
        is_transformation_fault(ts, b),
    ensures
        a == b,
        !transformations_valid(ts),
{
    let names = transformation_names(ts);
    match (a, b) {
        (
            StructuralErrorView::DuplicateName { name: na, .. },
            StructuralErrorView::DuplicateName { name: nb, .. },
        ) => {
            let ja = choose|j: int| #[trigger] is_first_duplicate(names, j) && na == names[j];
            let jb = choose|j: int| #[trigger] is_first_duplicate(names, j) && nb == names[j];
            lemma_first_duplicate_unique(names, ja, jb);
        },
        (StructuralErrorView::DuplicateName { name: na, .. }, _) => {
            let ja = choose|j: int| #[trigger] is_first_duplicate(names, j) && na == names[j];
            lemma_first_duplicate_unique(names, ja, ja);
        },
        (_, StructuralErrorView::DuplicateName { name: nb, .. }) => {
            let jb = choose|j: int| #[trigger] is_first_duplicate(names, j) && nb == names[j];
            lemma_first_duplicate_unique(names, jb, jb);
        },
        (
            StructuralErrorView::UnknownDependency { transformation: ta, missing: ma },
            StructuralErrorView::UnknownDependency { transformation: tb, missing: mb },
        ) => {
            let (ia, ka) = choose|i: int, k: int|
                {
                    &&& 0 <= i < ts.len()
                    &&& resolve_up_to(ts, i)
                    &&& #[trigger] is_first_missing(ts[i].depends_on, names, k)
                    &&& ta == ts[i].name
                    &&& ma == ts[i].depends_on[k]
                };
            let (ib, kb) = choose|i: int, k: int|
                {
                    &&& 0 <= i < ts.len()
                    &&& resolve_up_to(ts, i)
                    &&& #[trigger] is_first_missing(ts[i].depends_on, names, k)
                    &&& tb == ts[i].name
                    &&& mb == ts[i].depends_on[k]
                };
            lemma_first_missing_unique(ts[ia].depends_on, names, ka, ka);
            lemma_first_missing_unique(ts[ib].depends_on, names, kb, kb);
            if ia < ib {
                assert(all_known(ts[ia].depends_on, names));
            } else if ib < ia {
                assert(all_known(ts[ib].depends_on, names));
            } else {
                lemma_first_missing_unique(ts[ia].depends_on, names, ka, kb);
            }
            assert(!all_known(ts[ia].depends_on, names));
        },
        _ => {},
    }
}

/// Every data source of the first `i` serving targets is declared.
pub open spec fn sources_resolve_up_to(d: StackView, i: int) -> bool {
    forall|j: int| 0 <= j < i ==> all_known((#[trigger] d.serving[j]).data_sources, data_source_names(d))
}

/// A descriptor has one first fault at most, and none where its structure
/// is sound: checking the structure has one outcome.
pub proof fn lemma_first_fault_unique(d: StackView, a: StructuralErrorView, b: StructuralErrorView)
    requires
        is_first_fault(d, a),
        is_first_fault(d, b),
    ensures
        a == b,
        !structurally_valid(d),
{
    lemma_fault_class(d, a);
    lemma_fault_class(d, b);
    let sn = source_names(d.sources);
    let vn = serving_names(d.serving);
    match (a, b) {
        (
            StructuralErrorView::DuplicateName { kind: EntityKind::Source, name: na },
            StructuralErrorView::DuplicateName { kind: EntityKind::Source, name: nb },
        ) => {
            let ja = choose|j: int| #[trigger] is_first_duplicate(sn, j) && na == sn[j];
            let jb = choose|j: int| #[trigger] is_first_duplicate(sn, j) && nb == sn[j];
            lemma_first_duplicate_unique(sn, ja, jb);
        },
        (
            StructuralErrorView::DuplicateName { kind: EntityKind::ServingTarget, name: na },
            StructuralErrorView::DuplicateName { kind: EntityKind::ServingTarget, name: nb },
        ) => {
            let ja = choose|j: int| #[trigger] is_first_duplicate(vn, j) && na == vn[j];
            let jb = choose|j: int| #[trigger] is_first_duplicate(vn, j) && nb == vn[j];
            lemma_first_duplicate_unique(vn, ja, jb);
        },
        (
            StructuralErrorView::UnknownDataSource { serving_target: ta, missing: ma },
            StructuralErrorView::UnknownDataSource { serving_target: tb, missing: mb },
        ) => {
            let known = data_source_names(d);
            let (ia, ka) = choose|i: int, k: int|
                {
                    &&& 0 <= i < d.serving.len()
                    &&& sources_resolve_up_to(d, i)
                    &&& #[trigger] is_first_missing(d.serving[i].data_sources, known, k)
                    &&& ta == d.serving[i].name
                    &&& ma == d.serving[i].data_sources[k]
                };
            let (ib, kb) = choose|i: int, k: int|
                {
                    &&& 0 <= i < d.serving.len()
                    &&& sources_resolve_up_to(d, i)
                    &&& #[trigger] is_first_missing(d.serving[i].data_sources, known, k)
                    &&& tb == d.serving[i].name
                    &&& mb == d.serving[i].data_sources[k]
                };
            lemma_first_missing_unique(d.serving[ia].data_sources, known, ka, ka);
            lemma_first_missing_unique(d.serving[ib].data_sources, known, kb, kb);
            if ia < ib {
                assert(all_known(d.serving[ia].data_sources, known));
            } else if ib < ia {
                assert(all_known(d.serving[ib].data_sources, known));
            } else {
                lemma_first_missing_unique(d.serving[ia].data_sources, known, ka, kb);
            }
        },
        (
            StructuralErrorView::DuplicateName { kind: EntityKind::Source, .. },
            _,
        ) | (_, StructuralErrorView::DuplicateName { kind: EntityKind::Source, .. }) => {},
        (
            StructuralErrorView::DuplicateName { kind: EntityKind::ServingTarget, .. },
            _,
        ) | (_, StructuralErrorView::DuplicateName { kind: EntityKind::ServingTarget, .. }) => {},
        (StructuralErrorView::UnknownDataSource { .. }, _) | (
            _,
            StructuralErrorView::UnknownDataSource { .. },
        ) => {},
        _ => {
            lemma_transformation_fault_unique(d.transformations, a, b);
        },
    }
}

/// What the first fault says of the descriptor: which class is at fault,
/// and that the classes before it are sound.
proof fn lemma_fault_class(d: StackView, e: StructuralErrorView)
    requires
        is_first_fault(d, e),
    ensures
        !structurally_valid(d),
        match e {
            StructuralErrorView::DuplicateName { kind: EntityKind::Source, .. } => !source_names(
                d.sources,
            ).no_duplicates(),
            StructuralErrorView::DuplicateName { kind: EntityKind::ServingTarget, .. } => {
                &&& source_names(d.sources).no_duplicates()
                &&& transformations_valid(d.transformations)
                &&& !serving_names(d.serving).no_duplicates()
            },
            StructuralErrorView::UnknownDataSource { .. } => {
                &&& source_names(d.sources).no_duplicates()
                &&& transformations_valid(d.transformations)
                &&& serving_names(d.serving).no_duplicates()
            },
            _ => source_names(d.sources).no_duplicates() && !transformations_valid(d.transformations),
        },
{
    let sn = source_names(d.sources);
    let vn = serving_names(d.serving);
    match e {
        StructuralErrorView::DuplicateName { kind: EntityKind::Source, name } => {
            let j = choose|j: int| #[trigger] is_first_duplicate(sn, j) && name == sn[j];
            lemma_first_duplicate_unique(sn, j, j);
        },
        StructuralErrorView::DuplicateName { kind: EntityKind::ServingTarget, name } => {
            let j = choose|j: int| #[trigger] is_first_duplicate(vn, j) && name == vn[j];
            lemma_first_duplicate_unique(vn, j, j);
        },
        StructuralErrorView::UnknownDataSource { serving_target, missing } => {
            let known = data_source_names(d);
            let (i, k) = choose|i: int, k: int|
                {
                    &&& 0 <= i < d.serving.len()
                    &&& sources_resolve_up_to(d, i)
                    &&& #[trigger] is_first_missing(d.serving[i].data_sources, known, k)
                    &&& serving_target == d.serving[i].name
                    &&& missing == d.serving[i].data_sources[k]
                };
            lemma_first_missing_unique(d.serving[i].data_sources, known, k, k);
        },
        _ => {
            lemma_transformation_fault_unique(d.transformations, e, e);
        },
    }
}

/// The first position of `names` that holds a name for the second time.
pub fn first_duplicate(names: &Vec<String>) -> (r: Option<usize>)
    ensures
        match r {
            Some(j) => is_first_duplicate(views(names@), j as int),
            None => views(names@).no_duplicates(),
        },
{
    let ghost all = views(names@);
    let mut j: usize = 0;
    while j < names.len()
        invariant
            j <= names@.len(),
            all == views(names@),
            all.take(j as int).no_duplicates(),
        decreases names@.len() - j,
    {
        let found = find_name(names, &names[j]);
        assert(all[j as int] == names@[j as int]@);
        assert(all.contains(all[j as int]));
        if let Some(i) = found {
            if i < j {
                assert(all.take(j as int)[i as int] == all[j as int]);
                return Some(j);
            }
        }
        proof {
            // The name at `j` does not occur before `j`.
            let next = all.take(j + 1);
            let prev = all.take(j as int);
            assert forall|a: int, b: int| 0 <= a < next.len() && 0 <= b < next.len() && a != b implies next[a]
                != next[b] by {
                if a < j && b < j {
                    assert(prev[a] != prev[b]);
                }
            }
        }
        j += 1;
    }
    assert(all.take(names@.len() as int) =~= all);
    None
}

/// The first position of `refs` that holds a name which `known` lacks.
pub fn first_missing(refs: &Vec<String>, known: &Vec<String>) -> (r: Option<usize>)
    ensures
        match r {
            Some(k) => is_first_missing(views(refs@), views(known@), k as int),
            None => all_known(views(refs@), views(known@)),
        },
{
    let mut k: usize = 0;
    while k < refs.len()
        invariant
            k <= refs@.len(),
            all_known(views(refs@).take(k as int), views(known@)),
        decreases refs@.len() - k,
    {
        if find_name(known, &refs[k]).is_none() {
            return Some(k);
        }
        proof {
            let before = views(refs@).take(k as int);
            let after = views(refs@).take(k + 1);
            assert forall|j: int| 0 <= j < after.len() implies views(known@).contains(
                #[trigger] after[j],
            ) by {
                if j < k {
                    assert(after[j] == before[j]);
                }
            }
        }
        k += 1;
    }
    assert(views(refs@).take(refs@.len() as int) =~= views(refs@));
    None
}

/// The names of the transformations, in declaration order.
pub fn names_of_transformations(ts: &Vec<TransformationConfig>) -> (r: Vec<String>)
    ensures
        views(r@) == transformation_names(views(ts@)),
{
    let mut r: Vec<String> = Vec::new();
    let mut i: usize = 0;
    while i < ts.len()
        invariant
            i <= ts@.len(),
            r@.len() == i,
            forall|j: int| 0 <= j < i ==> r@[j]@ == ts@[j].name@,
        decreases ts@.len() - i,
    {
        r.push(copy_string(&ts[i].name));
        i += 1;
    }
    assert(views(r@) =~= transformation_names(views(ts@)));
    r
}

/// Checks the transformations: no name twice, every dependency declared.
pub fn check_transformations(ts: &Vec<TransformationConfig>) -> (r: Result<(), StructuralError>)
    ensures
        r is Ok <==> transformations_valid(views(ts@)),
        r matches Err(e) ==> is_transformation_fault(views(ts@), e@),
{
    let names = names_of_transformations(ts);
    let ghost tv = views(ts@);
    if let Some(j) = first_duplicate(&names) {
        proof {
            let all = views(names@);
            let i = choose|i: int| 0 <= i < all.take(j as int).len() && all.take(j as int)[i] == all[j as int];
            assert(all[i] == all[j as int]);
        }
        return Err(
            StructuralError::DuplicateName {
                kind: EntityKind::Transformation,
                name: copy_string(&names[j]),
            },
        );
    }
    let mut i: usize = 0;
    while i < ts.len()
        invariant
            i <= ts@.len(),
            tv == views(ts@),
            views(names@) == transformation_names(tv),
            views(names@).no_duplicates(),
            resolve_up_to(tv, i as int),
        decreases ts@.len() - i,
    {
        if let Some(k) = first_missing(&ts[i].depends_on, &names) {
            proof {
                assert(tv[i as int].depends_on == views(ts@[i as int].depends_on@));
                assert(is_first_missing(tv[i as int].depends_on, transformation_names(tv), k as int));
                assert(!all_known(tv[i as int].depends_on, transformation_names(tv)));
            }
            return Err(
                StructuralError::UnknownDependency {
                    transformation: copy_string(&ts[i].name),
                    missing: copy_string(&ts[i].depends_on[k]),
                },
            );
        }
        assert(tv[i as int].depends_on == views(ts@[i as int].depends_on@));
        i += 1;
    }
    Ok(())
}

/// The names of the sources, in declaration order.
pub fn names_of_sources(sources: &Vec<Source>) -> (r: Vec<String>)
    ensures
        views(r@) == source_names(views(sources@)),
{
    let mut r: Vec<String> = Vec::new();
    let mut i: usize = 0;
    while i < sources.len()
        invariant
            i <= sources@.len(),
            r@.len() == i,
            forall|j: int| 0 <= j < i ==> r@[j]@ == sources@[j].name@,
        decreases sources@.len() - i,
    {
        r.push(copy_string(&sources[i].name));
        i += 1;
    }
    assert(views(r@) =~= source_names(views(sources@)));
    r
}

/// The names of the serving targets, in declaration order.
pub fn names_of_serving(serving: &Vec<ServingTarget>) -> (r: Vec<String>)
    ensures
        views(r@) == serving_names(views(serving@)),
{
    let mut r: Vec<String> = Vec::new();
    let mut i: usize = 0;
    while i < serving.len()
        invariant
            i <= serving@.len(),
            r@.len() == i,
            forall|j: int| 0 <= j < i ==> r@[j]@ == serving@[j].name@,
        decreases serving@.len() - i,
    {
        r.push(copy_string(&serving[i].name));
        i += 1;
    }
    assert(views(r@) =~= serving_names(views(serving@)));
    r
}

impl StackDescriptor {
    /// Checks the structure of the descriptor: within each entity class
    /// every name is used once, every dependency names a transformation,
    /// and every data source names a transformation or a source.  Of
    /// several faults the first is reported: the sources are checked
    /// first, then the transformations, then the serving targets.
    pub fn validate_structure(&self) -> (r: Result<(), StructuralError>)
        ensures
            r is Ok <==> structurally_valid(self@),
            r matches Err(e) ==> is_first_fault(self@, e@),
    {
        let sources = names_of_sources(&self.sources);
        if let Some(j) = first_duplicate(&sources) {
            return Err(
                StructuralError::DuplicateName {
                    kind: EntityKind::Source,
                    name: copy_string(&sources[j]),
                },
            );
        }
        match check_transformations(&self.transformations) {
            Err(e) => {
                return Err(e);
            },
            Ok(()) => {},
        }
        let serving = names_of_serving(&self.serving);
        if let Some(j) = first_duplicate(&serving) {
            return Err(
                StructuralError::DuplicateName {
                    kind: EntityKind::ServingTarget,
                    name: copy_string(&serving[j]),
                },
            );
        }
        let mut known = names_of_transformations(&self.transformations);
        let mut s: usize = 0;
        while s < sources.len()
            invariant
                s <= sources@.len(),
                views(known@) == transformation_names(self@.transformations) + views(sources@).take(
                    s as int,
                ),
            decreases sources@.len() - s,
        {
            let ghost before = views(known@);
            known.push(copy_string(&sources[s]));
            assert(views(known@) =~= before.push(sources@[s as int]@));
            assert(views(sources@).take(s + 1) =~= views(sources@).take(s as int).push(
                sources@[s as int]@,
            ));
            s += 1;
        }
        assert(views(sources@).take(sources@.len() as int) =~= views(sources@));
        let ghost d = self@;
        assert(views(known@) =~= data_source_names(d));
        let mut i: usize = 0;
        while i < self.serving.len()
            invariant
                i <= self.serving@.len(),
                d == self@,
                views(known@) == data_source_names(d),
                source_names(d.sources).no_duplicates(),
                transformations_valid(d.transformations),
                serving_names(d.serving).no_duplicates(),
                sources_resolve_up_to(d, i as int),
            decreases self.serving@.len() - i,
        {
            assert(d.serving[i as int].data_sources == views(self.serving@[i as int].data_sources@));
            if let Some(k) = first_missing(&self.serving[i].data_sources, &known) {
                proof {
                    assert(is_first_missing(d.serving[i as int].data_sources, data_source_names(d), k as int));
                    assert(!all_known(d.serving[i as int].data_sources, data_source_names(d)));
                }
                return Err(
                    StructuralError::UnknownDataSource {
                        serving_target: copy_string(&self.serving[i].name),
                        missing: copy_string(&self.serving[i].data_sources[k]),
                    },
                );
            }
            i += 1;
        }
        Ok(())
    }
}

} // verus!
