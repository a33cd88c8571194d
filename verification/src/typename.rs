//! The type-name registry: the bidirectional mapping between a metric type
//! tag and its fixed lowercase-hyphenated configuration string.

use vstd::prelude::*;
use vstd::string::StrSliceExecFns;

use crate::metric::{Metric, MetricError, MetricType};

verus! {

/// Metric type specification simplified to use for naming in configs etc.
///
/// `Default` has no corresponding `MetricType` variant: it is a
/// configuration-only sentinel meaning "infer from context".
#[derive(Debug, Clone, Copy, PartialEq, Eq, Hash, Structural)]
pub enum MetricTypeName {
    Default,
    Counter,
    DiffCounter,
    Timer,
    Gauge,
    ValueSet,
}

/// The fixed configuration string of a type tag.
pub open spec fn tag_string(t: MetricTypeName) -> Seq<char> {
    match t {
        MetricTypeName::Default => "default"@,
        MetricTypeName::Counter => "counter"@,
        MetricTypeName::DiffCounter => "diff-counter"@,
        MetricTypeName::Timer => "timer"@,
        MetricTypeName::Gauge => "gauge"@,
        MetricTypeName::ValueSet => "set"@,
    }
}

/// The type tag a string parses to, if it is one of the fixed strings.
pub open spec fn parse_tag(s: Seq<char>) -> Option<MetricTypeName> {
    if s == "default"@ {
        Some(MetricTypeName::Default)
    } else if s == "counter"@ {
        Some(MetricTypeName::Counter)
    } else if s == "diff-counter"@ {
        Some(MetricTypeName::DiffCounter)
    } else if s == "timer"@ {
        Some(MetricTypeName::Timer)
    } else if s == "gauge"@ {
        Some(MetricTypeName::Gauge)
    } else if s == "set"@ {
        Some(MetricTypeName::ValueSet)
    } else {
        None
    }
}

/// The type tag that names a metric's aggregation state.
pub open spec fn tag_of_type<F>(t: MetricType<F>) -> MetricTypeName {
    match t {
        MetricType::Counter => MetricTypeName::Counter,
        MetricType::DiffCounter(_) => MetricTypeName::DiffCounter,
        MetricType::Timer(_) => MetricTypeName::Timer,
        MetricType::Gauge(_) => MetricTypeName::Gauge,
        MetricType::ValueSet(_) => MetricTypeName::ValueSet,
    }
}

/// Character-for-character string comparison.
fn str_eq_check(a: &str, b: &str) -> (r: bool)
    ensures
        r <==> a@ == b@,
{
    let la = a.unicode_len();
    let lb = b.unicode_len();
    if la != lb {
        return false;
    }
    for i in 0..la
        invariant
            la == a@.len(),
            la == b@.len(),
            forall|j: int| 0 <= j < i ==> a@[j] == b@[j],
    {
        if a.get_char(i) != b.get_char(i) {
            return false;
        }
    }
    proof {
        assert(a@ =~= b@);
    }
    true
}

impl MetricTypeName {
    /// The tag that names the aggregation state of `m`.
    pub fn from_metric<F>(m: &Metric<F>) -> (r: Self)
        ensures
            r == tag_of_type(m.mtype),
    {
        match m.mtype {
            MetricType::Counter => MetricTypeName::Counter,
            MetricType::DiffCounter(_) => MetricTypeName::DiffCounter,
            MetricType::Timer(_) => MetricTypeName::Timer,
            MetricType::Gauge(_) => MetricTypeName::Gauge,
            MetricType::ValueSet(_) => MetricTypeName::ValueSet,
        }
    }

    /// Parse a configuration string into its type tag.  Any string that is
    /// not one of the fixed tag strings is a `BadTypeName` error carrying
    /// the offending string.
    pub fn try_from(s: &str) -> (r: Result<Self, MetricError>)
        ensures
            parse_tag(s@) is Some ==> (r is Ok && parse_tag(s@) == Some(r->Ok_0)),
            parse_tag(s@) is None ==> (r matches Err(e) && e matches MetricError::BadTypeName(o)
                && o@ == s@),
    {
        if str_eq_check(s, "default") {
            Ok(MetricTypeName::Default)
        } else if str_eq_check(s, "counter") {
            Ok(MetricTypeName::Counter)
        } else if str_eq_check(s, "diff-counter") {
            Ok(MetricTypeName::DiffCounter)
        } else if str_eq_check(s, "timer") {
            Ok(MetricTypeName::Timer)
        } else if str_eq_check(s, "gauge") {
            Ok(MetricTypeName::Gauge)
        } else if str_eq_check(s, "set") {
            Ok(MetricTypeName::ValueSet)
        } else {
            Err(MetricError::BadTypeName(s.to_owned()))
        }
    }

    /// The fixed configuration string of this tag.
    pub fn to_string(&self) -> (r: String)
        ensures
            r@ == tag_string(*self),
    {
        match self {
            MetricTypeName::Default => "default".to_owned(),
            MetricTypeName::Counter => "counter".to_owned(),
            MetricTypeName::DiffCounter => "diff-counter".to_owned(),
            MetricTypeName::Timer => "timer".to_owned(),
            MetricTypeName::Gauge => "gauge".to_owned(),
            MetricTypeName::ValueSet => "set".to_owned(),
        }
    }
}

/// Law: every type tag round-trips through stringify and parse.
pub proof fn lemma_tag_roundtrip(t: MetricTypeName)
    ensures
        parse_tag(tag_string(t)) == Some(t),
{
    reveal_strlit("default");
    reveal_strlit("counter");
    reveal_strlit("diff-counter");
    reveal_strlit("timer");
    reveal_strlit("gauge");
    reveal_strlit("set");
    assert("default"@.len() == 7);
    assert("counter"@.len() == 7);
    assert("diff-counter"@.len() == 12);
    assert("timer"@.len() == 5);
    assert("gauge"@.len() == 5);
    assert("set"@.len() == 3);
    assert("counter"@[0] != "default"@[0]);
    assert("counter"@ != "default"@);
    assert("gauge"@[0] != "timer"@[0]);
    assert("gauge"@ != "timer"@);
}

} // verus!
