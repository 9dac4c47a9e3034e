//! Results and choices.

use crate::label_map::LabelMap;
use crate::scalar::Scalar;
use crate::text;
use serde_json::Value;
use vstd::prelude::*;

verus! {

/// How much of a label was scored: `scored` of `total` tokens. A label
/// without tokens is fully covered.
#[derive(Debug, Clone, Copy, PartialEq, Eq, Structural)]
pub struct Coverage {
    pub scored: usize,
    pub total: usize,
}

/// Diagnostics kept beside a result.
#[derive(Debug, Clone)]
pub enum RawResponse {
    /// Nothing was kept.
    Empty,
    /// Per label: its score, and the log probabilities of its tokens.
    MultiCall { logprobs: LabelMap<Scalar>, token_logprobs: LabelMap<Vec<Scalar>> },
    /// Per label: its first score, its tokens, the log probabilities last
    /// used for it, and how many of its tokens they cover.
    Adaptive {
        logprobs: LabelMap<Scalar>,
        token_sequences: LabelMap<Vec<String>>,
        step_logprobs: LabelMap<Vec<Scalar>>,
        scored_lengths: LabelMap<usize>,
    },
    /// Diagnostics of any other shape.
    Other(Value),
}

/// Result of a classification operation.
#[derive(Debug, Clone)]
pub struct ClassificationResult {
    /// The predicted class label.
    pub prediction: String,
    /// Confidence score for the prediction (0.0 to 1.0).
    pub confidence: Scalar,
    /// Probability distribution over all choices.
    pub probabilities: LabelMap<Scalar>,
    /// How the result was produced: `"multi_call"` or `"adaptive_generate"`.
    pub method: String,
    /// `true` when the adaptive path could not score every token of every
    /// label within its budget.
    pub approximate: bool,
    /// Per label, how much of it was scored (empty for `multi_call`).
    pub coverage: LabelMap<Coverage>,
    /// Number of backend calls made to produce this result.
    pub n_calls: i64,
    /// Diagnostics, when retained.
    pub raw_response: RawResponse,
}

/// The method of a result that names none.
pub fn default_method() -> (r: String)
    ensures
        r@ == "multi_call"@,
{
    "multi_call".to_owned()
}

/// The number of calls of a result that names none.
pub fn default_n_calls() -> (r: i64)
    ensures
        r == 1,
{
    1
}

impl ClassificationResult {
    /// Create a result for the multi-call completion-scoring path. Every label
    /// is fully scored by definition, so `coverage` is empty.
    pub fn new_multi_call(
        prediction: String,
        confidence: Scalar,
        probabilities: LabelMap<Scalar>,
        n_calls: i64,
    ) -> (r: Self)
        ensures
            r.prediction == prediction,
            r.confidence == confidence,
            r.probabilities == probabilities,
            r.method@ == "multi_call"@,
            !r.approximate,
            r.coverage@ == Map::<Seq<char>, Coverage>::empty(),
            r.n_calls == n_calls,
            r.raw_response is Empty,
    {
        ClassificationResult {
            prediction,
            confidence,
            probabilities,
            method: "multi_call".to_owned(),
            approximate: false,
            coverage: LabelMap::new(),
            n_calls,
            raw_response: RawResponse::Empty,
        }
    }

    /// Create a result for the adaptive constrained-generation path.
    pub fn new_adaptive(
        prediction: String,
        confidence: Scalar,
        probabilities: LabelMap<Scalar>,
        coverage: LabelMap<Coverage>,
        n_calls: i64,
        approximate: bool,
    ) -> (r: Self)
        ensures
            r.prediction == prediction,
            r.confidence == confidence,
            r.probabilities == probabilities,
            r.method@ == "adaptive_generate"@,
            r.approximate == approximate,
            r.coverage == coverage,
            r.n_calls == n_calls,
            r.raw_response is Empty,
    {
        ClassificationResult {
            prediction,
            confidence,
            probabilities,
            method: "adaptive_generate".to_owned(),
            approximate,
            coverage,
            n_calls,
            raw_response: RawResponse::Empty,
        }
    }
}

/// Choices: either a simple list of labels, or a map from label to
/// description.
#[derive(Debug, Clone)]
pub enum Choices {
    /// Simple list of choice labels.
    Labels(Vec<String>),
    /// Map from label to description.
    Descriptions(LabelMap<String>),
}

/// Another name for [`Choices`].
pub type ChoicesType = Choices;

impl Choices {
    /// The labels to choose from, in order.
    pub open spec fn spec_labels(self) -> Seq<Seq<char>> {
        match self {
            Choices::Labels(v) => text::texts(v@),
            Choices::Descriptions(m) => m.keys(),
        }
    }

    /// Extract the choice labels from either format.
    pub fn labels(&self) -> (r: Vec<String>)
        ensures
            text::texts(r@) == self.spec_labels(),
    {
        match self {
            Choices::Labels(v) => text::copy_texts(v.as_slice()),
            Choices::Descriptions(m) => m.all_keys(),
        }
    }

    /// Check if choices is a descriptions map.
    pub fn is_descriptions(&self) -> (r: bool)
        ensures
            r == (self is Descriptions),
    {
        matches!(self, Choices::Descriptions(_))
    }
}

impl From<Vec<String>> for Choices {
    fn from(v: Vec<String>) -> (r: Self) {
        Choices::Labels(v)
    }
}

impl vstd::std_specs::convert::FromSpecImpl<Vec<String>> for Choices {
    open spec fn obeys_from_spec() -> bool {
        true
    }

    open spec fn from_spec(v: Vec<String>) -> Self {
        Choices::Labels(v)
    }
}

impl From<LabelMap<String>> for Choices {
    fn from(m: LabelMap<String>) -> (r: Self) {
        Choices::Descriptions(m)
    }
}

impl vstd::std_specs::convert::FromSpecImpl<LabelMap<String>> for Choices {
    open spec fn obeys_from_spec() -> bool {
        true
    }

    open spec fn from_spec(m: LabelMap<String>) -> Self {
        Choices::Descriptions(m)
    }
}

impl From<Vec<&str>> for Choices {
    fn from(v: Vec<&str>) -> (r: Self)
        ensures
            r is Labels,
            r.spec_labels() == v@.map_values(|s: &str| s@),
    {
        let mut labels: Vec<String> = Vec::new();
        let n: usize = v.len();
        for i in 0..n
            invariant
                n == v@.len(),
                labels@.len() == i,
                forall|j: int| 0 <= j < i ==> (#[trigger] labels@[j])@ == v@[j]@,
        {
            labels.push(v[i].to_owned());
        }
        assert(text::texts(labels@) =~= v@.map_values(|s: &str| s@));
        Choices::Labels(labels)
    }
}

impl vstd::std_specs::convert::FromSpecImpl<Vec<&str>> for Choices {
    open spec fn obeys_from_spec() -> bool {
        false
    }

    open spec fn from_spec(v: Vec<&str>) -> Self {
        arbitrary()
    }
}

} // verus!
