//! The documents the validator exchanges, as plain values: a resource
//! identifier, an operation outcome and its issues, and the request and
//! response shells around one validation call.

use vstd::prelude::*;

verus! {

/// A FHIR resource document; the library reads only its type identifier.
pub struct FhirResource {
    pub resource_type: String,
}

/// Free-text detail attached to an issue.
pub struct CodeableConcept {
    pub text: Option<String>,
}

impl DeepView for CodeableConcept {
    type V = Option<Seq<char>>;

    open spec fn deep_view(&self) -> Option<Seq<char>> {
        self.text.deep_view()
    }
}

/// One reported problem within an outcome.
pub struct Issue {
    pub severity: Option<String>,
    pub code: Option<String>,
    pub diagnostics: Option<String>,
    pub details: Option<CodeableConcept>,
    pub location: Vec<String>,
    pub expression: Vec<String>,
}

/// The mathematical content of an [`Issue`].
pub ghost struct IssueView {
    pub severity: Option<Seq<char>>,
    pub code: Option<Seq<char>>,
    pub diagnostics: Option<Seq<char>>,
    pub details: Option<Option<Seq<char>>>,
    pub location: Seq<Seq<char>>,
    pub expression: Seq<Seq<char>>,
}

impl View for Issue {
    type V = IssueView;

    open spec fn view(&self) -> IssueView {
        IssueView {
            severity: self.severity.deep_view(),
            code: self.code.deep_view(),
            diagnostics: self.diagnostics.deep_view(),
            details: self.details.deep_view(),
            location: self.location.deep_view(),
            expression: self.expression.deep_view(),
        }
    }
}

/// The decoded result document of one validation call: zero or more
/// issues.
pub struct OperationOutcome {
    pub resource_type: Option<String>,
    pub issue: Vec<Issue>,
}

impl OperationOutcome {
    /// The outcome that reports no issues.
    pub fn empty() -> (r: Self)
        ensures
            r.resource_type is None,
            r.issue@.len() == 0,
    {
        Self { resource_type: None, issue: Vec::new() }
    }
}

/// Shields the pipeline from an undecodable response body: where decoding
/// the body failed, the result is the outcome with no issues, so that the
/// status code stays the sole failure signal.
pub fn parse_operation_outcome(decoded: Option<OperationOutcome>) -> (r: OperationOutcome)
    ensures
        decoded is None ==> r.resource_type is None && r.issue@.len() == 0,
        decoded is Some ==> r == decoded->Some_0,
{
    match decoded {
        Some(outcome) => outcome,
        None => OperationOutcome::empty(),
    }
}

/// A validation request: the raw document to submit and its resource type.
pub struct ValidateRequest {
    pub raw: String,
    pub resource_type: String,
}

/// A fully resolved validation response: status code, body text, and the
/// URL that was posted to.
pub struct ValidateResponse {
    pub status: u16,
    pub body_text: String,
    pub url: String,
}

/// `s` without its trailing `/` characters.
pub open spec fn trim_trailing_slashes(s: Seq<char>) -> Seq<char>
    decreases s.len(),
{
    if s.len() > 0 && s.last() == '/' {
        trim_trailing_slashes(s.drop_last())
    } else {
        s
    }
}

proof fn lemma_trim_take(s: Seq<char>, cut: int)
    requires
        0 <= cut <= s.len(),
        forall|j: int| cut <= j < s.len() ==> s[j] == '/',
        cut > 0 ==> s[cut - 1] != '/',
    ensures
        trim_trailing_slashes(s) == s.take(cut),
    decreases s.len() - cut,
{
    if cut == s.len() {
        assert(s.take(cut) =~= s);
    } else {
        assert(s.last() == '/');
        lemma_trim_take(s.drop_last(), cut);
        assert(s.drop_last().take(cut) =~= s.take(cut));
    }
}

/// Builds the `$validate` endpoint URL: the base URL without trailing
/// slashes, the resource type, and the operation name.
pub fn build_validate_url(base_url: &str, resource_type: &str) -> (r: String)
    ensures
        r@ == trim_trailing_slashes(base_url@) + "/"@ + resource_type@ + "/$validate"@,
{
    let n = base_url.unicode_len();
    let mut cut = n;
    while cut > 0 && base_url.get_char(cut - 1) == '/'
        invariant
            0 <= cut <= n,
            n == base_url@.len(),
            forall|j: int| cut <= j < n ==> base_url@[j] == '/',
        decreases cut,
    {
        cut = cut - 1;
    }
    proof {
        lemma_trim_take(base_url@, cut as int);
    }
    let mut url = String::new();
    url.append(base_url.substring_char(0, cut));
    url.append("/");
    url.append(resource_type);
    url.append("/$validate");
    proof {
        assert(base_url@.subrange(0, cut as int) =~= base_url@.take(cut as int));
    }
    url
}

} // verus!
