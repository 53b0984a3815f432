//! Per-issue classification: severity and code with their fallbacks, the
//! effective message, the theme tag, and the line number embedded in
//! free-text diagnostics.

use vstd::prelude::*;
use crate::text::{
    clone_string_vec, contains_sub, digit_val, digits_value, find_sub_spec, is_digit,
    is_digit_char, is_space, leading_digits, lower_of, skip_spaces, str_contains, to_lowercase,
};
use crate::types::{Issue, IssueView};

verus! {

/// An issue together with everything the report derives from it.
#[derive(Clone)]
pub struct IssueSummary {
    pub severity: String,
    pub code: String,
    pub message: String,
    pub location: Vec<String>,
    pub expression: Vec<String>,
    pub theme: String,
    pub line: Option<u32>,
}

/// The mathematical content of an [`IssueSummary`].
#[verifier::ext_equal]
pub ghost struct IssueSummaryView {
    pub severity: Seq<char>,
    pub code: Seq<char>,
    pub message: Seq<char>,
    pub location: Seq<Seq<char>>,
    pub expression: Seq<Seq<char>>,
    pub theme: Seq<char>,
    pub line: Option<u32>,
}

impl View for IssueSummary {
    type V = IssueSummaryView;

    open spec fn view(&self) -> IssueSummaryView {
        IssueSummaryView {
            severity: self.severity@,
            code: self.code@,
            message: self.message@,
            location: self.location.deep_view(),
            expression: self.expression.deep_view(),
            theme: self.theme@,
            line: self.line,
        }
    }
}

impl DeepView for IssueSummary {
    type V = IssueSummaryView;

    open spec fn deep_view(&self) -> IssueSummaryView {
        self.view()
    }
}

/// The label of the recurring profile-resolution theme.
pub open spec fn spec_profile_theme() -> Seq<char> {
    "Profile resolution (missing profiles on server)"@
}

/// The label of the catch-all theme.
pub open spec fn spec_general_theme() -> Seq<char> {
    "General"@
}

/// The label under which profile-resolution issues are tallied.
pub fn profile_resolution_theme() -> (r: String)
    ensures
        r@ == spec_profile_theme(),
{
    String::from_str("Profile resolution (missing profiles on server)")
}

/// An issue's severity: the reported token, or `unknown` when absent.
pub open spec fn spec_severity(i: IssueView) -> Seq<char> {
    match i.severity {
        Some(s) => s,
        None => "unknown"@,
    }
}

/// An issue's code: the reported token, or `unknown` when absent.
pub open spec fn spec_code(i: IssueView) -> Seq<char> {
    match i.code {
        Some(c) => c,
        None => "unknown"@,
    }
}

/// An issue's effective message: its diagnostics, else its detail text,
/// else the empty string.
pub open spec fn spec_message(i: IssueView) -> Seq<char> {
    match i.diagnostics {
        Some(d) => d,
        None => match i.details {
            Some(Some(t)) => t,
            _ => Seq::empty(),
        },
    }
}

/// A message reports a profile-resolution failure: its lowercased text
/// holds the exact phrase, or holds both `profile` and `resolve` (the
/// looser match catches paraphrased server messages).
pub open spec fn spec_is_profile_issue(message: Seq<char>) -> bool {
    let low = lower_of(message);
    contains_sub(low, "unable to resolve reference to profile"@) || (contains_sub(low, "profile"@)
        && contains_sub(low, "resolve"@))
}

/// The theme a message classifies under.
pub open spec fn spec_theme(message: Seq<char>) -> Seq<char> {
    if spec_is_profile_issue(message) {
        spec_profile_theme()
    } else {
        spec_general_theme()
    }
}

/// The line number embedded in a message: the first run of digits after
/// the first `line:` token (whitespace skipped), absent when there is no
/// token, no digit follows it, or the value exceeds `u32`.
pub open spec fn spec_extract_line(message: Seq<char>) -> Option<u32> {
    let low = lower_of(message);
    match find_sub_spec(low, "line:"@) {
        None => None,
        Some(i) => {
            let ds = leading_digits(skip_spaces(low.skip(i + "line:"@.len() as int)));
            if ds.len() == 0 {
                None
            } else if digits_value(ds) > 0xffff_ffff {
                None
            } else {
                Some(digits_value(ds) as u32)
            }
        },
    }
}

/// Whether the message reports a profile-resolution failure.
pub fn is_profile_resolution_issue(message: &str) -> (r: bool)
    ensures
        r == spec_is_profile_issue(message@),
{
    let low = to_lowercase(message);
    let l = low.as_str();
    str_contains(l, "unable to resolve reference to profile") || (str_contains(l, "profile")
        && str_contains(l, "resolve"))
}

/// The theme label for a message.
pub fn classify_theme(message: &str) -> (r: String)
    ensures
        r@ == spec_theme(message@),
{
    if is_profile_resolution_issue(message) {
        profile_resolution_theme()
    } else {
        String::from_str("General")
    }
}

/// The maximal digit run at the front is exactly the first `k` characters
/// when those are digits and the next one is not.
proof fn lemma_leading_digits_take(s: Seq<char>, k: int)
    requires
        0 <= k <= s.len(),
        forall|j: int| 0 <= j < k ==> is_digit_char(s[j]),
        k == s.len() || !is_digit_char(s[k]),
    ensures
        leading_digits(s) == s.take(k),
    decreases k,
{
    if k == 0 {
        assert(s.take(0) =~= Seq::<char>::empty());
    } else {
        lemma_leading_digits_take(s.drop_first(), k - 1);
        assert(seq![s[0]] + s.drop_first().take(k - 1) =~= s.take(k));
    }
}

/// Extracts the line number from free-text diagnostics.
pub fn extract_line_number(message: &str) -> (r: Option<u32>)
    ensures
        r == spec_extract_line(message@),
{
    let low = to_lowercase(message);
    let l = low.as_str();
    proof {
        reveal_strlit("line:");
    }
    let start = match crate::text::find_sub(l, "line:") {
        None => {
            return None;
        },
        Some(i) => i,
    };
    proof {
        crate::text::lemma_find_sub_spec_ensures(l@, "line:"@);
    }
    let n = l.unicode_len();
    assert(start + 5 <= n);
    let mut pos = start + 5;
    let ghost after = l@.skip(start + 5);
    while pos < n && is_space(l.get_char(pos))
        invariant
            start + 5 <= pos <= n,
            n == l@.len(),
            skip_spaces(after) == skip_spaces(l@.skip(pos as int)),
        decreases n - pos,
    {
        proof {
            assert(l@.skip(pos as int).drop_first() =~= l@.skip(pos + 1));
        }
        pos = pos + 1;
    }
    let ghost rest = l@.skip(pos as int);
    proof {
        assert(skip_spaces(after) == rest);
    }
    // Measure the digit run.
    let mut k: usize = 0;
    while pos + k < n && is_digit(l.get_char(pos + k))
        invariant
            0 <= k,
            pos + k <= n,
            n == l@.len(),
            rest == l@.skip(pos as int),
            forall|j: int| 0 <= j < k ==> is_digit_char(rest[j]),
        decreases n - pos - k,
    {
        assert(rest[k as int] == l@[pos + k]);
        k = k + 1;
    }
    proof {
        lemma_leading_digits_take(rest, k as int);
        assert(leading_digits(rest) =~= rest.take(k as int));
    }
    if k == 0 {
        return None;
    }
    // Read the run's value, watching for overflow past u32.
    let ghost ds = leading_digits(rest);
    let mut val: u64 = 0;
    let mut over = false;
    let mut t: usize = 0;
    while t < k
        invariant
            0 <= t <= k,
            pos + k <= n,
            n == l@.len(),
            rest == l@.skip(pos as int),
            ds == leading_digits(rest),
            ds =~= rest.take(k as int),
            forall|j: int| 0 <= j < k ==> is_digit_char(rest[j]),
            !over ==> val == digits_value(ds.take(t as int)) && val <= 0xffff_ffff,
            over ==> digits_value(ds.take(t as int)) > 0xffff_ffff,
        decreases k - t,
    {
        let c = l.get_char(pos + t);
        assert(rest[t as int] == l@[pos + t]);
        assert(is_digit_char(c));
        let d = (c as u32) - 0x30;
        proof {
            assert(ds.take(t + 1).drop_last() =~= ds.take(t as int));
            assert(ds.take(t + 1).last() == rest[t as int]);
        }
        if over {
            proof {
                assert(digits_value(ds.take(t + 1)) == digits_value(ds.take(t as int)) * 10
                    + digit_val(rest[t as int]));
                assert(digit_val(rest[t as int]) >= 0);
            }
        } else {
            let next = val * 10 + (d as u64);
            if next > 0xffff_ffff {
                over = true;
            } else {
                val = next;
            }
        }
        t = t + 1;
    }
    proof {
        assert(ds.take(k as int) =~= ds);
    }
    if over {
        None
    } else {
        Some(val as u32)
    }
}

/// Classifies one issue: fills severity, code, and message with their
/// fallbacks, tags the theme, and extracts the embedded line number.
pub fn summarize_issue(issue: &Issue) -> (r: IssueSummary)
    ensures
        r@ == spec_summarize(issue@),
{
    let severity = match &issue.severity {
        Some(s) => s.clone(),
        None => String::from_str("unknown"),
    };
    let code = match &issue.code {
        Some(c) => c.clone(),
        None => String::from_str("unknown"),
    };
    let message = match &issue.diagnostics {
        Some(d) => d.clone(),
        None => match &issue.details {
            Some(details) => match &details.text {
                Some(t) => t.clone(),
                None => String::new(),
            },
            None => String::new(),
        },
    };
    let theme = classify_theme(message.as_str());
    let line = extract_line_number(message.as_str());
    let r = IssueSummary {
        severity,
        code,
        message,
        location: clone_string_vec(&issue.location),
        expression: clone_string_vec(&issue.expression),
        theme,
        line,
    };
    proof {
        assert(r@ =~~= spec_summarize(issue@));
    }
    r
}

/// The summary a raw issue classifies to.
pub open spec fn spec_summarize(i: IssueView) -> IssueSummaryView {
    IssueSummaryView {
        severity: spec_severity(i),
        code: spec_code(i),
        message: spec_message(i),
        location: i.location,
        expression: i.expression,
        theme: spec_theme(spec_message(i)),
        line: spec_extract_line(spec_message(i)),
    }
}

} // verus!
