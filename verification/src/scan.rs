//! The log-scan tallies: counting lines that mention errors or warnings,
//! and formatting the scan summary.

use vstd::prelude::*;
use crate::text::{
    contains_sub, dec_digits, lower_of, seq_views, str_contains, to_lowercase, u64_to_dec,
};

verus! {

/// A line counts as an error line when its lowercased text mentions
/// `error`.
pub open spec fn spec_is_error_line(s: Seq<char>) -> bool {
    contains_sub(lower_of(s), "error"@)
}

/// A line counts as a warning line when it is not an error line and its
/// lowercased text mentions `warning`.
pub open spec fn spec_is_warning_line(s: Seq<char>) -> bool {
    !spec_is_error_line(s) && contains_sub(lower_of(s), "warning"@)
}

/// Number of error lines.
pub open spec fn count_error_lines(ls: Seq<Seq<char>>) -> int
    decreases ls.len(),
{
    if ls.len() == 0 {
        0
    } else {
        count_error_lines(ls.drop_last()) + if spec_is_error_line(ls.last()) {
            1int
        } else {
            0int
        }
    }
}

/// Number of warning lines.
pub open spec fn count_warning_lines(ls: Seq<Seq<char>>) -> int
    decreases ls.len(),
{
    if ls.len() == 0 {
        0
    } else {
        count_warning_lines(ls.drop_last()) + if spec_is_warning_line(ls.last()) {
            1int
        } else {
            0int
        }
    }
}

/// The positions of the error lines, in order.
pub open spec fn error_line_indices(ls: Seq<Seq<char>>) -> Seq<int>
    decreases ls.len(),
{
    if ls.len() == 0 {
        Seq::empty()
    } else {
        error_line_indices(ls.drop_last()) + if spec_is_error_line(ls.last()) {
            seq![ls.len() - 1]
        } else {
            Seq::empty()
        }
    }
}

/// The tallies of one scanned log.
pub struct ScanSummary {
    pub total_lines: u64,
    pub error_count: u64,
    pub warning_count: u64,
    pub error_lines: Vec<usize>,
}

/// Scans the lines of a log: tallies lines mentioning `error`, lines
/// mentioning `warning` (errors take precedence), and records where the
/// error lines stand.
pub fn scan_log(lines: &Vec<String>) -> (r: ScanSummary)
    ensures
        r.total_lines == lines@.len(),
        r.error_count == count_error_lines(seq_views(lines@)),
        r.warning_count == count_warning_lines(seq_views(lines@)),
        r.error_lines@.map_values(|u: usize| u as int) == error_line_indices(seq_views(lines@)),
{
    let ghost lv = seq_views(lines@);
    let n = lines.len();
    let mut error_count: u64 = 0;
    let mut warning_count: u64 = 0;
    let mut error_lines: Vec<usize> = Vec::new();
    let mut i: usize = 0;
    proof {
        assert(lv.take(0) =~= Seq::<Seq<char>>::empty());
        assert(error_lines@.map_values(|u: usize| u as int) =~= error_line_indices(lv.take(0)));
    }
    while i < n
        invariant
            0 <= i <= n,
            n == lines@.len(),
            lv == seq_views(lines@),
            error_count == count_error_lines(lv.take(i as int)),
            warning_count == count_warning_lines(lv.take(i as int)),
            error_count <= i && warning_count <= i,
            error_lines@.map_values(|u: usize| u as int) == error_line_indices(lv.take(i as int)),
        decreases n - i,
    {
        let low = to_lowercase(lines[i].as_str());
        proof {
            assert(lv[i as int] == lines@[i as int]@);
            assert(lv.take(i + 1).drop_last() =~= lv.take(i as int));
            assert(lv.take(i + 1).last() == lv[i as int]);
        }
        let ghost prev_idx = error_lines@;
        if str_contains(low.as_str(), "error") {
            error_count = error_count + 1;
            error_lines.push(i);
            proof {
                assert(error_lines@ == prev_idx.push(i));
                assert(error_lines@.map_values(|u: usize| u as int) =~= error_line_indices(
                    lv.take(i + 1),
                ));
            }
        } else if str_contains(low.as_str(), "warning") {
            warning_count = warning_count + 1;
            proof {
                assert(error_lines@.map_values(|u: usize| u as int) =~= error_line_indices(
                    lv.take(i + 1),
                ));
            }
        } else {
            proof {
                assert(error_lines@.map_values(|u: usize| u as int) =~= error_line_indices(
                    lv.take(i + 1),
                ));
            }
        }
        i = i + 1;
    }
    proof {
        assert(lv.take(n as int) =~= lv);
    }
    ScanSummary { total_lines: n as u64, error_count, warning_count, error_lines }
}

/// The scan summary as one JSON line.
pub open spec fn spec_scan_json(file: Seq<char>, total: int, errors: int, warnings: int) -> Seq<
    char,
> {
    "{\"file\":\""@ + file + "\",\"total_lines\":"@ + dec_digits(total) + ",\"errors\":"@
        + dec_digits(errors) + ",\"warnings\":"@ + dec_digits(warnings) + "}\n"@
}

/// The scan summary as a plain report.
pub open spec fn spec_scan_text(file: Seq<char>, total: int, errors: int, warnings: int) -> Seq<
    char,
> {
    "ClinLogix Report\n"@ + "----------------\n"@ + "File: "@ + file + "\n"@ + "Total lines: "@
        + dec_digits(total) + "\n"@ + "Errors: "@ + dec_digits(errors) + "\n"@ + "Warnings: "@
        + dec_digits(warnings) + "\n"@
}

/// Formats the scan summary, as JSON or as the plain report.
pub fn format_scan_summary(file: &str, summary: &ScanSummary, json: bool) -> (r: String)
    ensures
        json ==> r@ == spec_scan_json(
            file@,
            summary.total_lines as int,
            summary.error_count as int,
            summary.warning_count as int,
        ),
        !json ==> r@ == spec_scan_text(
            file@,
            summary.total_lines as int,
            summary.error_count as int,
            summary.warning_count as int,
        ),
{
    let mut out = String::new();
    let total = u64_to_dec(summary.total_lines);
    let errors = u64_to_dec(summary.error_count);
    let warnings = u64_to_dec(summary.warning_count);
    if json {
        out.append("{\"file\":\"");
        out.append(file);
        out.append("\",\"total_lines\":");
        out.append(total.as_str());
        out.append(",\"errors\":");
        out.append(errors.as_str());
        out.append(",\"warnings\":");
        out.append(warnings.as_str());
        out.append("}\n");
        proof {
            assert(out@ =~= spec_scan_json(
                file@,
                summary.total_lines as int,
                summary.error_count as int,
                summary.warning_count as int,
            ));
        }
    } else {
        out.append("ClinLogix Report\n");
        out.append("----------------\n");
        out.append("File: ");
        out.append(file);
        out.append("\n");
        out.append("Total lines: ");
        out.append(total.as_str());
        out.append("\n");
        out.append("Errors: ");
        out.append(errors.as_str());
        out.append("\n");
        out.append("Warnings: ");
        out.append(warnings.as_str());
        out.append("\n");
        proof {
            assert(out@ =~= spec_scan_text(
                file@,
                summary.total_lines as int,
                summary.error_count as int,
                summary.warning_count as int,
            ));
        }
    }
    out
}

} // verus!
