//! Aggregation: classifying every issue of an outcome, tallying
//! severities and themes, and grouping issues under their composite key.

use vstd::prelude::*;
use crate::classify::{spec_summarize, summarize_issue, IssueSummary, IssueSummaryView};
use crate::text::str_eq;
use crate::types::OperationOutcome;

verus! {

/// The display form of a message: a placeholder when it is empty.
pub open spec fn spec_display_message(msg: Seq<char>) -> Seq<char> {
    if msg.len() == 0 {
        "(no diagnostics provided)"@
    } else {
        msg
    }
}

/// The composite key an issue groups under: severity, code, and display
/// message.
pub open spec fn spec_group_key(s: IssueSummaryView) -> Seq<char> {
    s.severity + " | "@ + s.code + " | "@ + spec_display_message(s.message)
}

/// Formats the group key of a classified issue.
pub fn group_key(summary: &IssueSummary) -> (r: String)
    ensures
        r@ == spec_group_key(summary@),
{
    let mut key = String::new();
    key.append(summary.severity.as_str());
    key.append(" | ");
    key.append(summary.code.as_str());
    key.append(" | ");
    if summary.message.unicode_len() == 0 {
        key.append("(no diagnostics provided)");
    } else {
        key.append(summary.message.as_str());
    }
    key
}

/// One group of the report: its key and its members in arrival order.
pub type GroupSeq = Seq<(Seq<char>, Seq<IssueSummaryView>)>;

/// Theme or severity tallies: label and occurrence count.
pub type CountSeq = Seq<(Seq<char>, int)>;

/// Appends `item` to the entry keyed `key`, or opens that entry.
pub open spec fn upsert_group(gs: GroupSeq, key: Seq<char>, item: IssueSummaryView) -> GroupSeq
    decreases gs.len(),
{
    if gs.len() == 0 {
        seq![(key, seq![item])]
    } else if gs[0].0 == key {
        seq![(gs[0].0, gs[0].1.push(item))] + gs.drop_first()
    } else {
        seq![gs[0]] + upsert_group(gs.drop_first(), key, item)
    }
}

/// The groups of a run: every classified issue appended, in order, to the
/// entry bearing its key; entries appear in order of first occurrence.
pub open spec fn spec_groups(items: Seq<IssueSummaryView>) -> GroupSeq
    decreases items.len(),
{
    if items.len() == 0 {
        Seq::empty()
    } else {
        upsert_group(spec_groups(items.drop_last()), spec_group_key(items.last()), items.last())
    }
}

/// Raises the count under `key` by one, or opens that count at one.
pub open spec fn bump_count(cs: CountSeq, key: Seq<char>) -> CountSeq
    decreases cs.len(),
{
    if cs.len() == 0 {
        seq![(key, 1int)]
    } else if cs[0].0 == key {
        seq![(cs[0].0, cs[0].1 + 1)] + cs.drop_first()
    } else {
        seq![cs[0]] + bump_count(cs.drop_first(), key)
    }
}

/// The theme tallies of a run, keyed in order of first occurrence.
pub open spec fn spec_theme_counts(items: Seq<IssueSummaryView>) -> CountSeq
    decreases items.len(),
{
    if items.len() == 0 {
        Seq::empty()
    } else {
        bump_count(spec_theme_counts(items.drop_last()), items.last().theme)
    }
}

/// How many items satisfy `pred`.
pub open spec fn count_matching(
    items: Seq<IssueSummaryView>,
    pred: spec_fn(IssueSummaryView) -> bool,
) -> int
    decreases items.len(),
{
    if items.len() == 0 {
        0
    } else {
        count_matching(items.drop_last(), pred) + if pred(items.last()) {
            1int
        } else {
            0int
        }
    }
}

/// A severity that counts as an error.
pub open spec fn is_error_sev(s: Seq<char>) -> bool {
    s == "error"@ || s == "fatal"@
}

/// Number of items whose severity is `error` or `fatal`.
pub open spec fn spec_error_count(items: Seq<IssueSummaryView>) -> int {
    count_matching(items, |s: IssueSummaryView| is_error_sev(s.severity))
}

/// Number of items whose severity is `warning`.
pub open spec fn spec_warning_count(items: Seq<IssueSummaryView>) -> int {
    count_matching(items, |s: IssueSummaryView| s.severity == "warning"@)
}

/// Number of items whose severity is `information`.
pub open spec fn spec_info_count(items: Seq<IssueSummaryView>) -> int {
    count_matching(items, |s: IssueSummaryView| s.severity == "information"@)
}

/// The classified views of a sequence of raw issues.
pub open spec fn spec_classified(issues: Seq<crate::types::Issue>) -> Seq<IssueSummaryView> {
    issues.map_values(|i: crate::types::Issue| spec_summarize(i@))
}

/// The view of the aggregator's group vector.
pub open spec fn groups_view(gs: Seq<(String, Vec<IssueSummary>)>) -> GroupSeq {
    gs.map_values(|p: (String, Vec<IssueSummary>)| (p.0@, p.1.deep_view()))
}

/// The view of a tally vector.
pub open spec fn counts_view(cs: Seq<(String, usize)>) -> CountSeq {
    cs.map_values(|p: (String, usize)| (p.0@, p.1 as int))
}

/// The aggregate over all classified issues of one validation run.
pub struct ValidationReport {
    pub status: u16,
    pub file: String,
    pub base_url: String,
    pub total: usize,
    pub error_count: usize,
    pub warning_count: usize,
    pub info_count: usize,
    pub groups: Vec<(String, Vec<IssueSummary>)>,
    pub theme_counts: Vec<(String, usize)>,
}

/// A report carries the classification of its own issue list: every
/// derived field equals the model of that field over the classified
/// issues.
pub open spec fn report_models(r: ValidationReport, items: Seq<IssueSummaryView>) -> bool {
    &&& r.total == items.len()
    &&& r.error_count == spec_error_count(items)
    &&& r.warning_count == spec_warning_count(items)
    &&& r.info_count == spec_info_count(items)
    &&& groups_view(r.groups@) == spec_groups(items)
    &&& counts_view(r.theme_counts@) == spec_theme_counts(items)
}

/// A first match at `i` resolves `upsert_group` to an in-place update.
proof fn lemma_upsert_group_at(gs: GroupSeq, key: Seq<char>, item: IssueSummaryView, i: int)
    requires
        0 <= i < gs.len(),
        gs[i].0 == key,
        forall|j: int| 0 <= j < i ==> gs[j].0 != key,
    ensures
        upsert_group(gs, key, item) == gs.update(i, (gs[i].0, gs[i].1.push(item))),
    decreases i,
{
    if i == 0 {
        assert(seq![(gs[0].0, gs[0].1.push(item))] + gs.drop_first() =~= gs.update(
            0,
            (gs[0].0, gs[0].1.push(item)),
        ));
    } else {
        lemma_upsert_group_at(gs.drop_first(), key, item, i - 1);
        assert(seq![gs[0]] + gs.drop_first().update(
            i - 1,
            (gs[i].0, gs[i].1.push(item)),
        ) =~= gs.update(i, (gs[i].0, gs[i].1.push(item))));
    }
}

/// With no matching key, `upsert_group` opens a new entry at the end.
proof fn lemma_upsert_group_missing(gs: GroupSeq, key: Seq<char>, item: IssueSummaryView)
    requires
        forall|j: int| 0 <= j < gs.len() ==> gs[j].0 != key,
    ensures
        upsert_group(gs, key, item) == gs.push((key, seq![item])),
    decreases gs.len(),
{
    if gs.len() == 0 {
        assert(upsert_group(gs, key, item) =~= gs.push((key, seq![item])));
    } else {
        lemma_upsert_group_missing(gs.drop_first(), key, item);
        assert(seq![gs[0]] + gs.drop_first().push((key, seq![item])) =~= gs.push(
            (key, seq![item]),
        ));
    }
}

/// A first match at `i` resolves `bump_count` to an in-place update.
proof fn lemma_bump_count_at(cs: CountSeq, key: Seq<char>, i: int)
    requires
        0 <= i < cs.len(),
        cs[i].0 == key,
        forall|j: int| 0 <= j < i ==> cs[j].0 != key,
    ensures
        bump_count(cs, key) == cs.update(i, (cs[i].0, cs[i].1 + 1)),
    decreases i,
{
    if i == 0 {
        assert(seq![(cs[0].0, cs[0].1 + 1)] + cs.drop_first() =~= cs.update(
            0,
            (cs[0].0, cs[0].1 + 1),
        ));
    } else {
        lemma_bump_count_at(cs.drop_first(), key, i - 1);
        assert(seq![cs[0]] + cs.drop_first().update(i - 1, (cs[i].0, cs[i].1 + 1)) =~= cs.update(
            i,
            (cs[i].0, cs[i].1 + 1),
        ));
    }
}

/// With no matching key, `bump_count` opens a new count at the end.
proof fn lemma_bump_count_missing(cs: CountSeq, key: Seq<char>)
    requires
        forall|j: int| 0 <= j < cs.len() ==> cs[j].0 != key,
    ensures
        bump_count(cs, key) == cs.push((key, 1int)),
    decreases cs.len(),
{
    if cs.len() == 0 {
        assert(bump_count(cs, key) =~= cs.push((key, 1int)));
    } else {
        lemma_bump_count_missing(cs.drop_first(), key);
        assert(seq![cs[0]] + cs.drop_first().push((key, 1int)) =~= cs.push((key, 1int)));
    }
}

/// Counts bounded by `b` stay bounded by `b + 1` after one bump.
proof fn lemma_bump_count_bounds(cs: CountSeq, key: Seq<char>, b: int)
    requires
        forall|j: int| 0 <= j < cs.len() ==> 1 <= #[trigger] cs[j].1 <= b,
        b >= 0,
    ensures
        forall|j: int|
            0 <= j < bump_count(cs, key).len() ==> 1 <= #[trigger] bump_count(cs, key)[j].1 <= b
                + 1,
    decreases cs.len(),
{
    if cs.len() == 0 {
    } else if cs[0].0 == key {
    } else {
        lemma_bump_count_bounds(cs.drop_first(), key, b);
        assert forall|j: int| 0 <= j < bump_count(cs, key).len() implies 1 <= #[trigger] bump_count(
            cs,
            key,
        )[j].1 <= b + 1 by {
            if j > 0 {
                assert(bump_count(cs, key)[j] == bump_count(cs.drop_first(), key)[j - 1]);
            }
        }
    }
}

/// Every theme tally is at least one and at most the number of issues.
proof fn lemma_theme_counts_bounds(items: Seq<IssueSummaryView>)
    ensures
        forall|j: int|
            0 <= j < spec_theme_counts(items).len() ==> 1 <= #[trigger] spec_theme_counts(
                items,
            )[j].1 <= items.len(),
    decreases items.len(),
{
    if items.len() > 0 {
        lemma_theme_counts_bounds(items.drop_last());
        lemma_bump_count_bounds(
            spec_theme_counts(items.drop_last()),
            items.last().theme,
            items.len() - 1,
        );
    }
}

/// Appends `item` to the group keyed `key`, opening the group if the key
/// is new; arrival order within a group is preserved.
pub fn insert_into_groups(
    groups: &mut Vec<(String, Vec<IssueSummary>)>,
    key: String,
    item: IssueSummary,
)
    ensures
        groups_view(final(groups)@) == upsert_group(groups_view(old(groups)@), key@, item@),
{
    let n = groups.len();
    let mut i: usize = 0;
    while i < n
        invariant
            0 <= i <= n,
            n == groups@.len(),
            groups@ == old(groups)@,
            forall|j: int| 0 <= j < i ==> groups_view(groups@)[j].0 != key@,
        decreases n - i,
    {
        if str_eq(groups[i].0.as_str(), key.as_str()) {
            let mut entry = groups.remove(i);
            entry.1.push(item);
            proof {
                let gv = groups_view(old(groups)@);
                lemma_upsert_group_at(gv, key@, item@, i as int);
                assert(entry.1.deep_view() =~= gv[i as int].1.push(item@));
            }
            groups.insert(i, entry);
            proof {
                let gv = groups_view(old(groups)@);
                assert(groups_view(groups@) =~= gv.update(
                    i as int,
                    (gv[i as int].0, gv[i as int].1.push(item@)),
                ));
            }
            return ;
        }
        i = i + 1;
    }
    proof {
        lemma_upsert_group_missing(groups_view(groups@), key@, item@);
    }
    let mut members: Vec<IssueSummary> = Vec::new();
    members.push(item);
    proof {
        assert(members.deep_view() =~= seq![item@]);
    }
    groups.push((key, members));
    proof {
        let gv = groups_view(old(groups)@);
        assert(groups_view(groups@) =~= gv.push((key@, members.deep_view())));
    }
}

/// Raises the tally under `key` by one, opening it at one if the key is
/// new. The count may not yet be at the bound of its type.
pub fn bump_theme_count(counts: &mut Vec<(String, usize)>, key: String)
    requires
        forall|j: int|
            0 <= j < counts_view(old(counts)@).len() ==> (#[trigger] counts_view(old(counts)@)[j].1)
                < usize::MAX as int,
    ensures
        counts_view(final(counts)@) == bump_count(counts_view(old(counts)@), key@),
{
    let n = counts.len();
    let mut i: usize = 0;
    while i < n
        invariant
            0 <= i <= n,
            n == counts@.len(),
            counts@ == old(counts)@,
            forall|j: int|
                0 <= j < counts_view(old(counts)@).len() ==> (#[trigger] counts_view(
                    old(counts)@,
                )[j].1) < usize::MAX as int,
            forall|j: int| 0 <= j < i ==> counts_view(counts@)[j].0 != key@,
        decreases n - i,
    {
        if str_eq(counts[i].0.as_str(), key.as_str()) {
            proof {
                assert(counts_view(old(counts)@)[i as int].1 < usize::MAX as int);
                assert(counts@[i as int].1 < usize::MAX);
            }
            let entry = counts.remove(i);
            let bumped = entry.1 + 1;
            proof {
                let cv = counts_view(old(counts)@);
                lemma_bump_count_at(cv, key@, i as int);
            }
            counts.insert(i, (entry.0, bumped));
            proof {
                let cv = counts_view(old(counts)@);
                assert(counts_view(counts@) =~= cv.update(
                    i as int,
                    (cv[i as int].0, cv[i as int].1 + 1),
                ));
            }
            return ;
        }
        i = i + 1;
    }
    proof {
        lemma_bump_count_missing(counts_view(counts@), key@);
    }
    counts.push((key, 1));
    proof {
        let cv = counts_view(old(counts)@);
        assert(counts_view(counts@) =~= cv.push((key@, 1int)));
    }
}

/// Builds the report for one validation run: classifies every issue,
/// tallies severities and themes, and groups issues under their key.
pub fn build_report(outcome: &OperationOutcome, status: u16, file: &str, base_url: &str) -> (r:
    ValidationReport)
    ensures
        r.status == status,
        r.file@ == file@,
        r.base_url@ == base_url@,
        report_models(r, spec_classified(outcome.issue@)),
{
    let ghost all = spec_classified(outcome.issue@);
    let mut groups: Vec<(String, Vec<IssueSummary>)> = Vec::new();
    let mut theme_counts: Vec<(String, usize)> = Vec::new();
    let mut error_count: usize = 0;
    let mut warning_count: usize = 0;
    let mut info_count: usize = 0;
    let n = outcome.issue.len();
    let mut i: usize = 0;
    proof {
        assert(spec_classified(outcome.issue@.take(0)) =~= Seq::<IssueSummaryView>::empty());
    }
    while i < n
        invariant
            0 <= i <= n,
            n == outcome.issue@.len(),
            all == spec_classified(outcome.issue@),
            error_count == spec_error_count(spec_classified(outcome.issue@.take(i as int))),
            warning_count == spec_warning_count(spec_classified(outcome.issue@.take(i as int))),
            info_count == spec_info_count(spec_classified(outcome.issue@.take(i as int))),
            error_count <= i && warning_count <= i && info_count <= i,
            groups_view(groups@) == spec_groups(spec_classified(outcome.issue@.take(i as int))),
            counts_view(theme_counts@) == spec_theme_counts(
                spec_classified(outcome.issue@.take(i as int)),
            ),
        decreases n - i,
    {
        let ghost prefix = spec_classified(outcome.issue@.take(i as int));
        let summary = summarize_issue(&outcome.issue[i]);
        proof {
            assert(spec_classified(outcome.issue@.take(i + 1)).drop_last() =~= prefix);
            assert(spec_classified(outcome.issue@.take(i + 1)).last() == summary@);
            assert(spec_classified(outcome.issue@.take(i + 1)) =~= prefix.push(summary@));
            assert((prefix.push(summary@)).drop_last() =~= prefix);
            reveal_strlit("error");
            reveal_strlit("fatal");
            reveal_strlit("warning");
            reveal_strlit("information");
            assert("error"@[0] == 'e' && "fatal"@[0] == 'f');
            assert("error"@.len() == 5 && "fatal"@.len() == 5 && "warning"@.len() == 7
                && "information"@.len() == 11);
        }
        if str_eq(summary.severity.as_str(), "error") || str_eq(summary.severity.as_str(), "fatal")
            {
            error_count = error_count + 1;
        } else if str_eq(summary.severity.as_str(), "warning") {
            warning_count = warning_count + 1;
        } else if str_eq(summary.severity.as_str(), "information") {
            info_count = info_count + 1;
        }
        let key = group_key(&summary);
        let theme = summary.theme.clone();
        insert_into_groups(&mut groups, key, summary);
        proof {
            lemma_theme_counts_bounds(prefix);
            assert(forall|j: int|
                0 <= j < theme_counts@.len() ==> (#[trigger] theme_counts@[j].1) as int
                    == counts_view(theme_counts@)[j].1);
        }
        bump_theme_count(&mut theme_counts, theme);
        i = i + 1;
    }
    proof {
        assert(outcome.issue@.take(n as int) =~= outcome.issue@);
    }
    ValidationReport {
        status,
        file: String::from_str(file),
        base_url: String::from_str(base_url),
        total: n,
        error_count,
        warning_count,
        info_count,
        groups,
        theme_counts,
    }
}

/// The number of issues across all groups.
pub open spec fn sum_group_sizes(gs: GroupSeq) -> int
    decreases gs.len(),
{
    if gs.len() == 0 {
        0
    } else {
        gs[0].1.len() + sum_group_sizes(gs.drop_first())
    }
}

/// Upserting one issue grows the total group membership by exactly one.
proof fn lemma_sum_upsert(gs: GroupSeq, key: Seq<char>, item: IssueSummaryView)
    ensures
        sum_group_sizes(upsert_group(gs, key, item)) == sum_group_sizes(gs) + 1,
    decreases gs.len(),
{
    let up = upsert_group(gs, key, item);
    if gs.len() == 0 {
        assert(up.drop_first() =~= Seq::<(Seq<char>, Seq<IssueSummaryView>)>::empty());
        assert(sum_group_sizes(up) == up[0].1.len() + sum_group_sizes(up.drop_first()));
        assert(up[0].1.len() == 1);
    } else if gs[0].0 == key {
        assert(up.drop_first() =~= gs.drop_first());
        assert(up[0].1.len() == gs[0].1.len() + 1);
        assert(sum_group_sizes(up) == up[0].1.len() + sum_group_sizes(gs.drop_first()));
        assert(sum_group_sizes(gs) == gs[0].1.len() + sum_group_sizes(gs.drop_first()));
    } else {
        lemma_sum_upsert(gs.drop_first(), key, item);
        assert(up.drop_first() =~= upsert_group(gs.drop_first(), key, item));
        assert(up[0] == gs[0]);
        assert(sum_group_sizes(up) == up[0].1.len() + sum_group_sizes(up.drop_first()));
        assert(sum_group_sizes(gs) == gs[0].1.len() + sum_group_sizes(gs.drop_first()));
    }
}

/// The total issue count always equals the sum of the group sizes: every
/// issue lands in exactly one group.
pub proof fn lemma_total_matches_group_sizes(items: Seq<IssueSummaryView>)
    ensures
        sum_group_sizes(spec_groups(items)) == items.len(),
    decreases items.len(),
{
    if items.len() > 0 {
        lemma_total_matches_group_sizes(items.drop_last());
        lemma_sum_upsert(
            spec_groups(items.drop_last()),
            spec_group_key(items.last()),
            items.last(),
        );
    }
}

/// A report's `total` equals the sum of its group sizes.
pub proof fn lemma_report_total_is_group_sum(r: ValidationReport, items: Seq<IssueSummaryView>)
    requires
        report_models(r, items),
    ensures
        sum_group_sizes(groups_view(r.groups@)) == r.total,
{
    lemma_total_matches_group_sizes(items);
}

/// Every member of a group bears that group's key.
pub open spec fn groups_keyed(gs: GroupSeq) -> bool {
    forall|j: int, l: int|
        0 <= j < gs.len() && 0 <= l < gs[j].1.len() ==> spec_group_key(
            #[trigger] gs[j].1[l],
        ) == gs[j].0
}

/// No two groups share a key.
pub open spec fn groups_distinct(gs: GroupSeq) -> bool {
    forall|j1: int, j2: int| 0 <= j1 < j2 < gs.len() ==> gs[j1].0 != gs[j2].0
}

/// `x` is a member of the group keyed `k`.
pub open spec fn in_group(gs: GroupSeq, k: Seq<char>, x: IssueSummaryView) -> bool {
    exists|j: int| 0 <= j < gs.len() && (#[trigger] gs[j]).0 == k && gs[j].1.contains(x)
}

proof fn lemma_upsert_group_props(gs: GroupSeq, key: Seq<char>, item: IssueSummaryView)
    requires
        groups_keyed(gs),
        groups_distinct(gs),
        spec_group_key(item) == key,
    ensures
        groups_keyed(upsert_group(gs, key, item)),
        groups_distinct(upsert_group(gs, key, item)),
        in_group(upsert_group(gs, key, item), key, item),
        forall|k: Seq<char>, x: IssueSummaryView|
            #[trigger] in_group(gs, k, x) ==> in_group(upsert_group(gs, key, item), k, x),
        forall|j2: int|
            0 <= j2 < upsert_group(gs, key, item).len() ==> (#[trigger] upsert_group(
                gs,
                key,
                item,
            )[j2]).0 == key || exists|j: int| 0 <= j < gs.len() && (#[trigger] gs[j]).0 == upsert_group(
                gs,
                key,
                item,
            )[j2].0,
    decreases gs.len(),
{
    let up = upsert_group(gs, key, item);
    if gs.len() == 0 {
        assert(up[0].1[0] == item);
        assert(up[0].1.contains(item));
    } else if gs[0].0 == key {
        assert(up[0].1 == gs[0].1.push(item));
        assert(up[0].1[up[0].1.len() - 1] == item);
        assert(up[0].1.contains(item));
        assert forall|j: int, l: int|
            0 <= j < up.len() && 0 <= l < up[j].1.len() implies spec_group_key(
            #[trigger] up[j].1[l],
        ) == up[j].0 by {
            if j == 0 {
                if l < gs[0].1.len() {
                    assert(up[0].1[l] == gs[0].1[l]);
                } else {
                    assert(up[0].1[l] == item);
                }
            } else {
                assert(up[j] == gs[j]);
            }
        }
        assert forall|k: Seq<char>, x: IssueSummaryView| #[trigger]
            in_group(gs, k, x) implies in_group(up, k, x) by {
            let j = choose|j: int| 0 <= j < gs.len() && (#[trigger] gs[j]).0 == k && gs[j].1.contains(x);
            if j == 0 {
                let l = choose|l: int| 0 <= l < gs[0].1.len() && gs[0].1[l] == x;
                assert(up[0].1[l] == x);
                assert(up[0].1.contains(x));
            } else {
                assert(up[j] == gs[j]);
            }
        }
    } else {
        let rest = upsert_group(gs.drop_first(), key, item);
        assert(up == seq![gs[0]] + rest);
        assert(up[0] == gs[0]);
        assert forall|j: int| 0 <= j < rest.len() implies up[j + 1] == rest[j] by {}
        assert forall|j1: int, j2: int|
            0 <= j1 < j2 < gs.drop_first().len() implies gs.drop_first()[j1].0 != gs.drop_first()[j2].0 by {
            assert(gs.drop_first()[j1] == gs[j1 + 1]);
            assert(gs.drop_first()[j2] == gs[j2 + 1]);
        }
        lemma_upsert_group_props(gs.drop_first(), key, item);
        // keys of the result
        assert forall|j2: int|
            0 <= j2 < up.len() implies (#[trigger] up[j2]).0 == key || exists|j: int|
            0 <= j < gs.len() && (#[trigger] gs[j]).0 == up[j2].0 by {
            if j2 == 0 {
                assert(gs[0].0 == up[0].0);
            } else {
                assert(up[j2] == rest[j2 - 1]);
                if rest[j2 - 1].0 != key {
                    let j = choose|j: int|
                        0 <= j < gs.drop_first().len() && (#[trigger] gs.drop_first()[j]).0
                            == rest[j2 - 1].0;
                    assert(gs[j + 1].0 == up[j2].0);
                }
            }
        }
        // distinctness
        assert forall|j1: int, j2: int| 0 <= j1 < j2 < up.len() implies up[j1].0 != up[j2].0 by {
            if j1 == 0 {
                assert(up[j2] == rest[j2 - 1]);
                if rest[j2 - 1].0 == key {
                } else {
                    let j = choose|j: int|
                        0 <= j < gs.drop_first().len() && (#[trigger] gs.drop_first()[j]).0
                            == rest[j2 - 1].0;
                    assert(gs.drop_first()[j] == gs[j + 1]);
                }
            } else {
                assert(up[j1] == rest[j1 - 1]);
                assert(up[j2] == rest[j2 - 1]);
            }
        }
        // membership of the new item
        let jr = choose|j: int|
            0 <= j < rest.len() && (#[trigger] rest[j]).0 == key && rest[j].1.contains(item);
        assert(up[jr + 1].0 == key && up[jr + 1].1.contains(item));
        assert(in_group(up, key, item));
        // membership preserved
        assert forall|k: Seq<char>, x: IssueSummaryView| #[trigger]
            in_group(gs, k, x) implies in_group(up, k, x) by {
            let j = choose|j: int| 0 <= j < gs.len() && (#[trigger] gs[j]).0 == k && gs[j].1.contains(x);
            if j == 0 {
                assert(up[0].0 == k && up[0].1.contains(x));
            } else {
                assert(gs.drop_first()[j - 1] == gs[j]);
                assert(in_group(gs.drop_first(), k, x));
                let j2 = choose|j2: int|
                    0 <= j2 < rest.len() && (#[trigger] rest[j2]).0 == k && rest[j2].1.contains(x);
                assert(up[j2 + 1].0 == k && up[j2 + 1].1.contains(x));
            }
        }
        // keyedness
        assert forall|j: int, l: int|
            0 <= j < up.len() && 0 <= l < up[j].1.len() implies spec_group_key(
            #[trigger] up[j].1[l],
        ) == up[j].0 by {
            if j == 0 {
                assert(up[0] == gs[0]);
                assert(spec_group_key(gs[0].1[l]) == gs[0].0);
            } else {
                assert(up[j] == rest[j - 1]);
            }
        }
    }
}

/// The groups of a run partition its issues: every member bears its
/// group's key, no two groups share a key, and every issue is a member of
/// the group bearing its own key.
pub proof fn lemma_groups_partition(items: Seq<IssueSummaryView>)
    ensures
        groups_keyed(spec_groups(items)),
        groups_distinct(spec_groups(items)),
        forall|p: int|
            0 <= p < items.len() ==> in_group(
                spec_groups(items),
                spec_group_key(#[trigger] items[p]),
                items[p],
            ),
    decreases items.len(),
{
    if items.len() > 0 {
        let prev = spec_groups(items.drop_last());
        lemma_groups_partition(items.drop_last());
        lemma_upsert_group_props(prev, spec_group_key(items.last()), items.last());
        assert forall|p: int|
            0 <= p < items.len() implies in_group(
            spec_groups(items),
            spec_group_key(#[trigger] items[p]),
            items[p],
        ) by {
            if p < items.len() - 1 {
                assert(items.drop_last()[p] == items[p]);
                assert(in_group(prev, spec_group_key(items[p]), items[p]));
            } else {
                assert(items[p] == items.last());
            }
        }
    }
}

/// Two issues with the same severity, code and effective message always
/// occupy the same group, whatever their locations or expressions.
pub proof fn lemma_grouping_equivalence(items: Seq<IssueSummaryView>, p: int, q: int)
    requires
        0 <= p < items.len(),
        0 <= q < items.len(),
        items[p].severity == items[q].severity,
        items[p].code == items[q].code,
        items[p].message == items[q].message,
    ensures
        exists|j: int|
            0 <= j < spec_groups(items).len() && (#[trigger] spec_groups(items)[j]).1.contains(
                items[p],
            ) && spec_groups(items)[j].1.contains(items[q]),
{
    let gs = spec_groups(items);
    lemma_groups_partition(items);
    assert(spec_group_key(items[p]) == spec_group_key(items[q]));
    let k = spec_group_key(items[p]);
    let jp = choose|j: int| 0 <= j < gs.len() && (#[trigger] gs[j]).0 == k && gs[j].1.contains(items[p]);
    let jq = choose|j: int| 0 <= j < gs.len() && (#[trigger] gs[j]).0 == k && gs[j].1.contains(items[q]);
    if jp != jq {
        assert(gs[jp].0 != gs[jq].0);
    }
    assert(gs[jp].1.contains(items[p]) && gs[jp].1.contains(items[q]));
}

/// Two raw issues with the same severity, code and effective message
/// always occupy the same group of the built report, whatever their
/// locations or expressions.
pub proof fn lemma_raw_grouping_equivalence(issues: Seq<crate::types::Issue>, p: int, q: int)
    requires
        0 <= p < issues.len(),
        0 <= q < issues.len(),
        crate::classify::spec_severity(issues[p]@) == crate::classify::spec_severity(issues[q]@),
        crate::classify::spec_code(issues[p]@) == crate::classify::spec_code(issues[q]@),
        crate::classify::spec_message(issues[p]@) == crate::classify::spec_message(issues[q]@),
    ensures
        exists|j: int|
            0 <= j < spec_groups(spec_classified(issues)).len() && (#[trigger] spec_groups(
                spec_classified(issues),
            )[j]).1.contains(spec_classified(issues)[p]) && spec_groups(
                spec_classified(issues),
            )[j].1.contains(spec_classified(issues)[q]),
{
    let items = spec_classified(issues);
    assert(items[p] == spec_summarize(issues[p]@));
    assert(items[q] == spec_summarize(issues[q]@));
    lemma_grouping_equivalence(items, p, q);
}

/// A run fails when any issue counted as an error, or the HTTP status is
/// not a success code.
pub fn is_failure(report: &ValidationReport) -> (r: bool)
    ensures
        r == !(report.error_count == 0 && 200 <= report.status < 300),
{
    !(report.error_count == 0 && 200 <= report.status && report.status < 300)
}

} // verus!
