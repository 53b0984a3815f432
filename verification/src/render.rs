//! Rendering: deterministic ordering of themes and groups, per-group
//! severity tallies, and the report text itself.

use vstd::prelude::*;
use crate::classify::{profile_resolution_theme, spec_profile_theme, IssueSummary, IssueSummaryView};
use crate::report::{
    counts_view, groups_view, spec_display_message, CountSeq, GroupSeq, ValidationReport,
};
use crate::text::{
    dec_digits, join_strings, join_with, lex_lt, lemma_lex_lt_irrefl, lemma_lex_lt_total,
    lemma_lex_lt_trans, seq_views, str_eq, str_lex_lt, u64_to_dec, usize_to_dec, clone_string_vec,
};

verus! {

/// Display order on `(weight, label)` pairs: heavier first, ties broken
/// by ascending label.
pub open spec fn pair_le(a: (int, Seq<char>), b: (int, Seq<char>)) -> bool {
    a.0 > b.0 || (a.0 == b.0 && (lex_lt(a.1, b.1) || a.1 == b.1))
}

/// The display order is total.
pub proof fn lemma_pair_le_total(a: (int, Seq<char>), b: (int, Seq<char>))
    ensures
        pair_le(a, b) || pair_le(b, a),
{
    lemma_lex_lt_total(a.1, b.1);
}

/// The display order is transitive.
pub proof fn lemma_pair_le_trans(a: (int, Seq<char>), b: (int, Seq<char>), c: (int, Seq<char>))
    requires
        pair_le(a, b),
        pair_le(b, c),
    ensures
        pair_le(a, c),
{
    if a.0 == b.0 && b.0 == c.0 && lex_lt(a.1, b.1) && lex_lt(b.1, c.1) {
        lemma_lex_lt_trans(a.1, b.1, c.1);
    }
}

/// The display order of two theme tallies.
pub open spec fn theme_le(a: (Seq<char>, int), b: (Seq<char>, int)) -> bool {
    pair_le((a.1, a.0), (b.1, b.0))
}

/// The display order of two groups.
pub open spec fn group_le(a: (Seq<char>, Seq<IssueSummaryView>), b: (Seq<char>, Seq<IssueSummaryView>)) -> bool {
    pair_le((a.1.len() as int, a.0), (b.1.len() as int, b.0))
}

/// Inserts a theme tally at its place in a sorted run.
pub open spec fn insert_theme(cs: CountSeq, e: (Seq<char>, int)) -> CountSeq
    decreases cs.len(),
{
    if cs.len() == 0 {
        seq![e]
    } else if theme_le(e, cs[0]) {
        seq![e] + cs
    } else {
        seq![cs[0]] + insert_theme(cs.drop_first(), e)
    }
}

/// Theme tallies in display order: by descending count, ties by
/// ascending name.
pub open spec fn spec_sort_themes(cs: CountSeq) -> CountSeq
    decreases cs.len(),
{
    if cs.len() == 0 {
        Seq::empty()
    } else {
        insert_theme(spec_sort_themes(cs.drop_last()), cs.last())
    }
}

/// Inserts a group at its place in a sorted run.
pub open spec fn insert_group(gs: GroupSeq, e: (Seq<char>, Seq<IssueSummaryView>)) -> GroupSeq
    decreases gs.len(),
{
    if gs.len() == 0 {
        seq![e]
    } else if group_le(e, gs[0]) {
        seq![e] + gs
    } else {
        seq![gs[0]] + insert_group(gs.drop_first(), e)
    }
}

/// Groups in display order: by descending member count, ties by
/// ascending key.
pub open spec fn spec_sort_groups(gs: GroupSeq) -> GroupSeq
    decreases gs.len(),
{
    if gs.len() == 0 {
        Seq::empty()
    } else {
        insert_group(spec_sort_groups(gs.drop_last()), gs.last())
    }
}

/// A run of theme tallies is in display order.
pub open spec fn themes_sorted(cs: CountSeq) -> bool {
    forall|j1: int, j2: int| 0 <= j1 < j2 < cs.len() ==> theme_le(#[trigger] cs[j1], #[trigger] cs[j2])
}

/// A run of groups is in display order.
pub open spec fn groups_sorted(gs: GroupSeq) -> bool {
    forall|j1: int, j2: int| 0 <= j1 < j2 < gs.len() ==> group_le(#[trigger] gs[j1], #[trigger] gs[j2])
}

proof fn lemma_insert_theme_sorted(cs: CountSeq, e: (Seq<char>, int))
    requires
        themes_sorted(cs),
    ensures
        themes_sorted(insert_theme(cs, e)),
        insert_theme(cs, e).len() == cs.len() + 1,
        forall|x: (Seq<char>, int)|
            insert_theme(cs, e).contains(x) ==> x == e || cs.contains(x),
    decreases cs.len(),
{
    let r = insert_theme(cs, e);
    if cs.len() == 0 {
    } else if theme_le(e, cs[0]) {
        assert forall|j1: int, j2: int| 0 <= j1 < j2 < r.len() implies theme_le(
            #[trigger] r[j1],
            #[trigger] r[j2],
        ) by {
            if j1 == 0 {
                if j2 > 1 {
                    assert(theme_le(cs[0], cs[j2 - 1]));
                    lemma_pair_le_trans(
                        (e.1, e.0),
                        (cs[0].1, cs[0].0),
                        (cs[j2 - 1].1, cs[j2 - 1].0),
                    );
                }
            } else {
                assert(r[j1] == cs[j1 - 1] && r[j2] == cs[j2 - 1]);
            }
        }
        assert forall|x: (Seq<char>, int)| r.contains(x) implies x == e || cs.contains(x) by {
            let w = choose|w: int| 0 <= w < r.len() && r[w] == x;
            if w > 0 {
                assert(cs[w - 1] == x);
            }
        }
    } else {
        let rest = insert_theme(cs.drop_first(), e);
        assert forall|j1: int, j2: int|
            0 <= j1 < j2 < cs.drop_first().len() implies theme_le(
            #[trigger] cs.drop_first()[j1],
            #[trigger] cs.drop_first()[j2],
        ) by {
            assert(cs.drop_first()[j1] == cs[j1 + 1]);
            assert(cs.drop_first()[j2] == cs[j2 + 1]);
        }
        lemma_insert_theme_sorted(cs.drop_first(), e);
        lemma_pair_le_total((e.1, e.0), (cs[0].1, cs[0].0));
        assert forall|j1: int, j2: int| 0 <= j1 < j2 < r.len() implies theme_le(
            #[trigger] r[j1],
            #[trigger] r[j2],
        ) by {
            if j1 == 0 {
                assert(r[j2] == rest[j2 - 1]);
                assert(rest.contains(rest[j2 - 1]));
                if rest[j2 - 1] == e {
                    assert(theme_le(cs[0], e));
                } else {
                    assert(cs.drop_first().contains(rest[j2 - 1]));
                    let w = choose|w: int|
                        0 <= w < cs.drop_first().len() && cs.drop_first()[w] == rest[j2 - 1];
                    assert(cs[w + 1] == rest[j2 - 1]);
                    if w + 1 > 0 {
                        assert(theme_le(cs[0], cs[w + 1]));
                    }
                }
            } else {
                assert(r[j1] == rest[j1 - 1] && r[j2] == rest[j2 - 1]);
            }
        }
        assert forall|x: (Seq<char>, int)| r.contains(x) implies x == e || cs.contains(x) by {
            let w = choose|w: int| 0 <= w < r.len() && r[w] == x;
            if w == 0 {
                assert(cs.contains(cs[0]));
            } else {
                assert(rest[w - 1] == x);
                assert(rest.contains(x));
                if x != e {
                    assert(cs.drop_first().contains(x));
                    let v = choose|v: int|
                        0 <= v < cs.drop_first().len() && cs.drop_first()[v] == x;
                    assert(cs[v + 1] == x);
                }
            }
        }
    }
}

/// Sorted theme tallies are in display order.
pub proof fn lemma_sort_themes_sorted(cs: CountSeq)
    ensures
        themes_sorted(spec_sort_themes(cs)),
        spec_sort_themes(cs).len() == cs.len(),
    decreases cs.len(),
{
    if cs.len() > 0 {
        lemma_sort_themes_sorted(cs.drop_last());
        lemma_insert_theme_sorted(spec_sort_themes(cs.drop_last()), cs.last());
    }
}

proof fn lemma_insert_group_sorted(gs: GroupSeq, e: (Seq<char>, Seq<IssueSummaryView>))
    requires
        groups_sorted(gs),
    ensures
        groups_sorted(insert_group(gs, e)),
        insert_group(gs, e).len() == gs.len() + 1,
        forall|x: (Seq<char>, Seq<IssueSummaryView>)|
            insert_group(gs, e).contains(x) ==> x == e || gs.contains(x),
    decreases gs.len(),
{
    let r = insert_group(gs, e);
    if gs.len() == 0 {
    } else if group_le(e, gs[0]) {
        assert forall|j1: int, j2: int| 0 <= j1 < j2 < r.len() implies group_le(
            #[trigger] r[j1],
            #[trigger] r[j2],
        ) by {
            if j1 == 0 {
                if j2 > 1 {
                    assert(group_le(gs[0], gs[j2 - 1]));
                    lemma_pair_le_trans(
                        (e.1.len() as int, e.0),
                        (gs[0].1.len() as int, gs[0].0),
                        (gs[j2 - 1].1.len() as int, gs[j2 - 1].0),
                    );
                }
            } else {
                assert(r[j1] == gs[j1 - 1] && r[j2] == gs[j2 - 1]);
            }
        }
        assert forall|x: (Seq<char>, Seq<IssueSummaryView>)| r.contains(x) implies x == e
            || gs.contains(x) by {
            let w = choose|w: int| 0 <= w < r.len() && r[w] == x;
            if w > 0 {
                assert(gs[w - 1] == x);
            }
        }
    } else {
        let rest = insert_group(gs.drop_first(), e);
        assert forall|j1: int, j2: int|
            0 <= j1 < j2 < gs.drop_first().len() implies group_le(
            #[trigger] gs.drop_first()[j1],
            #[trigger] gs.drop_first()[j2],
        ) by {
            assert(gs.drop_first()[j1] == gs[j1 + 1]);
            assert(gs.drop_first()[j2] == gs[j2 + 1]);
        }
        lemma_insert_group_sorted(gs.drop_first(), e);
        lemma_pair_le_total((e.1.len() as int, e.0), (gs[0].1.len() as int, gs[0].0));
        assert forall|j1: int, j2: int| 0 <= j1 < j2 < r.len() implies group_le(
            #[trigger] r[j1],
            #[trigger] r[j2],
        ) by {
            if j1 == 0 {
                assert(r[j2] == rest[j2 - 1]);
                assert(rest.contains(rest[j2 - 1]));
                if rest[j2 - 1] == e {
                    assert(group_le(gs[0], e));
                } else {
                    assert(gs.drop_first().contains(rest[j2 - 1]));
                    let w = choose|w: int|
                        0 <= w < gs.drop_first().len() && gs.drop_first()[w] == rest[j2 - 1];
                    assert(gs[w + 1] == rest[j2 - 1]);
                    assert(group_le(gs[0], gs[w + 1]));
                }
            } else {
                assert(r[j1] == rest[j1 - 1] && r[j2] == rest[j2 - 1]);
            }
        }
        assert forall|x: (Seq<char>, Seq<IssueSummaryView>)| r.contains(x) implies x == e
            || gs.contains(x) by {
            let w = choose|w: int| 0 <= w < r.len() && r[w] == x;
            if w == 0 {
                assert(gs.contains(gs[0]));
            } else {
                assert(rest[w - 1] == x);
                assert(rest.contains(x));
                if x != e {
                    assert(gs.drop_first().contains(x));
                    let v = choose|v: int|
                        0 <= v < gs.drop_first().len() && gs.drop_first()[v] == x;
                    assert(gs[v + 1] == x);
                }
            }
        }
    }
}

/// Sorted groups are in display order: a larger group comes first, and
/// among equal sizes the lexicographically smaller key comes first.
pub proof fn lemma_sort_groups_sorted(gs: GroupSeq)
    ensures
        groups_sorted(spec_sort_groups(gs)),
        spec_sort_groups(gs).len() == gs.len(),
    decreases gs.len(),
{
    if gs.len() > 0 {
        lemma_sort_groups_sorted(gs.drop_last());
        lemma_insert_group_sorted(spec_sort_groups(gs.drop_last()), gs.last());
    }
}

/// Inserting an entry adds it to the run and keeps everything else.
proof fn lemma_insert_theme_multiset(cs: CountSeq, e: (Seq<char>, int))
    ensures
        insert_theme(cs, e).to_multiset() == cs.to_multiset().insert(e),
    decreases cs.len(),
{
    broadcast use vstd::seq_lib::group_to_multiset_ensures;

    let r = insert_theme(cs, e);
    if cs.len() == 0 {
        assert(seq![e] =~= Seq::<(Seq<char>, int)>::empty().push(e));
        assert(r.to_multiset() =~= cs.to_multiset().insert(e));
    } else if theme_le(e, cs[0]) {
        vstd::seq_lib::lemma_multiset_commutative(seq![e], cs);
        assert(seq![e] =~= Seq::<(Seq<char>, int)>::empty().push(e));
        assert(r.to_multiset() =~= cs.to_multiset().insert(e));
    } else {
        lemma_insert_theme_multiset(cs.drop_first(), e);
        vstd::seq_lib::lemma_multiset_commutative(seq![cs[0]], insert_theme(cs.drop_first(), e));
        assert(cs =~= seq![cs[0]] + cs.drop_first());
        vstd::seq_lib::lemma_multiset_commutative(seq![cs[0]], cs.drop_first());
        assert(r.to_multiset() =~= cs.to_multiset().insert(e));
    }
}

/// Sorting the theme tallies loses and invents nothing: the sorted run
/// is a permutation of the input.
pub proof fn lemma_sort_themes_permutes(cs: CountSeq)
    ensures
        spec_sort_themes(cs).to_multiset() == cs.to_multiset(),
    decreases cs.len(),
{
    broadcast use vstd::seq_lib::group_to_multiset_ensures;

    if cs.len() > 0 {
        lemma_sort_themes_permutes(cs.drop_last());
        lemma_insert_theme_multiset(spec_sort_themes(cs.drop_last()), cs.last());
        assert(cs =~= cs.drop_last().push(cs.last()));
    }
}

/// Inserting a group adds it to the run and keeps everything else.
proof fn lemma_insert_group_multiset(gs: GroupSeq, e: (Seq<char>, Seq<IssueSummaryView>))
    ensures
        insert_group(gs, e).to_multiset() == gs.to_multiset().insert(e),
    decreases gs.len(),
{
    broadcast use vstd::seq_lib::group_to_multiset_ensures;

    let r = insert_group(gs, e);
    if gs.len() == 0 {
        assert(seq![e] =~= Seq::<(Seq<char>, Seq<IssueSummaryView>)>::empty().push(e));
        assert(r.to_multiset() =~= gs.to_multiset().insert(e));
    } else if group_le(e, gs[0]) {
        vstd::seq_lib::lemma_multiset_commutative(seq![e], gs);
        assert(seq![e] =~= Seq::<(Seq<char>, Seq<IssueSummaryView>)>::empty().push(e));
        assert(r.to_multiset() =~= gs.to_multiset().insert(e));
    } else {
        lemma_insert_group_multiset(gs.drop_first(), e);
        vstd::seq_lib::lemma_multiset_commutative(seq![gs[0]], insert_group(gs.drop_first(), e));
        assert(gs =~= seq![gs[0]] + gs.drop_first());
        vstd::seq_lib::lemma_multiset_commutative(seq![gs[0]], gs.drop_first());
        assert(r.to_multiset() =~= gs.to_multiset().insert(e));
    }
}

/// Sorting the groups loses and invents nothing: the sorted run is a
/// permutation of the input.
pub proof fn lemma_sort_groups_permutes(gs: GroupSeq)
    ensures
        spec_sort_groups(gs).to_multiset() == gs.to_multiset(),
    decreases gs.len(),
{
    broadcast use vstd::seq_lib::group_to_multiset_ensures;

    if gs.len() > 0 {
        lemma_sort_groups_permutes(gs.drop_last());
        lemma_insert_group_multiset(spec_sort_groups(gs.drop_last()), gs.last());
        assert(gs =~= gs.drop_last().push(gs.last()));
    }
}

/// Decides the display order of two theme tallies.
fn theme_le_exec(a: &(String, usize), b: &(String, usize)) -> (r: bool)
    ensures
        r == theme_le((a.0@, a.1 as int), (b.0@, b.1 as int)),
{
    a.1 > b.1 || (a.1 == b.1 && (str_lex_lt(a.0.as_str(), b.0.as_str()) || str_eq(
        a.0.as_str(),
        b.0.as_str(),
    )))
}

proof fn lemma_insert_theme_at(cs: CountSeq, e: (Seq<char>, int), j: int)
    requires
        0 <= j <= cs.len(),
        forall|l: int| 0 <= l < j ==> !theme_le(e, #[trigger] cs[l]),
        j < cs.len() ==> theme_le(e, cs[j]),
    ensures
        insert_theme(cs, e) == cs.insert(j, e),
    decreases j,
{
    if j == 0 {
        if cs.len() == 0 {
            assert(insert_theme(cs, e) =~= cs.insert(0, e));
        } else {
            assert(seq![e] + cs =~= cs.insert(0, e));
        }
    } else {
        lemma_insert_theme_at(cs.drop_first(), e, j - 1);
        assert(seq![cs[0]] + cs.drop_first().insert(j - 1, e) =~= cs.insert(j, e));
    }
}

/// Theme tallies in display order: descending count, ties broken by
/// ascending name.
pub fn sorted_theme_counts(counts: &Vec<(String, usize)>) -> (r: Vec<(String, usize)>)
    ensures
        counts_view(r@) == spec_sort_themes(counts_view(counts@)),
        themes_sorted(counts_view(r@)),
        counts_view(r@).to_multiset() == counts_view(counts@).to_multiset(),
{
    let mut r: Vec<(String, usize)> = Vec::new();
    let n = counts.len();
    let mut i: usize = 0;
    proof {
        assert(counts_view(counts@).take(0) =~= Seq::<(Seq<char>, int)>::empty());
        assert(counts_view(r@) =~= spec_sort_themes(counts_view(counts@).take(0)));
    }
    while i < n
        invariant
            0 <= i <= n,
            n == counts@.len(),
            counts_view(r@) == spec_sort_themes(counts_view(counts@).take(i as int)),
        decreases n - i,
    {
        let entry = (counts[i].0.clone(), counts[i].1);
        let ghost cv = counts_view(counts@);
        let ghost before = counts_view(r@);
        // scan for the insertion point
        let m = r.len();
        let mut j: usize = 0;
        while j < m && !theme_le_exec(&entry, &r[j])
            invariant
                0 <= j <= m,
                m == r@.len(),
                counts_view(r@) == before,
                entry.0@ == cv[i as int].0 && entry.1 as int == cv[i as int].1,
                forall|l: int| 0 <= l < j ==> !theme_le((entry.0@, entry.1 as int), #[trigger] before[l]),
            decreases m - j,
        {
            j = j + 1;
        }
        proof {
            lemma_insert_theme_at(before, (entry.0@, entry.1 as int), j as int);
        }
        r.insert(j, entry);
        proof {
            assert(counts_view(r@) =~= before.insert(j as int, (cv[i as int].0, cv[i as int].1)));
            assert(cv.take(i + 1).drop_last() =~= cv.take(i as int));
            assert(cv.take(i + 1).last() == cv[i as int]);
        }
        i = i + 1;
    }
    proof {
        assert(counts_view(counts@).take(n as int) =~= counts_view(counts@));
        lemma_sort_themes_sorted(counts_view(counts@));
        lemma_sort_themes_permutes(counts_view(counts@));
    }
    r
}

/// Copies a classified issue.
fn clone_summary(s: &IssueSummary) -> (r: IssueSummary)
    ensures
        r@ == s@,
{
    let r = IssueSummary {
        severity: s.severity.clone(),
        code: s.code.clone(),
        message: s.message.clone(),
        location: clone_string_vec(&s.location),
        expression: clone_string_vec(&s.expression),
        theme: s.theme.clone(),
        line: s.line,
    };
    proof {
        assert(r@ =~~= s@);
    }
    r
}

/// Copies a group's members.
fn clone_members(v: &Vec<IssueSummary>) -> (r: Vec<IssueSummary>)
    ensures
        r.deep_view() == v.deep_view(),
{
    let mut r: Vec<IssueSummary> = Vec::new();
    let n = v.len();
    let mut i: usize = 0;
    while i < n
        invariant
            0 <= i <= n,
            n == v@.len(),
            r@.len() == i,
            forall|k: int| 0 <= k < i ==> (#[trigger] r@[k])@ == v@[k]@,
        decreases n - i,
    {
        let ghost prevv = r@;
        let c = clone_summary(&v[i]);
        r.push(c);
        proof {
            assert(r@ == prevv.push(c));
            assert(r@[i as int]@ == v@[i as int]@);
        }
        i = i + 1;
    }
    proof {
        assert forall|k: int| 0 <= k < n implies r.deep_view()[k] == v.deep_view()[k] by {
            assert((r@[k])@ == v@[k]@);
        }
        assert(r.deep_view() =~= v.deep_view());
    }
    r
}

/// Decides the display order of two groups.
fn group_le_exec(a: &(String, Vec<IssueSummary>), b: &(String, Vec<IssueSummary>)) -> (r: bool)
    ensures
        r == group_le((a.0@, a.1.deep_view()), (b.0@, b.1.deep_view())),
{
    a.1.len() > b.1.len() || (a.1.len() == b.1.len() && (str_lex_lt(a.0.as_str(), b.0.as_str())
        || str_eq(a.0.as_str(), b.0.as_str())))
}

proof fn lemma_insert_group_at(gs: GroupSeq, e: (Seq<char>, Seq<IssueSummaryView>), j: int)
    requires
        0 <= j <= gs.len(),
        forall|l: int| 0 <= l < j ==> !group_le(e, #[trigger] gs[l]),
        j < gs.len() ==> group_le(e, gs[j]),
    ensures
        insert_group(gs, e) == gs.insert(j, e),
    decreases j,
{
    if j == 0 {
        if gs.len() == 0 {
            assert(insert_group(gs, e) =~= gs.insert(0, e));
        } else {
            assert(seq![e] + gs =~= gs.insert(0, e));
        }
    } else {
        lemma_insert_group_at(gs.drop_first(), e, j - 1);
        assert(seq![gs[0]] + gs.drop_first().insert(j - 1, e) =~= gs.insert(j, e));
    }
}

/// Groups in display order: descending member count, ties broken by
/// ascending key.
pub fn sorted_groups(groups: &Vec<(String, Vec<IssueSummary>)>) -> (r: Vec<
    (String, Vec<IssueSummary>),
>)
    ensures
        groups_view(r@) == spec_sort_groups(groups_view(groups@)),
        groups_sorted(groups_view(r@)),
        groups_view(r@).to_multiset() == groups_view(groups@).to_multiset(),
{
    let mut r: Vec<(String, Vec<IssueSummary>)> = Vec::new();
    let n = groups.len();
    let mut i: usize = 0;
    proof {
        assert(groups_view(groups@).take(0) =~= Seq::<(Seq<char>, Seq<IssueSummaryView>)>::empty());
        assert(groups_view(r@) =~= spec_sort_groups(groups_view(groups@).take(0)));
    }
    while i < n
        invariant
            0 <= i <= n,
            n == groups@.len(),
            groups_view(r@) == spec_sort_groups(groups_view(groups@).take(i as int)),
        decreases n - i,
    {
        let entry = (groups[i].0.clone(), clone_members(&groups[i].1));
        let ghost gv = groups_view(groups@);
        let ghost before = groups_view(r@);
        let m = r.len();
        let mut j: usize = 0;
        while j < m && !group_le_exec(&entry, &r[j])
            invariant
                0 <= j <= m,
                m == r@.len(),
                groups_view(r@) == before,
                entry.0@ == gv[i as int].0 && entry.1.deep_view() == gv[i as int].1,
                forall|l: int|
                    0 <= l < j ==> !group_le((entry.0@, entry.1.deep_view()), #[trigger] before[l]),
            decreases m - j,
        {
            j = j + 1;
        }
        proof {
            lemma_insert_group_at(before, (entry.0@, entry.1.deep_view()), j as int);
        }
        r.insert(j, entry);
        proof {
            assert(groups_view(r@) =~= before.insert(j as int, (gv[i as int].0, gv[i as int].1)));
            assert(gv.take(i + 1).drop_last() =~= gv.take(i as int));
            assert(gv.take(i + 1).last() == gv[i as int]);
        }
        i = i + 1;
    }
    proof {
        assert(groups_view(groups@).take(n as int) =~= groups_view(groups@));
        lemma_sort_groups_sorted(groups_view(groups@));
        lemma_sort_groups_permutes(groups_view(groups@));
    }
    r
}

/// Raises the count of `key` in a lexicographically sorted tally run,
/// or inserts it at its sorted place at one.
pub open spec fn sorted_bump(cs: CountSeq, key: Seq<char>) -> CountSeq
    decreases cs.len(),
{
    if cs.len() == 0 {
        seq![(key, 1int)]
    } else if cs[0].0 == key {
        seq![(cs[0].0, cs[0].1 + 1)] + cs.drop_first()
    } else if lex_lt(key, cs[0].0) {
        seq![(key, 1int)] + cs
    } else {
        seq![cs[0]] + sorted_bump(cs.drop_first(), key)
    }
}

/// Severity tallies of a group's members, keys in ascending
/// lexicographic order.
pub open spec fn spec_severity_counts(items: Seq<IssueSummaryView>) -> CountSeq
    decreases items.len(),
{
    if items.len() == 0 {
        Seq::empty()
    } else {
        sorted_bump(spec_severity_counts(items.drop_last()), items.last().severity)
    }
}

proof fn lemma_sorted_bump_at(cs: CountSeq, key: Seq<char>, j: int)
    requires
        0 <= j <= cs.len(),
        forall|l: int| 0 <= l < j ==> lex_lt((#[trigger] cs[l]).0, key),
    ensures
        j < cs.len() && cs[j].0 == key ==> sorted_bump(cs, key) == cs.update(
            j,
            (cs[j].0, cs[j].1 + 1),
        ),
        (j == cs.len() || (cs[j].0 != key && !lex_lt(cs[j].0, key))) ==> sorted_bump(cs, key)
            == cs.insert(j, (key, 1int)),
    decreases j,
{
    if j == 0 {
        if cs.len() == 0 {
            assert(sorted_bump(cs, key) =~= cs.insert(0, (key, 1int)));
        } else if cs[0].0 == key {
            assert(seq![(cs[0].0, cs[0].1 + 1)] + cs.drop_first() =~= cs.update(
                0,
                (cs[0].0, cs[0].1 + 1),
            ));
        } else if !lex_lt(cs[0].0, key) {
            lemma_lex_lt_total(key, cs[0].0);
            assert(seq![(key, 1int)] + cs =~= cs.insert(0, (key, 1int)));
        }
    } else {
        assert(lex_lt(cs[0].0, key));
        lemma_lex_lt_irrefl(cs[0].0);
        if lex_lt(key, cs[0].0) {
            lemma_lex_lt_trans(cs[0].0, key, cs[0].0);
        }
        assert forall|l: int| 0 <= l < j - 1 implies lex_lt(
            (#[trigger] cs.drop_first()[l]).0,
            key,
        ) by {
            assert(cs.drop_first()[l] == cs[l + 1]);
        }
        lemma_sorted_bump_at(cs.drop_first(), key, j - 1);
        if j < cs.len() && cs[j].0 == key {
            assert(cs.drop_first()[j - 1] == cs[j]);
            assert(seq![cs[0]] + cs.drop_first().update(
                j - 1,
                (cs[j].0, cs[j].1 + 1),
            ) =~= cs.update(j, (cs[j].0, cs[j].1 + 1)));
        }
        if j == cs.len() || (cs[j].0 != key && !lex_lt(cs[j].0, key)) {
            if j < cs.len() {
                assert(cs.drop_first()[j - 1] == cs[j]);
            }
            assert(seq![cs[0]] + cs.drop_first().insert(j - 1, (key, 1int)) =~= cs.insert(
                j,
                (key, 1int),
            ));
        }
    }
}

/// Counts bounded by `b` stay bounded by `b + 1` after one sorted bump.
proof fn lemma_sorted_bump_bounds(cs: CountSeq, key: Seq<char>, b: int)
    requires
        forall|j: int| 0 <= j < cs.len() ==> 1 <= (#[trigger] cs[j]).1 <= b,
        b >= 0,
    ensures
        forall|j: int|
            0 <= j < sorted_bump(cs, key).len() ==> 1 <= (#[trigger] sorted_bump(cs, key)[j]).1
                <= b + 1,
    decreases cs.len(),
{
    let r = sorted_bump(cs, key);
    if cs.len() == 0 {
    } else if cs[0].0 == key {
    } else if lex_lt(key, cs[0].0) {
    } else {
        lemma_sorted_bump_bounds(cs.drop_first(), key, b);
        assert forall|j: int| 0 <= j < r.len() implies 1 <= (#[trigger] r[j]).1 <= b + 1 by {
            if j > 0 {
                assert(r[j] == sorted_bump(cs.drop_first(), key)[j - 1]);
            }
        }
    }
}

/// Every severity tally is at least one and at most the member count.
/// Tally keys strictly ascending in lexicographic order.
pub open spec fn counts_sorted(cs: CountSeq) -> bool {
    forall|j1: int, j2: int| 0 <= j1 < j2 < cs.len() ==> lex_lt((#[trigger] cs[j1]).0, (#[trigger] cs[j2]).0)
}

proof fn lemma_sorted_bump_keeps_sorted(cs: CountSeq, key: Seq<char>)
    requires
        counts_sorted(cs),
    ensures
        counts_sorted(sorted_bump(cs, key)),
        forall|x: (Seq<char>, int)|
            sorted_bump(cs, key).contains(x) ==> x.0 == key || exists|j: int|
                0 <= j < cs.len() && (#[trigger] cs[j]).0 == x.0,
    decreases cs.len(),
{
    let r = sorted_bump(cs, key);
    if cs.len() == 0 {
    } else if cs[0].0 == key {
        assert forall|j1: int, j2: int| 0 <= j1 < j2 < r.len() implies lex_lt(
            (#[trigger] r[j1]).0,
            (#[trigger] r[j2]).0,
        ) by {
            if j1 > 0 {
                assert(r[j1] == cs[j1]);
            }
            assert(r[j2] == cs[j2]);
        }
        assert forall|x: (Seq<char>, int)| r.contains(x) implies x.0 == key || exists|j: int|
            0 <= j < cs.len() && (#[trigger] cs[j]).0 == x.0 by {
            let w = choose|w: int| 0 <= w < r.len() && r[w] == x;
            if w > 0 {
                assert(cs[w].0 == x.0);
            }
        }
    } else if lex_lt(key, cs[0].0) {
        assert forall|j1: int, j2: int| 0 <= j1 < j2 < r.len() implies lex_lt(
            (#[trigger] r[j1]).0,
            (#[trigger] r[j2]).0,
        ) by {
            if j1 == 0 {
                if j2 > 1 {
                    lemma_lex_lt_trans(key, cs[0].0, cs[j2 - 1].0);
                }
            } else {
                assert(r[j1] == cs[j1 - 1] && r[j2] == cs[j2 - 1]);
            }
        }
        assert forall|x: (Seq<char>, int)| r.contains(x) implies x.0 == key || exists|j: int|
            0 <= j < cs.len() && (#[trigger] cs[j]).0 == x.0 by {
            let w = choose|w: int| 0 <= w < r.len() && r[w] == x;
            if w > 0 {
                assert(cs[w - 1].0 == x.0);
            }
        }
    } else {
        let rest = sorted_bump(cs.drop_first(), key);
        assert forall|j1: int, j2: int|
            0 <= j1 < j2 < cs.drop_first().len() implies lex_lt(
            (#[trigger] cs.drop_first()[j1]).0,
            (#[trigger] cs.drop_first()[j2]).0,
        ) by {
            assert(cs.drop_first()[j1] == cs[j1 + 1]);
            assert(cs.drop_first()[j2] == cs[j2 + 1]);
        }
        lemma_sorted_bump_keeps_sorted(cs.drop_first(), key);
        lemma_lex_lt_total(key, cs[0].0);
        assert forall|j1: int, j2: int| 0 <= j1 < j2 < r.len() implies lex_lt(
            (#[trigger] r[j1]).0,
            (#[trigger] r[j2]).0,
        ) by {
            if j1 == 0 {
                assert(r[j2] == rest[j2 - 1]);
                assert(rest.contains(rest[j2 - 1]));
                if rest[j2 - 1].0 == key {
                    assert(lex_lt(cs[0].0, key));
                } else {
                    let w = choose|w: int|
                        0 <= w < cs.drop_first().len() && (#[trigger] cs.drop_first()[w]).0
                            == rest[j2 - 1].0;
                    assert(cs[w + 1].0 == rest[j2 - 1].0);
                    assert(lex_lt(cs[0].0, cs[w + 1].0));
                }
            } else {
                assert(r[j1] == rest[j1 - 1] && r[j2] == rest[j2 - 1]);
            }
        }
        assert forall|x: (Seq<char>, int)| r.contains(x) implies x.0 == key || exists|j: int|
            0 <= j < cs.len() && (#[trigger] cs[j]).0 == x.0 by {
            let w = choose|w: int| 0 <= w < r.len() && r[w] == x;
            if w == 0 {
                assert(cs[0].0 == x.0);
            } else {
                assert(rest[w - 1] == x);
                assert(rest.contains(x));
                if x.0 != key {
                    let v = choose|v: int|
                        0 <= v < cs.drop_first().len() && (#[trigger] cs.drop_first()[v]).0 == x.0;
                    assert(cs[v + 1].0 == x.0);
                }
            }
        }
    }
}

/// A group's severity tallies come out with their keys in ascending
/// lexicographic order.
pub proof fn lemma_severity_counts_sorted(items: Seq<IssueSummaryView>)
    ensures
        counts_sorted(spec_severity_counts(items)),
    decreases items.len(),
{
    if items.len() > 0 {
        lemma_severity_counts_sorted(items.drop_last());
        lemma_sorted_bump_keeps_sorted(
            spec_severity_counts(items.drop_last()),
            items.last().severity,
        );
    }
}

proof fn lemma_severity_counts_bounds(items: Seq<IssueSummaryView>)
    ensures
        forall|j: int|
            0 <= j < spec_severity_counts(items).len() ==> 1 <= (#[trigger] spec_severity_counts(
                items,
            )[j]).1 <= items.len(),
    decreases items.len(),
{
    if items.len() > 0 {
        lemma_severity_counts_bounds(items.drop_last());
        lemma_sorted_bump_bounds(
            spec_severity_counts(items.drop_last()),
            items.last().severity,
            items.len() - 1,
        );
    }
}

/// Tallies the severities of a group's members, keys in ascending
/// lexicographic order.
pub fn summarize_severity(items: &Vec<IssueSummary>) -> (r: Vec<(String, usize)>)
    ensures
        counts_view(r@) == spec_severity_counts(items.deep_view()),
        counts_sorted(counts_view(r@)),
{
    let mut r: Vec<(String, usize)> = Vec::new();
    let n = items.len();
    let mut i: usize = 0;
    proof {
        assert(items.deep_view().take(0) =~= Seq::<IssueSummaryView>::empty());
        assert(counts_view(r@) =~= spec_severity_counts(items.deep_view().take(0)));
    }
    while i < n
        invariant
            0 <= i <= n,
            n == items@.len(),
            n == items.deep_view().len(),
            counts_view(r@) == spec_severity_counts(items.deep_view().take(i as int)),
        decreases n - i,
    {
        let key = items[i].severity.clone();
        let ghost iv = items.deep_view();
        let ghost before = counts_view(r@);
        proof {
            assert(iv[i as int] == items@[i as int]@);
            assert(key@ == iv[i as int].severity);
            lemma_severity_counts_bounds(iv.take(i as int));
            assert(forall|j: int|
                0 <= j < before.len() ==> 1 <= (#[trigger] before[j]).1 <= i as int);
        }
        let m = r.len();
        let mut j: usize = 0;
        while j < m && str_lex_lt(r[j].0.as_str(), key.as_str())
            invariant
                0 <= j <= m,
                m == r@.len(),
                counts_view(r@) == before,
                key@ == iv[i as int].severity,
                forall|l: int| 0 <= l < j ==> lex_lt((#[trigger] before[l]).0, key@),
            decreases m - j,
        {
            j = j + 1;
        }
        proof {
            lemma_sorted_bump_at(before, key@, j as int);
        }
        if j < m && str_eq(r[j].0.as_str(), key.as_str()) {
            proof {
                assert(before[j as int].1 <= i as int);
                assert(r@[j as int].1 < usize::MAX);
            }
            let entry = r.remove(j);
            let bumped = entry.1 + 1;
            r.insert(j, (entry.0, bumped));
            proof {
                assert(counts_view(r@) =~= before.update(
                    j as int,
                    (before[j as int].0, before[j as int].1 + 1),
                ));
            }
        } else {
            r.insert(j, (key, 1));
            proof {
                assert(counts_view(r@) =~= before.insert(j as int, (iv[i as int].severity, 1int)));
            }
        }
        proof {
            assert(iv.take(i + 1).drop_last() =~= iv.take(i as int));
            assert(iv.take(i + 1).last() == iv[i as int]);
        }
        i = i + 1;
    }
    proof {
        assert(items.deep_view().take(n as int) =~= items.deep_view());
        lemma_severity_counts_sorted(items.deep_view());
    }
    r
}

/// The text of a tally run: `severity: count`, comma-joined, or a fixed
/// line when there is nothing to tally.
pub open spec fn spec_format_sev_summary(cs: CountSeq) -> Seq<char> {
    if cs.len() == 0 {
        "no severities"@
    } else {
        join_with(cs.map_values(|p: (Seq<char>, int)| p.0 + ": "@ + dec_digits(p.1)), ", "@)
    }
}

/// Formats a severity tally run.
pub fn format_severity_summary(counts: &Vec<(String, usize)>) -> (r: String)
    ensures
        r@ == spec_format_sev_summary(counts_view(counts@)),
{
    let n = counts.len();
    if n == 0 {
        return String::from_str("no severities");
    }
    let ghost cv = counts_view(counts@);
    let ghost target = cv.map_values(|p: (Seq<char>, int)| p.0 + ": "@ + dec_digits(p.1));
    let mut parts: Vec<String> = Vec::new();
    let mut i: usize = 0;
    proof {
        assert(seq_views(parts@) =~= target.take(0));
    }
    while i < n
        invariant
            0 <= i <= n,
            n == counts@.len(),
            cv == counts_view(counts@),
            target == cv.map_values(|p: (Seq<char>, int)| p.0 + ": "@ + dec_digits(p.1)),
            seq_views(parts@) == target.take(i as int),
        decreases n - i,
    {
        let mut part = counts[i].0.clone();
        part.append(": ");
        let num = usize_to_dec(counts[i].1);
        part.append(num.as_str());
        proof {
            assert(part@ == target[i as int]);
        }
        let ghost prevp = parts@;
        parts.push(part);
        proof {
            assert(parts@ == prevp.push(part));
            assert(seq_views(prevp) == target.take(i as int));
            assert(seq_views(prevp).len() == prevp.len());
            assert(prevp.len() == i);
            assert forall|k: int| 0 <= k < i + 1 implies seq_views(parts@)[k] == target.take(
                i + 1,
            )[k] by {
                if k < i {
                    assert(parts@[k] == prevp[k]);
                    assert(seq_views(prevp)[k] == target.take(i as int)[k]);
                } else {
                    assert(parts@[k] == part);
                }
            }
            assert(seq_views(parts@) =~= target.take(i + 1));
        }
        i = i + 1;
    }
    proof {
        assert(target.take(n as int) =~= target);
    }
    join_strings(&parts, ", ")
}

/// The hint printed under the profile-resolution theme.
pub open spec fn spec_profile_hint() -> Seq<char> {
    "This usually means the server doesn't have the required implementation guide packages (e.g., US Core) installed."@
}

/// The report's header block: title, file, base URL, and HTTP status.
pub open spec fn spec_header(file: Seq<char>, base: Seq<char>, status: u16) -> Seq<char> {
    "FHIR Validation\n"@ + "--------------\n"@ + "File: "@ + file + "\n"@ + "Base: "@ + base
        + "\n"@ + "HTTP: "@ + dec_digits(status as int) + "\n"@
}

/// The issue summary and category count lines.
pub open spec fn spec_summary_lines(
    total: int,
    errors: int,
    warnings: int,
    info: int,
    ncats: int,
) -> Seq<char> {
    "Issues: "@ + dec_digits(total) + " (errors: "@ + dec_digits(errors) + ", warnings: "@
        + dec_digits(warnings) + ", info: "@ + dec_digits(info) + ")\n"@ + "Total: "@ + dec_digits(
        total,
    ) + " issues in "@ + dec_digits(ncats) + " categories\n"@
}

/// The verdict line.
pub open spec fn spec_result_line(passed: bool) -> Seq<char> {
    if passed {
        "Result: PASS ✅\n"@
    } else {
        "Result: FAIL ❌\n"@
    }
}

/// One ranked theme line, with the hint under the profile-resolution
/// theme.
pub open spec fn spec_theme_line(e: (Seq<char>, int), idx: int) -> Seq<char> {
    "  "@ + dec_digits(idx) + ". "@ + e.0 + " (x"@ + dec_digits(e.1) + ")\n"@ + (if e.0
        == spec_profile_theme() {
        "  "@ + spec_profile_hint() + "\n"@
    } else {
        Seq::empty()
    })
}

/// The ranked theme lines for a sorted run, first rank `idx`.
pub open spec fn spec_theme_lines(entries: CountSeq, idx: int) -> Seq<char>
    decreases entries.len(),
{
    if entries.len() == 0 {
        Seq::empty()
    } else {
        spec_theme_line(entries[0], idx) + spec_theme_lines(entries.drop_first(), idx + 1)
    }
}

/// The themes section: sorted by descending count, ties by ascending
/// name, or a `none` line.
pub open spec fn spec_themes_section(counts: CountSeq) -> Seq<char> {
    "Themes:\n"@ + if counts.len() == 0 {
        "  none\n"@
    } else {
        spec_theme_lines(spec_sort_themes(counts), 1)
    }
}

/// One indexed member block: severity and message, then its locations,
/// expressions, and — only under an expression line — the extracted line
/// number.
pub open spec fn spec_member_block(m: IssueSummaryView, idx: int) -> Seq<char> {
    "  "@ + dec_digits(idx) + ". ["@ + m.severity + "] "@ + spec_display_message(m.message)
        + "\n"@ + (if m.location.len() > 0 {
        "     location: "@ + join_with(m.location, ", "@) + "\n"@
    } else {
        Seq::empty()
    }) + (if m.expression.len() > 0 {
        "     expression: "@ + join_with(m.expression, ", "@) + "\n"@ + (match m.line {
            Some(l) => "     line: "@ + dec_digits(l as int) + "\n"@,
            None => Seq::empty(),
        })
    } else {
        Seq::empty()
    })
}

/// The member blocks of a group, in arrival order, first index `idx`.
pub open spec fn spec_member_blocks(ms: Seq<IssueSummaryView>, idx: int) -> Seq<char>
    decreases ms.len(),
{
    if ms.len() == 0 {
        Seq::empty()
    } else {
        spec_member_block(ms[0], idx) + spec_member_blocks(ms.drop_first(), idx + 1)
    }
}

/// One group block: key, member count, severity tally, and the members.
pub open spec fn spec_group_block(g: (Seq<char>, Seq<IssueSummaryView>)) -> Seq<char> {
    "- "@ + g.0 + " ("@ + dec_digits(g.1.len() as int) + "): "@ + spec_format_sev_summary(
        spec_severity_counts(g.1),
    ) + "\n"@ + spec_member_blocks(g.1, 1)
}

/// The blocks of a sorted group run.
pub open spec fn spec_group_blocks(gs: GroupSeq) -> Seq<char>
    decreases gs.len(),
{
    if gs.len() == 0 {
        Seq::empty()
    } else {
        spec_group_block(gs[0]) + spec_group_blocks(gs.drop_first())
    }
}

/// A report passes when nothing counted as an error and the HTTP status
/// is a success code.
pub open spec fn spec_report_passed(r: ValidationReport) -> bool {
    r.error_count == 0 && 200 <= r.status < 300
}

/// The full report text, line for line.
pub open spec fn spec_format_report(r: ValidationReport) -> Seq<char> {
    spec_header(r.file@, r.base_url@, r.status) + spec_summary_lines(
        r.total as int,
        r.error_count as int,
        r.warning_count as int,
        r.info_count as int,
        r.groups@.len() as int,
    ) + spec_result_line(spec_report_passed(r)) + spec_themes_section(
        counts_view(r.theme_counts@),
    ) + (if r.groups@.len() == 0 {
        "\nNo issues reported.\n"@
    } else {
        "\nIssue Categories (severity/code/message):\n"@ + spec_group_blocks(
            spec_sort_groups(groups_view(r.groups@)),
        )
    })
}

/// Appends one member's block: index, severity, message, then locations,
/// expressions, and the extracted line number under the expression line.
fn append_member_head_line(out: &mut String, m: &IssueSummary, l: usize)
    requires
        l < usize::MAX,
    ensures
        final(out)@ == old(out)@ + ("  "@ + dec_digits(l + 1) + ". ["@ + m@.severity + "] "@
            + spec_display_message(m@.message) + "\n"@),
{
    out.append("  ");
    let num = usize_to_dec(l + 1);
    out.append(num.as_str());
    out.append(". [");
    out.append(m.severity.as_str());
    out.append("] ");
    if m.message.unicode_len() == 0 {
        out.append("(no diagnostics provided)");
    } else {
        out.append(m.message.as_str());
    }
    out.append("\n");
    proof {
        assert(out@ =~= old(out)@ + ("  "@ + dec_digits(l + 1) + ". ["@ + m@.severity + "] "@
            + spec_display_message(m@.message) + "\n"@));
    }
}

fn append_location_line(out: &mut String, m: &IssueSummary)
    ensures
        final(out)@ == old(out)@ + (if m@.location.len() > 0 {
            "     location: "@ + join_with(m@.location, ", "@) + "\n"@
        } else {
            Seq::empty()
        }),
{
    proof {
        assert(m@.location.len() == m.location@.len());
    }
    if m.location.len() > 0 {
        out.append("     location: ");
        let joined = join_strings(&m.location, ", ");
        out.append(joined.as_str());
        out.append("\n");
        proof {
            assert(seq_views(m.location@) =~= m@.location);
            assert(out@ =~= old(out)@ + ("     location: "@ + join_with(m@.location, ", "@)
                + "\n"@));
        }
    } else {
        proof {
            assert(out@ =~= old(out)@ + Seq::<char>::empty());
        }
    }
}

fn append_expression_lines(out: &mut String, m: &IssueSummary)
    ensures
        final(out)@ == old(out)@ + (if m@.expression.len() > 0 {
            "     expression: "@ + join_with(m@.expression, ", "@) + "\n"@ + (match m@.line {
                Some(ln) => "     line: "@ + dec_digits(ln as int) + "\n"@,
                None => Seq::empty(),
            })
        } else {
            Seq::empty()
        }),
{
    proof {
        assert(m@.expression.len() == m.expression@.len());
    }
    if m.expression.len() > 0 {
        out.append("     expression: ");
        let joined = join_strings(&m.expression, ", ");
        out.append(joined.as_str());
        out.append("\n");
        proof {
            assert(seq_views(m.expression@) =~= m@.expression);
        }
        if let Some(line) = m.line {
            out.append("     line: ");
            let ln = u64_to_dec(line as u64);
            out.append(ln.as_str());
            out.append("\n");
            proof {
                assert(out@ =~= old(out)@ + ("     expression: "@ + join_with(
                    m@.expression,
                    ", "@,
                ) + "\n"@ + ("     line: "@ + dec_digits(line as int) + "\n"@)));
            }
        } else {
            proof {
                assert(out@ =~= old(out)@ + ("     expression: "@ + join_with(
                    m@.expression,
                    ", "@,
                ) + "\n"@ + Seq::<char>::empty()));
            }
        }
    } else {
        proof {
            assert(out@ =~= old(out)@ + Seq::<char>::empty());
        }
    }
}

fn append_member_block(out: &mut String, m: &IssueSummary, l: usize)
    requires
        l < usize::MAX,
    ensures
        final(out)@ == old(out)@ + spec_member_block(m@, l + 1),
{
    append_member_head_line(out, m, l);
    append_location_line(out, m);
    append_expression_lines(out, m);
    proof {
        assert(out@ =~= old(out)@ + spec_member_block(m@, l + 1));
    }
}

/// Renders the report: header, tallies, verdict, themes in display
/// order, and the grouped issues in display order.
#[verifier::rlimit(100)]
pub fn format_report(report: &ValidationReport) -> (r: String)
    ensures
        r@ == spec_format_report(*report),
{
    let mut out = String::new();
    out.append("FHIR Validation\n");
    out.append("--------------\n");
    out.append("File: ");
    out.append(report.file.as_str());
    out.append("\n");
    out.append("Base: ");
    out.append(report.base_url.as_str());
    out.append("\n");
    out.append("HTTP: ");
    let st = u64_to_dec(report.status as u64);
    out.append(st.as_str());
    out.append("\n");
    proof {
        assert(out@ =~= spec_header(report.file@, report.base_url@, report.status));
    }
    let ghost after_header = out@;
    out.append("Issues: ");
    let t1 = usize_to_dec(report.total);
    out.append(t1.as_str());
    out.append(" (errors: ");
    let t2 = usize_to_dec(report.error_count);
    out.append(t2.as_str());
    out.append(", warnings: ");
    let t3 = usize_to_dec(report.warning_count);
    out.append(t3.as_str());
    out.append(", info: ");
    let t4 = usize_to_dec(report.info_count);
    out.append(t4.as_str());
    out.append(")\n");
    out.append("Total: ");
    let t5 = usize_to_dec(report.total);
    out.append(t5.as_str());
    out.append(" issues in ");
    let t6 = usize_to_dec(report.groups.len());
    out.append(t6.as_str());
    out.append(" categories\n");
    proof {
        assert(out@ =~= after_header + spec_summary_lines(
            report.total as int,
            report.error_count as int,
            report.warning_count as int,
            report.info_count as int,
            report.groups@.len() as int,
        ));
    }
    let ghost after_summary = out@;
    if report.error_count == 0 && 200 <= report.status && report.status < 300 {
        out.append("Result: PASS ✅\n");
    } else {
        out.append("Result: FAIL ❌\n");
    }
    proof {
        assert(out@ == after_summary + spec_result_line(spec_report_passed(*report)));
    }
    let ghost after_result = out@;
    out.append("Themes:\n");
    if report.theme_counts.len() == 0 {
        out.append("  none\n");
        proof {
            assert(counts_view(report.theme_counts@).len() == 0);
            assert(out@ =~= after_result + spec_themes_section(counts_view(report.theme_counts@)));
        }
    } else {
        let sorted = sorted_theme_counts(&report.theme_counts);
        let ghost tv = counts_view(sorted@);
        let tn = sorted.len();
        let ghost base = out@;
        let mut i: usize = 0;
        proof {
            assert(tv.skip(0) =~= tv);
        }
        while i < tn
            invariant
                0 <= i <= tn,
                tn == sorted@.len(),
                tv == counts_view(sorted@),
                out@ + spec_theme_lines(tv.skip(i as int), i + 1) == base + spec_theme_lines(tv, 1),
            decreases tn - i,
        {
            let ghost pre = out@;
            out.append("  ");
            let num = usize_to_dec(i + 1);
            out.append(num.as_str());
            out.append(". ");
            out.append(sorted[i].0.as_str());
            out.append(" (x");
            let cnt = usize_to_dec(sorted[i].1);
            out.append(cnt.as_str());
            out.append(")\n");
            let pt = profile_resolution_theme();
            if str_eq(sorted[i].0.as_str(), pt.as_str()) {
                out.append("  ");
                out.append(
                    "This usually means the server doesn't have the required implementation guide packages (e.g., US Core) installed.",
                );
                out.append("\n");
            }
            proof {
                assert(tv[i as int].0 == sorted@[i as int].0@ && tv[i as int].1 == sorted@[i as int].1 as int);
                assert(out@ =~= pre + spec_theme_line(tv[i as int], i + 1));
                assert(tv.skip(i as int)[0] == tv[i as int]);
                assert(tv.skip(i as int).drop_first() =~= tv.skip(i + 1));
                assert(spec_theme_lines(tv.skip(i as int), i + 1) == spec_theme_line(
                    tv[i as int],
                    i + 1,
                ) + spec_theme_lines(tv.skip(i + 1), i + 2));
                assert((pre + spec_theme_line(tv[i as int], i + 1)) + spec_theme_lines(
                    tv.skip(i + 1),
                    i + 2,
                ) =~= pre + (spec_theme_line(tv[i as int], i + 1) + spec_theme_lines(
                    tv.skip(i + 1),
                    i + 2,
                )));
            }
            i = i + 1;
        }
        proof {
            assert(tv.skip(tn as int) =~= Seq::<(Seq<char>, int)>::empty());
            assert(out@ + Seq::<char>::empty() =~= out@);
            assert(counts_view(report.theme_counts@).len() == report.theme_counts@.len());
            assert(out@ == after_result + ("Themes:\n"@ + spec_theme_lines(
                spec_sort_themes(counts_view(report.theme_counts@)),
                1,
            )));
            assert(out@ == after_result + spec_themes_section(counts_view(report.theme_counts@)));
        }
    }
    let ghost after_themes = out@;
    if report.groups.len() == 0 {
        out.append("\nNo issues reported.\n");
        proof {
            assert(out@ == spec_format_report(*report));
        }
        return out;
    }
    out.append("\nIssue Categories (severity/code/message):\n");
    let sorted_gs = sorted_groups(&report.groups);
    let ghost gv = groups_view(sorted_gs@);
    let gn = sorted_gs.len();
    let ghost gbase = out@;
    let mut i: usize = 0;
    proof {
        assert(gv.skip(0) =~= gv);
    }
    while i < gn
        invariant
            0 <= i <= gn,
            gn == sorted_gs@.len(),
            gv == groups_view(sorted_gs@),
            out@ + spec_group_blocks(gv.skip(i as int)) == gbase + spec_group_blocks(gv),
        decreases gn - i,
    {
        let ghost gpre = out@;
        out.append("- ");
        out.append(sorted_gs[i].0.as_str());
        out.append(" (");
        let gc = usize_to_dec(sorted_gs[i].1.len());
        out.append(gc.as_str());
        out.append("): ");
        let sevs = summarize_severity(&sorted_gs[i].1);
        let summ = format_severity_summary(&sevs);
        out.append(summ.as_str());
        out.append("\n");
        proof {
            assert(gv[i as int].0 == sorted_gs@[i as int].0@ && gv[i as int].1 == sorted_gs@[i as int].1.deep_view());
            assert(out@ =~= gpre + ("- "@ + gv[i as int].0 + " ("@ + dec_digits(
                gv[i as int].1.len() as int,
            ) + "): "@ + spec_format_sev_summary(spec_severity_counts(gv[i as int].1)) + "\n"@));
        }
        let ghost mpre = out@;
        let members = &sorted_gs[i].1;
        let mn = members.len();
        let ghost mv = gv[i as int].1;
        let mut l: usize = 0;
        proof {
            assert(mv.skip(0) =~= mv);
            assert(mv.len() == mn);
        }
        while l < mn
            invariant
                0 <= l <= mn,
                mn == members@.len(),
                mv == members.deep_view(),
                mv.len() == mn,
                out@ + spec_member_blocks(mv.skip(l as int), l + 1) == mpre + spec_member_blocks(
                    mv,
                    1,
                ),
            decreases mn - l,
        {
            let ghost lpre = out@;
            proof {
                assert(mv[l as int] == members@[l as int]@);
            }
            append_member_block(&mut out, &members[l], l);
            proof {
                assert(mv.skip(l as int)[0] == mv[l as int]);
                assert(mv.skip(l as int).drop_first() =~= mv.skip(l + 1));
                assert(spec_member_blocks(mv.skip(l as int), l + 1) == spec_member_block(
                    mv[l as int],
                    l + 1,
                ) + spec_member_blocks(mv.skip(l + 1), l + 2));
                assert((lpre + spec_member_block(mv[l as int], l + 1)) + spec_member_blocks(
                    mv.skip(l + 1),
                    l + 2,
                ) =~= lpre + (spec_member_block(mv[l as int], l + 1) + spec_member_blocks(
                    mv.skip(l + 1),
                    l + 2,
                )));
            }
            l = l + 1;
        }
        proof {
            assert(mv.skip(mn as int) =~= Seq::<IssueSummaryView>::empty());
            assert(out@ + Seq::<char>::empty() =~= out@);
            assert(out@ == gpre + spec_group_block(gv[i as int]));
            assert(gv.skip(i as int)[0] == gv[i as int]);
            assert(gv.skip(i as int).drop_first() =~= gv.skip(i + 1));
            assert(spec_group_blocks(gv.skip(i as int)) == spec_group_block(gv[i as int])
                + spec_group_blocks(gv.skip(i + 1)));
            assert((gpre + spec_group_block(gv[i as int])) + spec_group_blocks(
                gv.skip(i + 1),
            ) =~= gpre + (spec_group_block(gv[i as int]) + spec_group_blocks(gv.skip(i + 1))));
        }
        i = i + 1;
    }
    proof {
        assert(gv.skip(gn as int) =~= Seq::<(Seq<char>, Seq<IssueSummaryView>)>::empty());
        assert(out@ + Seq::<char>::empty() =~= out@);
        assert(groups_view(report.groups@).len() == report.groups@.len());
        assert(out@ == spec_format_report(*report));
    }
    out
}

} // verus!
