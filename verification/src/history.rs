//! The co-occurrence miner: given the raw commit-history text (one block of
//! changed paths per commit, blocks separated by an explicit separator
//! token), count for every other file how many commits touched both it and
//! the target, and rank candidates by that count, descending, first-seen
//! order breaking ties.
use vstd::prelude::*;
use crate::text::{str_eq, ends_with, trim, split_on_char, split_char, trimmed, is_suffix_of,
    lemma_split_char_len};
use crate::rank::{insert_desc, sort_desc, sorted_desc, lemma_insert_desc_at, lemma_sort_desc_len,
    lemma_sort_desc_contains, lemma_sort_desc_sorted};

verus! {

/// The separator token injected into the history request, one per commit.
pub open spec fn separator() -> Seq<char> {
    "COMMIT_START"@
}

/// Each history line, trimmed, in order.
pub open spec fn trimmed_lines(ls: Seq<Seq<char>>) -> Seq<Seq<char>>
    decreases ls.len(),
{
    if ls.len() == 0 {
        Seq::<Seq<char>>::empty()
    } else {
        trimmed_lines(ls.drop_last()).push(trimmed(ls.last()))
    }
}

/// The grouping state after consuming a prefix of the trimmed lines: the
/// completed groups and the group still being filled. A separator line
/// closes the current group, an empty line is skipped, any other line is a
/// path in the current group.
pub open spec fn group_fold(ls: Seq<Seq<char>>) -> (Seq<Seq<Seq<char>>>, Seq<Seq<char>>)
    decreases ls.len(),
{
    if ls.len() == 0 {
        (Seq::<Seq<Seq<char>>>::empty(), Seq::<Seq<char>>::empty())
    } else {
        let prev = group_fold(ls.drop_last());
        let l = ls.last();
        if l == separator() {
            (prev.0.push(prev.1), Seq::<Seq<char>>::empty())
        } else if l.len() == 0 {
            prev
        } else {
            (prev.0, prev.1.push(l))
        }
    }
}

/// The commit groups of the raw history text: lines split on newlines,
/// trimmed, grouped at separator tokens; the trailing open group counts too.
pub open spec fn commit_groups_spec(log: Seq<char>) -> Seq<Seq<Seq<char>>> {
    let st = group_fold(trimmed_lines(split_char(log, '\n')));
    st.0.push(st.1)
}

/// A history path hits the target: exact match, or the target is a suffix
/// (tolerating root-relative against path-relative spellings).
pub open spec fn is_hit(f: Seq<char>, target: Seq<char>) -> bool {
    f == target || is_suffix_of(target, f)
}

/// The group contains the target file.
pub open spec fn group_has_target(g: Seq<Seq<char>>, target: Seq<char>) -> bool {
    exists|j: int| 0 <= j < g.len() && is_hit(#[trigger] g[j], target)
}

/// How many entries of one group are exactly `p`.
pub open spec fn occ_in_group(g: Seq<Seq<char>>, p: Seq<char>) -> nat
    decreases g.len(),
{
    if g.len() == 0 {
        0
    } else {
        occ_in_group(g.drop_last(), p) + (if g.last() == p {
            1nat
        } else {
            0nat
        })
    }
}

/// The co-occurrence count of `p`: over every group that contains the
/// target, the number of times `p` is listed.
pub open spec fn count_of(gs: Seq<Seq<Seq<char>>>, target: Seq<char>, p: Seq<char>) -> nat
    decreases gs.len(),
{
    if gs.len() == 0 {
        0
    } else {
        count_of(gs.drop_last(), target, p) + (if group_has_target(gs.last(), target) {
            occ_in_group(gs.last(), p)
        } else {
            0nat
        })
    }
}

/// The candidates one target-containing group appends to `acc`: each listed
/// file, in order, that is not the target itself (exactly or by suffix) and
/// was not seen before.
pub open spec fn cand_in_group(acc: Seq<Seq<char>>, g: Seq<Seq<char>>, target: Seq<char>) -> Seq<
    Seq<char>,
>
    decreases g.len(),
{
    if g.len() == 0 {
        acc
    } else {
        let prev = cand_in_group(acc, g.drop_last(), target);
        let f = g.last();
        if is_hit(f, target) || prev.contains(f) {
            prev
        } else {
            prev.push(f)
        }
    }
}

/// All candidate files, in first-seen order over the groups that contain
/// the target.
pub open spec fn candidates(gs: Seq<Seq<Seq<char>>>, target: Seq<char>) -> Seq<Seq<char>>
    decreases gs.len(),
{
    if gs.len() == 0 {
        Seq::<Seq<char>>::empty()
    } else {
        let prev = candidates(gs.drop_last(), target);
        if group_has_target(gs.last(), target) {
            cand_in_group(prev, gs.last(), target)
        } else {
            prev
        }
    }
}

/// The total number of path entries over all groups.
pub open spec fn total_len(gs: Seq<Seq<Seq<char>>>) -> nat
    decreases gs.len(),
{
    if gs.len() == 0 {
        0
    } else {
        total_len(gs.drop_last()) + gs.last().len()
    }
}

pub proof fn lemma_occ_le_len(g: Seq<Seq<char>>, p: Seq<char>)
    ensures
        occ_in_group(g, p) <= g.len(),
    decreases g.len(),
{
    if g.len() > 0 {
        lemma_occ_le_len(g.drop_last(), p);
    }
}

/// A co-occurrence count never exceeds the total number of path entries.
pub proof fn lemma_count_le_total(gs: Seq<Seq<Seq<char>>>, target: Seq<char>, p: Seq<char>)
    ensures
        count_of(gs, target, p) <= total_len(gs),
    decreases gs.len(),
{
    if gs.len() > 0 {
        lemma_count_le_total(gs.drop_last(), target, p);
        lemma_occ_le_len(gs.last(), p);
    }
}

pub proof fn lemma_trimmed_lines_len(ls: Seq<Seq<char>>)
    ensures
        trimmed_lines(ls).len() == ls.len(),
    decreases ls.len(),
{
    if ls.len() > 0 {
        lemma_trimmed_lines_len(ls.drop_last());
    }
}

/// The grouping never invents entries: completed groups and the open group
/// together hold at most one entry per line.
pub proof fn lemma_group_fold_total(ls: Seq<Seq<char>>)
    ensures
        total_len(group_fold(ls).0) + group_fold(ls).1.len() <= ls.len(),
    decreases ls.len(),
{
    if ls.len() > 0 {
        lemma_group_fold_total(ls.drop_last());
        let prev = group_fold(ls.drop_last());
        let l = ls.last();
        if l == separator() {
            lemma_total_len_push(prev.0, prev.1);
        }
    }
}

pub proof fn lemma_total_len_push(gs: Seq<Seq<Seq<char>>>, g: Seq<Seq<char>>)
    ensures
        total_len(gs.push(g)) == total_len(gs) + g.len(),
{
    assert(gs.push(g).drop_last() =~= gs);
    assert(gs.push(g).last() == g);
}

/// The total entry count of the parsed groups is bounded by the length of
/// the history text plus one.
pub proof fn lemma_groups_total_bound(log: Seq<char>)
    ensures
        total_len(commit_groups_spec(log)) <= log.len() + 1,
{
    let lines = split_char(log, '\n');
    let tls = trimmed_lines(lines);
    let st = group_fold(tls);
    lemma_group_fold_total(tls);
    lemma_total_len_push(st.0, st.1);
    lemma_trimmed_lines_len(lines);
    lemma_split_char_len(log, '\n');
}

/// Every candidate is distinct from the target: the target itself, exactly
/// or by suffix, is never offered as related.
pub proof fn lemma_cand_in_group_excluded(
    acc: Seq<Seq<char>>,
    g: Seq<Seq<char>>,
    target: Seq<char>,
    p: Seq<char>,
)
    requires
        cand_in_group(acc, g, target).contains(p),
        !acc.contains(p),
    ensures
        !is_hit(p, target),
    decreases g.len(),
{
    if g.len() > 0 {
        let prev = cand_in_group(acc, g.drop_last(), target);
        let f = g.last();
        if is_hit(f, target) || prev.contains(f) {
            lemma_cand_in_group_excluded(acc, g.drop_last(), target, p);
        } else {
            if prev.contains(p) {
                lemma_cand_in_group_excluded(acc, g.drop_last(), target, p);
            } else {
                assert(prev.push(f)[prev.push(f).len() - 1] == f);
                assert(p == f);
            }
        }
    }
}

proof fn lemma_cand_in_group_occurs(
    acc: Seq<Seq<char>>,
    g: Seq<Seq<char>>,
    target: Seq<char>,
    p: Seq<char>,
)
    requires
        cand_in_group(acc, g, target).contains(p),
        !acc.contains(p),
    ensures
        occ_in_group(g, p) >= 1,
    decreases g.len(),
{
    if g.len() > 0 {
        let prev = cand_in_group(acc, g.drop_last(), target);
        let f = g.last();
        if is_hit(f, target) || prev.contains(f) {
            lemma_cand_in_group_occurs(acc, g.drop_last(), target, p);
        } else {
            if prev.contains(p) {
                lemma_cand_in_group_occurs(acc, g.drop_last(), target, p);
            } else {
                assert(prev.push(f)[prev.push(f).len() - 1] == f);
                assert(p == f);
            }
        }
    }
}

/// Every candidate co-occurs with the target in at least one commit group:
/// files outside the target's groups are never offered.
pub proof fn lemma_candidates_count(gs: Seq<Seq<Seq<char>>>, target: Seq<char>, p: Seq<char>)
    requires
        candidates(gs, target).contains(p),
    ensures
        count_of(gs, target, p) >= 1,
    decreases gs.len(),
{
    if gs.len() > 0 {
        let prev = candidates(gs.drop_last(), target);
        if group_has_target(gs.last(), target) {
            if prev.contains(p) {
                lemma_candidates_count(gs.drop_last(), target, p);
            } else {
                lemma_cand_in_group_occurs(prev, gs.last(), target, p);
            }
        } else {
            lemma_candidates_count(gs.drop_last(), target, p);
        }
    }
}

pub proof fn lemma_candidates_excluded(gs: Seq<Seq<Seq<char>>>, target: Seq<char>, p: Seq<char>)
    requires
        candidates(gs, target).contains(p),
    ensures
        !is_hit(p, target),
    decreases gs.len(),
{
    if gs.len() > 0 {
        let prev = candidates(gs.drop_last(), target);
        if group_has_target(gs.last(), target) {
            if prev.contains(p) {
                lemma_candidates_excluded(gs.drop_last(), target, p);
            } else {
                lemma_cand_in_group_excluded(prev, gs.last(), target, p);
            }
        } else {
            lemma_candidates_excluded(gs.drop_last(), target, p);
        }
    }
}

/// Split the raw history text into commit groups of trimmed, non-empty
/// path lines, one group per separator token.
pub fn commit_groups(log: &str) -> (r: Vec<Vec<String>>)
    ensures
        r.deep_view() == commit_groups_spec(log@),
{
    let parts = split_on_char(log, '\n');
    let mut groups: Vec<Vec<String>> = Vec::new();
    let mut cur: Vec<String> = Vec::new();
    let ghost parts_dv = parts.deep_view();
    let mut i: usize = 0;
    proof {
        assert(parts_dv.take(0) =~= Seq::<Seq<char>>::empty());
        assert(groups.deep_view() =~= group_fold(trimmed_lines(parts_dv.take(0))).0);
        assert(cur.deep_view() =~= group_fold(trimmed_lines(parts_dv.take(0))).1);
    }
    while i < parts.len()
        invariant
            i <= parts.len(),
            parts_dv == parts.deep_view(),
            parts_dv.len() == parts@.len(),
            groups.deep_view() == group_fold(trimmed_lines(parts_dv.take(i as int))).0,
            cur.deep_view() == group_fold(trimmed_lines(parts_dv.take(i as int))).1,
        decreases parts.len() - i,
    {
        proof {
            let t1 = parts_dv.take(i + 1);
            assert(t1.drop_last() =~= parts_dv.take(i as int));
            assert(t1.last() == parts_dv[i as int]);
            let u1 = trimmed_lines(t1);
            assert(u1.drop_last() =~= trimmed_lines(parts_dv.take(i as int)));
            assert(u1.last() == trimmed(parts_dv[i as int]));
        }
        let line = trim(parts[i].as_str());
        if str_eq(line.as_str(), "COMMIT_START") {
            let ghost old_groups = groups.deep_view();
            let ghost old_cur = cur.deep_view();
            groups.push(cur);
            cur = Vec::new();
            proof {
                assert(groups.deep_view() =~= old_groups.push(old_cur));
                assert(cur.deep_view() =~= Seq::<Seq<char>>::empty());
            }
        } else if !line.as_str().is_empty() {
            let ghost old_cur = cur.deep_view();
            let ghost lv = line@;
            cur.push(line);
            proof {
                assert(cur.deep_view() =~= old_cur.push(lv));
            }
        }
        i += 1;
    }
    proof {
        assert(parts_dv.take(parts_dv.len() as int) =~= parts_dv);
    }
    let ghost old_groups = groups.deep_view();
    let ghost old_cur = cur.deep_view();
    groups.push(cur);
    proof {
        assert(groups.deep_view() =~= old_groups.push(old_cur));
    }
    groups
}

fn is_hit_exec(f: &str, target: &str) -> (r: bool)
    ensures
        r == is_hit(f@, target@),
{
    str_eq(f, target) || ends_with(f, target)
}

fn group_contains_target(g: &Vec<String>, target: &str) -> (r: bool)
    ensures
        r == group_has_target(g.deep_view(), target@),
{
    let mut j: usize = 0;
    while j < g.len()
        invariant
            j <= g.len(),
            forall|k: int| 0 <= k < j ==> !is_hit(#[trigger] g.deep_view()[k], target@),
        decreases g.len() - j,
    {
        if is_hit_exec(g[j].as_str(), target) {
            proof {
                assert(is_hit(g.deep_view()[j as int], target@));
            }
            return true;
        }
        j += 1;
    }
    false
}

fn contains_path(v: &Vec<String>, f: &str) -> (r: bool)
    ensures
        r == v.deep_view().contains(f@),
{
    let mut j: usize = 0;
    while j < v.len()
        invariant
            j <= v.len(),
            forall|k: int| 0 <= k < j ==> v.deep_view()[k] != f@,
        decreases v.len() - j,
    {
        if str_eq(v[j].as_str(), f) {
            proof {
                assert(v.deep_view()[j as int] == f@);
            }
            return true;
        }
        j += 1;
    }
    proof {
        assert(!v.deep_view().contains(f@)) by {
            if v.deep_view().contains(f@) {
                let k = choose|k: int| 0 <= k < v.deep_view().len() && v.deep_view()[k] == f@;
            }
        }
    }
    false
}

/// The ranking key view of the working entries: path and count.
pub open spec fn pair_views(v: Seq<(String, u128)>) -> Seq<(Seq<char>, int)> {
    Seq::new(v.len(), |k: int| (v[k].0@, v[k].1 as int))
}

/// Sort working entries by count, descending, stably: equal counts keep
/// their first-seen order.
fn sort_entries(entries: Vec<(String, u128)>) -> (r: Vec<(String, u128)>)
    ensures
        pair_views(r@) == sort_desc(pair_views(entries@)),
{
    let ghost pv = pair_views(entries@);
    let mut sorted: Vec<(String, u128)> = Vec::new();
    let mut idx: usize = 0;
    proof {
        assert(pv.take(0) =~= Seq::<(Seq<char>, int)>::empty());
        assert(pair_views(sorted@) =~= sort_desc(pv.take(0)));
    }
    while idx < entries.len()
        invariant
            idx <= entries.len(),
            pv == pair_views(entries@),
            pv.len() == entries@.len(),
            pair_views(sorted@) == sort_desc(pv.take(idx as int)),
        decreases entries.len() - idx,
    {
        let path = entries[idx].0.clone();
        let key = entries[idx].1;
        let ghost x = (path@, key as int);
        proof {
            assert(x == pv[idx as int]);
        }
        let mut j: usize = 0;
        while j < sorted.len() && sorted[j].1 >= key
            invariant
                j <= sorted.len(),
                forall|k: int| 0 <= k < j ==> (#[trigger] pair_views(sorted@)[k]).1 >= key as int,
            decreases sorted.len() - j,
        {
            proof {
                assert(pair_views(sorted@)[j as int].1 == sorted@[j as int].1 as int);
            }
            j += 1;
        }
        let ghost before = pair_views(sorted@);
        proof {
            if j < sorted.len() {
                assert(before[j as int].1 == sorted@[j as int].1 as int);
            }
            lemma_insert_desc_at(before, x, j as int);
        }
        sorted.insert(j, (path, key));
        proof {
            assert(pair_views(sorted@) =~= before.take(j as int).push(x) + before.skip(j as int));
            let t1 = pv.take(idx + 1);
            assert(t1.drop_last() =~= pv.take(idx as int));
            assert(t1.last() == pv[idx as int]);
            assert(pair_views(sorted@) =~= sort_desc(pv.take(idx + 1)));
        }
        idx += 1;
    }
    proof {
        assert(pv.take(pv.len() as int) =~= pv);
    }
    sorted
}

/// The candidate/count pairs, in first-seen order.
pub open spec fn pairs_spec(gs: Seq<Seq<Seq<char>>>, target: Seq<char>) -> Seq<(Seq<char>, int)> {
    Seq::new(
        candidates(gs, target).len(),
        |k: int| (candidates(gs, target)[k], count_of(gs, target, candidates(gs, target)[k]) as int),
    )
}

/// What `get_related_files` returns: the candidate files ranked by
/// co-occurrence count, descending, stably, cut to `limit`.
pub open spec fn related_files_spec(log: Seq<char>, target: Seq<char>, limit: int) -> Seq<
    Seq<char>,
> {
    let ranked = sort_desc(pairs_spec(commit_groups_spec(log), target));
    let n = if limit < ranked.len() {
        limit
    } else {
        ranked.len() as int
    };
    Seq::new(n as nat, |k: int| ranked[k].0)
}

/// A repository with no history yields the empty list, never an error.
pub proof fn lemma_empty_history(target: Seq<char>, limit: int)
    requires
        0 <= limit,
    ensures
        related_files_spec(Seq::<char>::empty(), target, limit) == Seq::<Seq<char>>::empty(),
{
    let log = Seq::<char>::empty();
    assert(split_char(log, '\n') =~= seq![Seq::<char>::empty()]);
    let lines = split_char(log, '\n');
    assert(lines.drop_last() =~= Seq::<Seq<char>>::empty());
    assert(lines.last() =~= Seq::<char>::empty());
    assert(trimmed_lines(Seq::<Seq<char>>::empty()) =~= Seq::<Seq<char>>::empty());
    assert(trimmed(Seq::<char>::empty()) =~= Seq::<char>::empty());
    let tls = trimmed_lines(lines);
    assert(tls =~= seq![Seq::<char>::empty()]);
    assert(tls.drop_last() =~= Seq::<Seq<char>>::empty());
    reveal_strlit("COMMIT_START");
    assert(tls.last() != separator());
    assert(group_fold(Seq::<Seq<char>>::empty()).0 =~= Seq::<Seq<Seq<char>>>::empty());
    assert(group_fold(Seq::<Seq<char>>::empty()).1 =~= Seq::<Seq<char>>::empty());
    assert(tls.last().len() == 0);
    assert(group_fold(tls).0 =~= Seq::<Seq<Seq<char>>>::empty());
    assert(group_fold(tls).1 =~= Seq::<Seq<char>>::empty());
    let gs = commit_groups_spec(log);
    assert(gs =~= seq![Seq::<Seq<char>>::empty()]);
    assert(!group_has_target(Seq::<Seq<char>>::empty(), target));
    assert(gs.drop_last() =~= Seq::<Seq<Seq<char>>>::empty());
    assert(gs.last() =~= Seq::<Seq<char>>::empty());
    assert(candidates(Seq::<Seq<Seq<char>>>::empty(), target) =~= Seq::<Seq<char>>::empty());
    assert(candidates(gs, target) =~= Seq::<Seq<char>>::empty());
    assert(pairs_spec(gs, target) =~= Seq::<(Seq<char>, int)>::empty());
    assert(sort_desc(pairs_spec(gs, target)) =~= Seq::<(Seq<char>, int)>::empty());
    assert(related_files_spec(log, target, limit) =~= Seq::<Seq<char>>::empty());
}

pub proof fn lemma_total_len_take(gs: Seq<Seq<Seq<char>>>, i: int)
    requires
        0 <= i <= gs.len(),
    ensures
        total_len(gs.take(i)) <= total_len(gs),
    decreases gs.len() - i,
{
    if i < gs.len() {
        lemma_total_len_take(gs, i + 1);
        assert(gs.take(i + 1) =~= gs.take(i).push(gs[i]));
        lemma_total_len_push(gs.take(i), gs[i]);
    } else {
        assert(gs.take(i) =~= gs);
    }
}

/// Mine the raw history text: return the files that co-occur with the
/// target, most frequent first, ties in first-seen order, at most `limit`
/// entries; the target itself, exactly or by suffix, is never returned, and
/// empty history yields the empty list.
pub fn get_related_files(log: &str, target_file: &str, limit: usize) -> (r: Vec<String>)
    ensures
        r.deep_view() == related_files_spec(log@, target_file@, limit as int),
        r@.len() <= limit,
        forall|k: int| 0 <= k < r@.len() ==> !is_hit(#[trigger] r.deep_view()[k], target_file@),
        forall|k: int|
            0 <= k < r@.len() ==> count_of(
                commit_groups_spec(log@),
                target_file@,
                #[trigger] r.deep_view()[k],
            ) >= 1,
        forall|k1: int, k2: int|
            0 <= k1 <= k2 < r@.len() ==> count_of(
                commit_groups_spec(log@),
                target_file@,
                #[trigger] r.deep_view()[k1],
            ) >= count_of(commit_groups_spec(log@), target_file@, #[trigger] r.deep_view()[k2]),
{
    let log_len = log.unicode_len();
    let groups = commit_groups(log);
    let ghost gdv = groups.deep_view();
    let ghost tv = target_file@;

    let mut cands: Vec<String> = Vec::new();
    let mut i: usize = 0;
    proof {
        assert(gdv.take(0) =~= Seq::<Seq<Seq<char>>>::empty());
        assert(cands.deep_view() =~= candidates(gdv.take(0), tv));
    }
    while i < groups.len()
        invariant
            i <= groups.len(),
            gdv == groups.deep_view(),
            gdv.len() == groups@.len(),
            cands.deep_view() == candidates(gdv.take(i as int), tv),
            tv == target_file@,
        decreases groups.len() - i,
    {
        proof {
            let t1 = gdv.take(i + 1);
            assert(t1.drop_last() =~= gdv.take(i as int));
            assert(t1.last() == gdv[i as int]);
        }
        let group = &groups[i];
        if group_contains_target(group, target_file) {
            let ghost base = cands.deep_view();
            let ghost g = gdv[i as int];
            let mut j: usize = 0;
            proof {
                assert(g.take(0) =~= Seq::<Seq<char>>::empty());
                assert(cands.deep_view() =~= cand_in_group(base, g.take(0), tv));
            }
            while j < group.len()
                invariant
                    j <= group.len(),
                    g == group.deep_view(),
                    g.len() == group@.len(),
                    tv == target_file@,
                    cands.deep_view() == cand_in_group(base, g.take(j as int), tv),
                decreases group.len() - j,
            {
                proof {
                    let u1 = g.take(j + 1);
                    assert(u1.drop_last() =~= g.take(j as int));
                    assert(u1.last() == g[j as int]);
                }
                let f = &group[j];
                if !is_hit_exec(f.as_str(), target_file) {
                    if !contains_path(&cands, f.as_str()) {
                        let ghost prev = cands.deep_view();
                        let ghost fv = f@;
                        cands.push(f.clone());
                        proof {
                            assert(cands.deep_view() =~= prev.push(fv));
                        }
                    }
                }
                proof {
                    assert(cands.deep_view() =~= cand_in_group(base, g.take(j + 1), tv));
                }
                j += 1;
            }
            proof {
                assert(g.take(g.len() as int) =~= g);
            }
        }
        i += 1;
    }
    proof {
        assert(gdv.take(gdv.len() as int) =~= gdv);
    }
    let ghost cdv = cands.deep_view();

    let mut entries: Vec<(String, u128)> = Vec::new();
    let mut k: usize = 0;
    while k < cands.len()
        invariant
            k <= cands.len(),
            cdv == cands.deep_view(),
            cdv.len() == cands@.len(),
            gdv == groups.deep_view(),
            commit_groups_spec(log@) == gdv,
            log_len == log@.len(),
            tv == target_file@,
            entries@.len() == k,
            forall|m: int|
                0 <= m < k ==> (#[trigger] entries@[m]).0@ == cdv[m] && entries@[m].1 as int
                    == count_of(gdv, tv, cdv[m]) as int,
        decreases cands.len() - k,
    {
        let p = &cands[k];
        let mut c: u128 = 0;
        let mut gi: usize = 0;
        proof {
            assert(gdv.take(0) =~= Seq::<Seq<Seq<char>>>::empty());
        }
        while gi < groups.len()
            invariant
                gi <= groups.len(),
                k < cdv.len(),
                log_len == log@.len(),
                gdv == groups.deep_view(),
                commit_groups_spec(log@) == gdv,
                gdv.len() == groups@.len(),
                tv == target_file@,
                p@ == cdv[k as int],
                c as nat == count_of(gdv.take(gi as int), tv, p@),
            decreases groups.len() - gi,
        {
            proof {
                let t1 = gdv.take(gi + 1);
                assert(t1.drop_last() =~= gdv.take(gi as int));
                assert(t1.last() == gdv[gi as int]);
            }
            let group = &groups[gi];
            if group_contains_target(group, target_file) {
                let ghost g = gdv[gi as int];
                let mut gj: usize = 0;
                proof {
                    assert(g.take(0) =~= Seq::<Seq<char>>::empty());
                }
                while gj < group.len()
                    invariant
                        gj <= group.len(),
                        gi < gdv.len(),
                        k < cdv.len(),
                        log_len == log@.len(),
                        gdv == groups.deep_view(),
                        commit_groups_spec(log@) == gdv,
                        g == group.deep_view(),
                        g.len() == group@.len(),
                        tv == target_file@,
                        p@ == cdv[k as int],
                        c as nat == count_of(gdv.take(gi as int), tv, p@) + occ_in_group(
                            g.take(gj as int),
                            p@,
                        ),
                    decreases group.len() - gj,
                {
                    proof {
                        let u1 = g.take(gj + 1);
                        assert(u1.drop_last() =~= g.take(gj as int));
                        assert(u1.last() == g[gj as int]);
                        lemma_count_le_total(gdv.take(gi as int), tv, p@);
                        lemma_total_len_take(gdv, gi as int);
                        lemma_groups_total_bound(log@);
                        lemma_occ_le_len(g.take(gj as int), p@);
                    }
                    if str_eq(group[gj].as_str(), p.as_str()) {
                        c += 1;
                    }
                    gj += 1;
                }
                proof {
                    assert(g.take(g.len() as int) =~= g);
                }
            }
            gi += 1;
        }
        proof {
            assert(gdv.take(gdv.len() as int) =~= gdv);
        }
        entries.push((p.clone(), c));
        k += 1;
    }
    proof {
        assert(pair_views(entries@) =~= pairs_spec(gdv, tv));
    }

    let sorted = sort_entries(entries);
    let ghost ranked = sort_desc(pairs_spec(gdv, tv));
    proof {
        assert(pair_views(sorted@) == ranked);
        lemma_sort_desc_len(pairs_spec(gdv, tv));
    }

    let mut result: Vec<String> = Vec::new();
    let mut idx: usize = 0;
    while idx < sorted.len() && idx < limit
        invariant
            idx <= sorted.len(),
            idx <= limit,
            pair_views(sorted@) == ranked,
            sorted@.len() == ranked.len(),
            result@.len() == idx,
            forall|m: int| 0 <= m < idx ==> result.deep_view()[m] == (#[trigger] ranked[m]).0,
        decreases sorted.len() - idx,
    {
        let ghost prev = result.deep_view();
        result.push(sorted[idx].0.clone());
        proof {
            assert(result.deep_view() =~= prev.push(sorted@[idx as int].0@));
            assert(pair_views(sorted@)[idx as int].0 == sorted@[idx as int].0@);
        }
        idx += 1;
    }
    proof {
        assert(result.deep_view() =~= related_files_spec(log@, tv, limit as int));
        assert forall|m: int| 0 <= m < result@.len() implies !is_hit(
            #[trigger] result.deep_view()[m],
            tv,
        ) && ranked[m].1 == count_of(gdv, tv, ranked[m].0) && count_of(gdv, tv, ranked[m].0)
            >= 1 by {
            assert(ranked[m] == pair_views(sorted@)[m]);
            assert(ranked.contains(ranked[m]));
            lemma_sort_desc_contains(pairs_spec(gdv, tv), ranked[m]);
            let w = choose|w: int|
                0 <= w < pairs_spec(gdv, tv).len() && pairs_spec(gdv, tv)[w] == ranked[m];
            assert(candidates(gdv, tv)[w] == ranked[m].0);
            assert(candidates(gdv, tv).contains(ranked[m].0));
            lemma_candidates_excluded(gdv, tv, ranked[m].0);
            lemma_candidates_count(gdv, tv, ranked[m].0);
        }
        lemma_sort_desc_sorted(pairs_spec(gdv, tv));
        assert forall|k1: int, k2: int| 0 <= k1 <= k2 < result@.len() implies count_of(
            commit_groups_spec(log@),
            tv,
            #[trigger] result.deep_view()[k1],
        ) >= count_of(commit_groups_spec(log@), tv, #[trigger] result.deep_view()[k2]) by {
            assert(result.deep_view()[k1] == ranked[k1].0);
            assert(result.deep_view()[k2] == ranked[k2].0);
            assert(ranked[k1].1 >= ranked[k2].1);
        }
    }
    result
}

} // verus!
