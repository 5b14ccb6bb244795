//! The hybrid relevance scorer: fuses the temporal signal (history
//! co-occurrence rank) with the static signal (the target's imports,
//! heuristically translated to path fragments) into one ranked, thresholded
//! candidate list. Scores are exact rationals with denominator
//! `10 * total`: an import match contributes 7/10, the rank weight up to
//! 5/10, and agreement of both signals a 2/10 synergy bonus.
use vstd::prelude::*;
use crate::text::{contains_str, contains_seq, split_on_char, split_char, join_with, joined_sep};
use crate::history::{get_related_files, related_files_spec};
use crate::imports::{get_imports, imports_spec};
use crate::rank::{insert_desc, sort_desc, sorted_desc, lemma_insert_desc_at, lemma_sort_desc_len,
    lemma_sort_desc_contains, lemma_sort_desc_sorted};

verus! {

/// One scored candidate: the file, its score as the exact rational
/// `score_num / score_den`, and which signals contributed.
pub struct ScoredCandidate {
    pub path: String,
    pub score_num: u128,
    pub score_den: u128,
    pub reasons: String,
}

/// A dotted import specifier rewritten as a slash-joined path fragment;
/// a lexical heuristic, not a module resolver.
pub open spec fn frag_of(imp: Seq<char>) -> Seq<char> {
    joined_sep(split_char(imp, '.'), '/')
}

/// The path fragments of all import specifiers, in order.
pub open spec fn frags_spec(imps: Seq<Seq<char>>) -> Seq<Seq<char>> {
    Seq::new(imps.len(), |i: int| frag_of(imps[i]))
}

/// The static signal fires: some translated import fragment occurs in the
/// candidate path.
pub open spec fn is_static_spec(p: Seq<char>, frags: Seq<Seq<char>>) -> bool {
    exists|j: int| 0 <= j < frags.len() && contains_seq(p, #[trigger] frags[j])
}

/// The score numerator over denominator `10 * total` for the candidate at
/// 0-based miner rank `idx`: the rank weight contributes `5 * (total - idx)`
/// always (every candidate comes from the miner), an import match adds
/// `7 * total`, and both signals together add the `2 * total` synergy bonus.
pub open spec fn score_num_spec(is_static: bool, total: int, idx: int) -> int {
    if is_static {
        9 * total + 5 * (total - idx)
    } else {
        5 * (total - idx)
    }
}

/// The recorded reasons, in signal-evaluation order.
pub open spec fn reason_label(is_static: bool) -> Seq<char> {
    if is_static {
        "imported+git-history"@
    } else {
        "git-history"@
    }
}

/// Every miner candidate with its reasons and score, in miner order.
pub open spec fn scored_of(gf: Seq<Seq<char>>, frags: Seq<Seq<char>>) -> Seq<
    ((Seq<char>, Seq<char>), int),
> {
    Seq::new(
        gf.len(),
        |i: int|
            (
                (gf[i], reason_label(is_static_spec(gf[i], frags))),
                score_num_spec(is_static_spec(gf[i], frags), gf.len() as int, i),
            ),
    )
}

/// The score clears the threshold: `score_num / (10 * total) >= thr / 1000`.
pub open spec fn keep(score_num: int, total: int, thr: int) -> bool {
    100 * score_num >= thr * total
}

/// How many leading entries of the ranked list clear the threshold.
pub open spec fn keep_count(s: Seq<((Seq<char>, Seq<char>), int)>, total: int, thr: int) -> nat
    decreases s.len(),
{
    if s.len() > 0 && keep(s[0].1, total, thr) {
        1 + keep_count(s.drop_first(), total, thr)
    } else {
        0
    }
}

/// A scan that has cleared the threshold `n` times from the front counts at
/// least `n`.
pub proof fn lemma_keep_count_ge(
    s: Seq<((Seq<char>, Seq<char>), int)>,
    total: int,
    thr: int,
    n: int,
)
    requires
        0 <= n <= s.len(),
        forall|m: int| 0 <= m < n ==> keep((#[trigger] s[m]).1, total, thr),
    ensures
        keep_count(s, total, thr) >= n,
    decreases n,
{
    if n > 0 {
        assert(keep(s[0].1, total, thr));
        let rest = s.drop_first();
        assert(forall|m: int| 0 <= m < n - 1 ==> (#[trigger] rest[m]) == s[m + 1]);
        lemma_keep_count_ge(rest, total, thr, n - 1);
    }
}

pub proof fn lemma_keep_count_le_len(s: Seq<((Seq<char>, Seq<char>), int)>, total: int, thr: int)
    ensures
        keep_count(s, total, thr) <= s.len(),
    decreases s.len(),
{
    if s.len() > 0 && keep(s[0].1, total, thr) {
        lemma_keep_count_le_len(s.drop_first(), total, thr);
    }
}

/// A scan that stops at the first entry under the threshold, or at the end,
/// has counted exactly the leading kept entries.
pub proof fn lemma_keep_count_eq(
    s: Seq<((Seq<char>, Seq<char>), int)>,
    total: int,
    thr: int,
    n: int,
)
    requires
        0 <= n <= s.len(),
        forall|m: int| 0 <= m < n ==> keep((#[trigger] s[m]).1, total, thr),
        n < s.len() ==> !keep(s[n].1, total, thr),
    ensures
        keep_count(s, total, thr) == n,
    decreases n,
{
    if n == 0 {
    } else {
        assert(keep(s[0].1, total, thr));
        let rest = s.drop_first();
        assert(forall|m: int| 0 <= m < n - 1 ==> (#[trigger] rest[m]) == s[m + 1]);
        lemma_keep_count_eq(rest, total, thr, n - 1);
    }
}

/// Every entry before the keep count clears the threshold.
pub proof fn lemma_keep_count_leading(
    s: Seq<((Seq<char>, Seq<char>), int)>,
    total: int,
    thr: int,
    m: int,
)
    requires
        0 <= m < keep_count(s, total, thr),
    ensures
        m < s.len(),
        keep(s[m].1, total, thr),
    decreases m,
{
    lemma_keep_count_le_len(s, total, thr);
    if m > 0 {
        let rest = s.drop_first();
        lemma_keep_count_leading(rest, total, thr, m - 1);
        assert(rest[m - 1] == s[m]);
    }
}

/// Every score in the candidate table is non-negative and at most
/// `14 * total`.
pub proof fn lemma_scored_bounded(
    gf: Seq<Seq<char>>,
    frags: Seq<Seq<char>>,
    e: ((Seq<char>, Seq<char>), int),
)
    requires
        scored_of(gf, frags).contains(e),
    ensures
        0 <= e.1 <= 14 * gf.len(),
{
    let s = scored_of(gf, frags);
    let k = choose|k: int| 0 <= k < s.len() && s[k] == e;
    assert(e.1 == score_num_spec(is_static_spec(gf[k], frags), gf.len() as int, k));
}

/// What `get_hybrid_context` returns: the miner candidates scored, ranked
/// by score descending (ties in miner order), cut at the threshold and at
/// `limit`.
pub open spec fn hybrid_spec(
    log: Seq<char>,
    target: Seq<char>,
    src: Option<Seq<char>>,
    limit: int,
    thr: int,
) -> Seq<((Seq<char>, Seq<char>), int)> {
    let gf = related_files_spec(log, target, 3 * limit);
    let frags = match src {
        Some(s) => frags_spec(imports_spec(target, s)),
        None => Seq::<Seq<char>>::empty(),
    };
    let ranked = sort_desc(scored_of(gf, frags));
    let kc = keep_count(ranked, gf.len() as int, thr) as int;
    let n = if limit < kc {
        limit
    } else {
        kc
    };
    ranked.take(n)
}

/// Raising the threshold shrinks the result to a prefix of the lower-
/// threshold result, for fixed inputs: threshold filtering is monotone.
pub proof fn lemma_threshold_monotone(
    log: Seq<char>,
    target: Seq<char>,
    src: Option<Seq<char>>,
    limit: int,
    t1: int,
    t2: int,
)
    requires
        0 <= limit,
        0 <= t1 <= t2,
    ensures
        hybrid_spec(log, target, src, limit, t2).len() <= hybrid_spec(
            log,
            target,
            src,
            limit,
            t1,
        ).len(),
        forall|i: int|
            0 <= i < hybrid_spec(log, target, src, limit, t2).len() ==> hybrid_spec(
                log,
                target,
                src,
                limit,
                t2,
            )[i] == #[trigger] hybrid_spec(log, target, src, limit, t1)[i],
{
    let gf = related_files_spec(log, target, 3 * limit);
    let frags = match src {
        Some(s) => frags_spec(imports_spec(target, s)),
        None => Seq::<Seq<char>>::empty(),
    };
    let ranked = sort_desc(scored_of(gf, frags));
    let total = gf.len() as int;
    lemma_keep_count_mono(ranked, total, t1, t2);
    lemma_keep_count_le_len(ranked, total, t1);
    lemma_keep_count_le_len(ranked, total, t2);
}

/// A higher threshold keeps no more of the leading entries.
pub proof fn lemma_keep_count_mono(
    s: Seq<((Seq<char>, Seq<char>), int)>,
    total: int,
    t1: int,
    t2: int,
)
    requires
        0 <= t1 <= t2,
        0 <= total,
    ensures
        keep_count(s, total, t2) <= keep_count(s, total, t1),
    decreases s.len(),
{
    if s.len() > 0 {
        lemma_keep_count_mono(s.drop_first(), total, t1, t2);
        if keep(s[0].1, total, t2) {
            assert(t1 * total <= t2 * total) by (nonlinear_arith)
                requires
                    0 <= t1 <= t2,
                    0 <= total,
            ;
            assert(keep(s[0].1, total, t1));
        }
    }
}

/// A candidate with both signals scores strictly above the same candidate
/// with either signal alone: with rank weight `5 * (total - idx)` and
/// `0 < total - idx <= total`, the fused score `9t + 5(t - idx)` beats the
/// import-only score `7t` and the history-only score `5(t - idx)`.
pub proof fn lemma_synergy_strict(total: int, idx: int)
    requires
        0 <= idx < total,
    ensures
        score_num_spec(true, total, idx) > 7 * total,
        score_num_spec(true, total, idx) > score_num_spec(false, total, idx),
{
}

/// The ranking view of the working entries.
pub open spec fn cand_pair_views(v: Seq<((String, String), u128)>) -> Seq<
    ((Seq<char>, Seq<char>), int),
> {
    Seq::new(v.len(), |k: int| ((v[k].0.0@, v[k].0.1@), v[k].1 as int))
}

/// The ranking view of the returned candidates.
pub open spec fn scored_views(v: Seq<ScoredCandidate>) -> Seq<((Seq<char>, Seq<char>), int)> {
    Seq::new(v.len(), |k: int| ((v[k].path@, v[k].reasons@), v[k].score_num as int))
}

/// Sort working entries by score, descending, stably: equal scores keep
/// their miner order.
fn sort_scored(entries: Vec<((String, String), u128)>) -> (r: Vec<((String, String), u128)>)
    ensures
        cand_pair_views(r@) == sort_desc(cand_pair_views(entries@)),
{
    let ghost pv = cand_pair_views(entries@);
    let mut sorted: Vec<((String, String), u128)> = Vec::new();
    let mut idx: usize = 0;
    proof {
        assert(pv.take(0) =~= Seq::<((Seq<char>, Seq<char>), int)>::empty());
        assert(cand_pair_views(sorted@) =~= sort_desc(pv.take(0)));
    }
    while idx < entries.len()
        invariant
            idx <= entries.len(),
            pv == cand_pair_views(entries@),
            pv.len() == entries@.len(),
            cand_pair_views(sorted@) == sort_desc(pv.take(idx as int)),
        decreases entries.len() - idx,
    {
        let path = entries[idx].0.0.clone();
        let tag = entries[idx].0.1.clone();
        let key = entries[idx].1;
        let ghost x = ((path@, tag@), key as int);
        proof {
            assert(x == pv[idx as int]);
        }
        let mut j: usize = 0;
        while j < sorted.len() && sorted[j].1 >= key
            invariant
                j <= sorted.len(),
                forall|k: int|
                    0 <= k < j ==> (#[trigger] cand_pair_views(sorted@)[k]).1 >= key as int,
            decreases sorted.len() - j,
        {
            proof {
                assert(cand_pair_views(sorted@)[j as int].1 == sorted@[j as int].1 as int);
            }
            j += 1;
        }
        let ghost before = cand_pair_views(sorted@);
        proof {
            if j < sorted.len() {
                assert(before[j as int].1 == sorted@[j as int].1 as int);
            }
            lemma_insert_desc_at(before, x, j as int);
        }
        sorted.insert(j, ((path, tag), key));
        proof {
            assert(cand_pair_views(sorted@) =~= before.take(j as int).push(x) + before.skip(
                j as int,
            ));
            let t1 = pv.take(idx + 1);
            assert(t1.drop_last() =~= pv.take(idx as int));
            assert(t1.last() == pv[idx as int]);
            assert(cand_pair_views(sorted@) =~= sort_desc(pv.take(idx + 1)));
        }
        idx += 1;
    }
    proof {
        assert(pv.take(pv.len() as int) =~= pv);
    }
    sorted
}

fn keep_exec(score_num: u128, total: usize, thr: u32) -> (r: bool)
    requires
        score_num as int <= 14 * (total as int),
    ensures
        r == keep(score_num as int, total as int, thr as int),
{
    proof {
        assert((thr as int) * (total as int) <= (u32::MAX as int) * (usize::MAX as int))
            by (nonlinear_arith)
            requires
                0 <= thr as int <= u32::MAX as int,
                0 <= total as int <= usize::MAX as int,
        ;
    }
    100 * score_num >= (thr as u128) * (total as u128)
}

/// The view of the optional target source text.
pub open spec fn opt_src_view(p: Option<&str>) -> Option<Seq<char>> {
    match p {
        Some(s) => Some(s@),
        None => None,
    }
}

/// Fuse the temporal and static signals into one ranked candidate list:
/// the miner is over-fetched threefold, each candidate is scored
/// `0.7·imported + 0.5·rank-weight/total + 0.2·synergy` as an exact
/// rational over `10 * total`, and candidates below `threshold_millis/1000`
/// or beyond `limit` are cut. `target_source` is the target file's text
/// where it exists; an unreadable target degrades to the temporal signal
/// alone.
pub fn get_hybrid_context(
    log: &str,
    target_file: &str,
    target_source: Option<&str>,
    limit: usize,
    threshold_millis: u32,
) -> (r: Vec<ScoredCandidate>)
    requires
        limit <= usize::MAX / 3,
    ensures
        scored_views(r@) == hybrid_spec(
            log@,
            target_file@,
            opt_src_view(target_source),
            limit as int,
            threshold_millis as int,
        ),
        r@.len() <= limit,
        forall|i: int|
            0 <= i < r@.len() ==> 1000 * ((#[trigger] r@[i]).score_num as int) >= (
            threshold_millis as int) * (r@[i].score_den as int),
        forall|i: int|
            0 <= i < r@.len() ==> (#[trigger] r@[i]).score_den as int == 10 * related_files_spec(
                log@,
                target_file@,
                3 * limit,
            ).len(),
{
    let ghost tv = target_file@;
    let ghost srcv = opt_src_view(target_source);
    let git_files = get_related_files(log, target_file, limit * 3);
    let ghost gfdv = git_files.deep_view();
    let total = git_files.len();

    let mut frags: Vec<String> = Vec::new();
    match target_source {
        Some(src) => {
            let imps = get_imports(target_file, src);
            let ghost impsdv = imps.deep_view();
            let mut i: usize = 0;
            while i < imps.len()
                invariant
                    i <= imps.len(),
                    impsdv == imps.deep_view(),
                    impsdv.len() == imps@.len(),
                    frags@.len() == i,
                    forall|m: int|
                        0 <= m < i ==> frags.deep_view()[m] == frag_of(#[trigger] impsdv[m]),
                decreases imps.len() - i,
            {
                let parts = split_on_char(imps[i].as_str(), '.');
                proof {
                    reveal_strlit("/");
                }
                let fr = join_with(&parts, "/");
                let ghost prev = frags.deep_view();
                let ghost frv = fr@;
                frags.push(fr);
                proof {
                    assert(frags.deep_view() =~= prev.push(frv));
                }
                i += 1;
            }
            proof {
                assert(frags.deep_view() =~= frags_spec(impsdv));
            }
        },
        None => {
            proof {
                assert(frags.deep_view() =~= frags_spec(Seq::<Seq<char>>::empty()));
                assert(frags_spec(Seq::<Seq<char>>::empty()) =~= Seq::<Seq<char>>::empty());
            }
        },
    }
    let ghost fragsdv = frags.deep_view();
    proof {
        assert(fragsdv == match srcv {
            Some(s) => frags_spec(imports_spec(tv, s)),
            None => Seq::<Seq<char>>::empty(),
        });
    }

    let mut entries: Vec<((String, String), u128)> = Vec::new();
    let mut idx: usize = 0;
    while idx < git_files.len()
        invariant
            idx <= git_files.len(),
            total == git_files@.len(),
            gfdv == git_files.deep_view(),
            gfdv.len() == git_files@.len(),
            fragsdv == frags.deep_view(),
            entries@.len() == idx,
            forall|m: int|
                0 <= m < idx ==> cand_pair_views(entries@)[m] == #[trigger] scored_of(
                    gfdv,
                    fragsdv,
                )[m],
        decreases git_files.len() - idx,
    {
        let p = &git_files[idx];
        let mut is_st = false;
        let mut j: usize = 0;
        while j < frags.len()
            invariant
                j <= frags.len(),
                fragsdv == frags.deep_view(),
                fragsdv.len() == frags@.len(),
                p@ == gfdv[idx as int],
                idx < gfdv.len(),
                is_st == exists|m: int|
                    0 <= m < j && contains_seq(p@, #[trigger] fragsdv[m]),
            decreases frags.len() - j,
        {
            if contains_str(p.as_str(), frags[j].as_str()) {
                is_st = true;
                proof {
                    assert(contains_seq(p@, fragsdv[j as int]));
                }
            }
            j += 1;
        }
        proof {
            assert(is_st == is_static_spec(gfdv[idx as int], fragsdv));
        }
        let base: u128 = 5 * ((total - idx) as u128);
        let score: u128 = if is_st {
            base + 9 * (total as u128)
        } else {
            base
        };
        let label: &str = if is_st {
            "imported+git-history"
        } else {
            "git-history"
        };
        let ghost prev = cand_pair_views(entries@);
        entries.push(((p.clone(), label.to_owned()), score));
        proof {
            assert(cand_pair_views(entries@) =~= prev.push(scored_of(gfdv, fragsdv)[idx as int]));
        }
        idx += 1;
    }
    proof {
        assert(cand_pair_views(entries@) =~= scored_of(gfdv, fragsdv));
    }

    let sorted = sort_scored(entries);
    let ghost ranked = sort_desc(scored_of(gfdv, fragsdv));
    proof {
        assert(cand_pair_views(sorted@) == ranked);
        lemma_sort_desc_len(scored_of(gfdv, fragsdv));
    }

    let mut n: usize = 0;
    let mut stopped = false;
    while !stopped && n < sorted.len() && n < limit
        invariant
            n <= sorted.len(),
            n <= limit,
            total == git_files@.len(),
            gfdv.len() == total,
            cand_pair_views(sorted@) == ranked,
            ranked == sort_desc(scored_of(gfdv, fragsdv)),
            sorted@.len() == ranked.len(),
            forall|m: int|
                0 <= m < n ==> keep(
                    (#[trigger] ranked[m]).1,
                    total as int,
                    threshold_millis as int,
                ),
            stopped ==> n < sorted.len() && !keep(
                ranked[n as int].1,
                total as int,
                threshold_millis as int,
            ),
        decreases sorted.len() - n + (if stopped {
            0int
        } else {
            1int
        }),
    {
        proof {
            assert(ranked[n as int] == cand_pair_views(sorted@)[n as int]);
            assert(ranked.contains(ranked[n as int]));
            lemma_sort_desc_contains(scored_of(gfdv, fragsdv), ranked[n as int]);
            lemma_scored_bounded(gfdv, fragsdv, ranked[n as int]);
        }
        if keep_exec(sorted[n].1, total, threshold_millis) {
            n += 1;
        } else {
            stopped = true;
        }
    }
    proof {
        if stopped || n == sorted.len() {
            lemma_keep_count_eq(ranked, total as int, threshold_millis as int, n as int);
        } else {
            lemma_keep_count_ge(ranked, total as int, threshold_millis as int, n as int);
        }
    }

    let mut result: Vec<ScoredCandidate> = Vec::new();
    let mut m: usize = 0;
    while m < n
        invariant
            m <= n,
            n <= sorted.len(),
            total == git_files@.len(),
            cand_pair_views(sorted@) == ranked,
            sorted@.len() == ranked.len(),
            result@.len() == m,
            forall|k: int| 0 <= k < m ==> scored_views(result@)[k] == #[trigger] ranked[k],
            forall|k: int|
                0 <= k < m ==> (#[trigger] result@[k]).score_den as int == 10 * (total as int),
        decreases n - m,
    {
        let ghost prevr = scored_views(result@);
        let cand = ScoredCandidate {
            path: sorted[m].0.0.clone(),
            score_num: sorted[m].1,
            score_den: 10 * (total as u128),
            reasons: sorted[m].0.1.clone(),
        };
        result.push(cand);
        proof {
            assert(scored_views(result@) =~= prevr.push(ranked[m as int]));
        }
        m += 1;
    }
    proof {
        let kc = keep_count(ranked, total as int, threshold_millis as int) as int;
        let nn = if (limit as int) < kc {
            limit as int
        } else {
            kc
        };
        assert(n as int == nn);
        assert(scored_views(result@) =~= ranked.take(n as int));
        assert(scored_views(result@) == hybrid_spec(
            log@,
            tv,
            srcv,
            limit as int,
            threshold_millis as int,
        ));
        assert forall|i: int| 0 <= i < result@.len() implies 1000 * ((#[trigger] result@[i]).score_num
            as int) >= (threshold_millis as int) * (result@[i].score_den as int) by {
            lemma_keep_count_leading(ranked, total as int, threshold_millis as int, i);
            assert(scored_views(result@)[i] == ranked[i]);
            let sn = result@[i].score_num as int;
            let den = result@[i].score_den as int;
            assert(sn == ranked[i].1);
            assert(100 * sn >= (threshold_millis as int) * (total as int));
            assert(den == 10 * (total as int));
            assert(1000 * sn >= (threshold_millis as int) * den) by (nonlinear_arith)
                requires
                    100 * sn >= (threshold_millis as int) * (total as int),
                    den == 10 * (total as int),
            ;
        }
    }
    result
}

} // verus!
