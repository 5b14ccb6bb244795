//! Stable descending ranking shared by the miner and the hybrid scorer:
//! insertion sort over (payload, key) pairs, equal keys keeping their
//! first-seen order, with the lemmas its callers' contracts rest on.
use vstd::prelude::*;

verus! {

/// Insert into a descending-sorted list, after any equal keys: the stable
/// insertion step.
pub open spec fn insert_desc<A>(s: Seq<(A, int)>, x: (A, int)) -> Seq<
    (A, int),
>
    decreases s.len(),
{
    if s.len() == 0 {
        seq![x]
    } else if s[0].1 >= x.1 {
        seq![s[0]] + insert_desc(s.drop_first(), x)
    } else {
        seq![x] + s
    }
}

/// Stable insertion sort, descending by key: equal keys keep their first-seen
/// order.
pub open spec fn sort_desc<A>(s: Seq<(A, int)>) -> Seq<(A, int)>
    decreases s.len(),
{
    if s.len() == 0 {
        s
    } else {
        insert_desc(sort_desc(s.drop_last()), s.last())
    }
}

/// Descending order by key.
pub open spec fn sorted_desc<A>(s: Seq<(A, int)>) -> bool {
    forall|i: int, j: int| 0 <= i <= j < s.len() ==> (#[trigger] s[i]).1 >= (#[trigger] s[j]).1
}

pub proof fn lemma_insert_desc_len<A>(s: Seq<(A, int)>, x: (A, int))
    ensures
        insert_desc(s, x).len() == s.len() + 1,
    decreases s.len(),
{
    if s.len() > 0 && s[0].1 >= x.1 {
        lemma_insert_desc_len(s.drop_first(), x);
    }
}

/// Stable insertion lands exactly at the first position whose key is
/// smaller.
pub proof fn lemma_insert_desc_at<A>(s: Seq<(A, int)>, x: (A, int), j: int)
    requires
        0 <= j <= s.len(),
        forall|k: int| 0 <= k < j ==> (#[trigger] s[k]).1 >= x.1,
        j < s.len() ==> s[j].1 < x.1,
    ensures
        insert_desc(s, x) == s.take(j).push(x) + s.skip(j),
    decreases j,
{
    if j == 0 {
        assert(insert_desc(s, x) =~= s.take(0).push(x) + s.skip(0));
    } else {
        assert(s[0].1 >= x.1);
        let rest = s.drop_first();
        assert(forall|k: int| 0 <= k < j - 1 ==> (#[trigger] rest[k]).1 >= x.1) by {
            assert(forall|k: int| 0 <= k < j - 1 ==> rest[k] == s[k + 1]);
        }
        assert(j - 1 < rest.len() ==> rest[j - 1].1 < x.1);
        lemma_insert_desc_at(rest, x, j - 1);
        assert(insert_desc(s, x) =~= s.take(j).push(x) + s.skip(j));
    }
}

pub proof fn lemma_insert_desc_contains<A>(
    s: Seq<(A, int)>,
    x: (A, int),
    e: (A, int),
)
    ensures
        insert_desc(s, x).contains(e) <==> (s.contains(e) || e == x),
    decreases s.len(),
{
    if s.len() == 0 {
        assert(insert_desc(s, x) =~= seq![x]);
        assert(insert_desc(s, x).contains(e) <==> e == x) by {
            if insert_desc(s, x).contains(e) {
                let k = choose|k: int|
                    0 <= k < insert_desc(s, x).len() && insert_desc(s, x)[k] == e;
            }
            if e == x {
                assert(insert_desc(s, x)[0] == e);
            }
        }
    } else if s[0].1 >= x.1 {
        lemma_insert_desc_contains(s.drop_first(), x, e);
        let out = insert_desc(s, x);
        let rec = insert_desc(s.drop_first(), x);
        assert(out =~= seq![s[0]] + rec);
        if out.contains(e) {
            let k = choose|k: int| 0 <= k < out.len() && out[k] == e;
            if k == 0 {
                assert(s[0] == e);
            } else {
                assert(rec[k - 1] == e);
                assert(rec.contains(e));
            }
            if s.drop_first().contains(e) {
                let m = choose|m: int|
                    0 <= m < s.drop_first().len() && s.drop_first()[m] == e;
                assert(s[m + 1] == e);
            }
        }
        if s.contains(e) {
            let k = choose|k: int| 0 <= k < s.len() && s[k] == e;
            if k == 0 {
                assert(out[0] == e);
            } else {
                assert(s.drop_first()[k - 1] == e);
                assert(s.drop_first().contains(e));
                assert(rec.contains(e));
                let m = choose|m: int| 0 <= m < rec.len() && rec[m] == e;
                assert(out[m + 1] == e);
            }
        }
        if e == x {
            assert(rec.contains(e));
            let m = choose|m: int| 0 <= m < rec.len() && rec[m] == e;
            assert(out[m + 1] == e);
        }
    } else {
        let out = insert_desc(s, x);
        assert(out =~= seq![x] + s);
        if out.contains(e) {
            let k = choose|k: int| 0 <= k < out.len() && out[k] == e;
            if k > 0 {
                assert(s[k - 1] == e);
            }
        }
        if s.contains(e) {
            let k = choose|k: int| 0 <= k < s.len() && s[k] == e;
            assert(out[k + 1] == e);
        }
        if e == x {
            assert(out[0] == e);
        }
    }
}

pub proof fn lemma_insert_desc_sorted<A>(s: Seq<(A, int)>, x: (A, int))
    requires
        sorted_desc(s),
    ensures
        sorted_desc(insert_desc(s, x)),
    decreases s.len(),
{
    if s.len() > 0 && s[0].1 >= x.1 {
        assert(sorted_desc(s.drop_first())) by {
            assert(forall|k: int|
                0 <= k < s.drop_first().len() ==> #[trigger] s.drop_first()[k] == s[k + 1]);
        }
        lemma_insert_desc_sorted(s.drop_first(), x);
        let rec = insert_desc(s.drop_first(), x);
        let out = insert_desc(s, x);
        assert(out =~= seq![s[0]] + rec);
        assert forall|i: int, j: int| 0 <= i <= j < out.len() implies (#[trigger] out[i]).1
            >= (#[trigger] out[j]).1 by {
            if i == 0 && j > 0 {
                assert(out[j] == rec[j - 1]);
                lemma_insert_desc_elem_key(s.drop_first(), x, j - 1);
            } else if i > 0 {
                assert(out[i] == rec[i - 1]);
                assert(out[j] == rec[j - 1]);
            }
        }
    }
}

/// Every key in the inserted list is a key of the list or the new key.
pub proof fn lemma_insert_desc_elem_key<A>(s: Seq<(A, int)>, x: (A, int), k: int)
    requires
        0 <= k < insert_desc(s, x).len(),
    ensures
        insert_desc(s, x)[k].1 <= x.1 || (exists|m: int|
            0 <= m < s.len() && insert_desc(s, x)[k] == #[trigger] s[m]),
    decreases s.len(),
{
    if s.len() == 0 {
    } else if s[0].1 >= x.1 {
        if k == 0 {
            assert(insert_desc(s, x)[0] == s[0]);
        } else {
            lemma_insert_desc_elem_key(s.drop_first(), x, k - 1);
            assert(insert_desc(s, x)[k] == insert_desc(s.drop_first(), x)[k - 1]);
            if exists|m: int|
                0 <= m < s.drop_first().len() && insert_desc(s.drop_first(), x)[k - 1]
                    == #[trigger] s.drop_first()[m] {
                let m = choose|m: int|
                    0 <= m < s.drop_first().len() && insert_desc(s.drop_first(), x)[k - 1]
                        == #[trigger] s.drop_first()[m];
                assert(insert_desc(s, x)[k] == s[m + 1]);
            }
        }
    } else {
        if k > 0 {
            assert(insert_desc(s, x)[k] == s[k - 1]);
        }
    }
}

pub proof fn lemma_sort_desc_sorted<A>(s: Seq<(A, int)>)
    ensures
        sorted_desc(sort_desc(s)),
    decreases s.len(),
{
    if s.len() > 0 {
        lemma_sort_desc_sorted(s.drop_last());
        lemma_insert_desc_sorted(sort_desc(s.drop_last()), s.last());
    }
}

pub proof fn lemma_sort_desc_contains<A>(s: Seq<(A, int)>, e: (A, int))
    ensures
        sort_desc(s).contains(e) <==> s.contains(e),
    decreases s.len(),
{
    if s.len() > 0 {
        lemma_sort_desc_contains(s.drop_last(), e);
        lemma_insert_desc_contains(sort_desc(s.drop_last()), s.last(), e);
        if s.drop_last().contains(e) {
            let k = choose|k: int| 0 <= k < s.drop_last().len() && s.drop_last()[k] == e;
            assert(s[k] == e);
        }
        if e == s.last() {
            assert(s[s.len() - 1] == e);
        }
        if s.contains(e) && !(e == s.last()) {
            let k = choose|k: int| 0 <= k < s.len() && s[k] == e;
            assert(s.drop_last()[k] == e);
            assert(s.drop_last().contains(e));
        }
    }
}

pub proof fn lemma_sort_desc_len<A>(s: Seq<(A, int)>)
    ensures
        sort_desc(s).len() == s.len(),
    decreases s.len(),
{
    if s.len() > 0 {
        lemma_sort_desc_len(s.drop_last());
        lemma_insert_desc_len(sort_desc(s.drop_last()), s.last());
    }
}


} // verus!
