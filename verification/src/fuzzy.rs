//! Fuzzy search over the history entries.
//!
//! An empty query passes every entry through unchanged (score 0, recency
//! order kept). A non-empty query keeps exactly the entries the fuzzy
//! matcher accepts, paired with their scores, sorted by score descending;
//! entries with equal scores keep the order in which they were given.

use vstd::prelude::*;
use fuzzy_matcher::FuzzyMatcher;
use crate::history::{ClipboardEntry, EntryModel, entries_model};

verus! {

/// The score that the skim fuzzy matcher, with default settings, gives to
/// `query` against `content`: `Some(score)` when the query matches, `None`
/// when it does not. The matcher is a deterministic function of the two
/// strings, so the value is well defined; it is not further specified here.
pub uninterp spec fn fuzzy_score(content: Seq<char>, query: Seq<char>) -> Option<int>;

/// Relies on `fuzzy_matcher::skim::SkimMatcherV2::fuzzy_match` on a matcher
/// with default settings: a deterministic dynamic-programming match of
/// `query` against `content`, depending on the two strings alone.
#[verifier::external_body]
fn fuzzy_match_score(content: &str, query: &str) -> (r: Option<i64>)
    ensures
        match r {
            Some(s) => fuzzy_score(content@, query@) == Some(s as int),
            None => fuzzy_score(content@, query@) is None,
        },
{
    fuzzy_matcher::skim::SkimMatcherV2::default().fuzzy_match(content, query)
}

/// Every entry paired with score 0, in the given order.
pub open spec fn with_zero_scores(es: Seq<EntryModel>) -> Seq<(EntryModel, int)> {
    es.map_values(|e: EntryModel| (e, 0int))
}

/// The entries the matcher accepts for `q`, in the given order, each paired
/// with its score.
pub open spec fn matches_of(es: Seq<EntryModel>, q: Seq<char>) -> Seq<(EntryModel, int)>
    decreases es.len(),
{
    if es.len() == 0 {
        Seq::empty()
    } else {
        let init = matches_of(es.drop_last(), q);
        match fuzzy_score(es.last().content, q) {
            Some(s) => init.push((es.last(), s)),
            None => init,
        }
    }
}

/// Insert `x` into a sequence sorted by score descending, behind every
/// element whose score is at least `x`'s: the insertion is stable.
pub open spec fn insert_desc(sorted: Seq<(EntryModel, int)>, x: (EntryModel, int)) -> Seq<
    (EntryModel, int),
>
    decreases sorted.len(),
{
    if sorted.len() == 0 {
        seq![x]
    } else if sorted.last().1 >= x.1 {
        sorted.push(x)
    } else {
        insert_desc(sorted.drop_last(), x).push(sorted.last())
    }
}

/// Stable sort by score descending: elements with equal scores keep their
/// relative order.
pub open spec fn sort_desc(s: Seq<(EntryModel, int)>) -> Seq<(EntryModel, int)>
    decreases s.len(),
{
    if s.len() == 0 {
        Seq::empty()
    } else {
        insert_desc(sort_desc(s.drop_last()), s.last())
    }
}

/// Scores are non-increasing along the sequence.
pub open spec fn sorted_desc(s: Seq<(EntryModel, int)>) -> bool {
    forall|i: int, j: int| 0 <= i < j < s.len() ==> (#[trigger] s[i]).1 >= (#[trigger] s[j]).1
}

/// Inserting into a sequence sorted by score descending keeps it sorted.
proof fn lemma_insert_desc_sorted(s: Seq<(EntryModel, int)>, x: (EntryModel, int))
    requires
        sorted_desc(s),
    ensures
        sorted_desc(insert_desc(s, x)),
        insert_desc(s, x).len() == s.len() + 1,
    decreases s.len(),
{
    if s.len() == 0 {
    } else if s.last().1 >= x.1 {
        let r = s.push(x);
        assert forall|i: int, j: int| 0 <= i < j < r.len() implies (#[trigger] r[i]).1 >= (
        #[trigger] r[j]).1 by {
            if j < s.len() {
            } else {
                assert(r[j] == x);
                if i < s.len() - 1 {
                    assert(s[i].1 >= s[s.len() - 1].1);
                }
            }
        }
    } else {
        let t = s.drop_last();
        assert forall|i: int, j: int| 0 <= i < j < t.len() implies (#[trigger] t[i]).1 >= (
        #[trigger] t[j]).1 by {
            assert(s[i].1 >= s[j].1);
        }
        lemma_insert_desc_sorted(t, x);
        let inner = insert_desc(t, x);
        let r = inner.push(s.last());
        assert forall|i: int, j: int| 0 <= i < j < r.len() implies (#[trigger] r[i]).1 >= (
        #[trigger] r[j]).1 by {
            if j == r.len() - 1 {
                assert(r[j] == s.last());
                lemma_insert_desc_member(t, x, i);
                assert(r[i] == inner[i]);
            }
        }
    }
}

/// Every element of `insert_desc(s, x)` is `x` or an element of `s`.
proof fn lemma_insert_desc_member(s: Seq<(EntryModel, int)>, x: (EntryModel, int), k: int)
    requires
        0 <= k < insert_desc(s, x).len(),
    ensures
        insert_desc(s, x)[k] == x || exists|j: int|
            0 <= j < s.len() && #[trigger] s[j] == insert_desc(s, x)[k],
    decreases s.len(),
{
    if s.len() == 0 {
    } else if s.last().1 >= x.1 {
        if k < s.len() {
            assert(s[k] == insert_desc(s, x)[k]);
        }
    } else {
        let t = s.drop_last();
        if k < insert_desc(t, x).len() {
            lemma_insert_desc_member(t, x, k);
            if insert_desc(t, x)[k] != x {
                let j = choose|j: int| 0 <= j < t.len() && #[trigger] t[j] == insert_desc(t, x)[k];
                assert(s[j] == insert_desc(s, x)[k]);
            }
        } else {
            assert(s[s.len() - 1] == insert_desc(s, x)[k]);
        }
    }
}

/// Search monotonic-ordering law: for any input, the stable sort yields
/// scores that are non-increasing by index, so every search result under a
/// non-empty query is ordered by score descending.
pub proof fn lemma_sort_desc_sorted(s: Seq<(EntryModel, int)>)
    ensures
        sorted_desc(sort_desc(s)),
        sort_desc(s).len() == s.len(),
    decreases s.len(),
{
    if s.len() > 0 {
        lemma_sort_desc_sorted(s.drop_last());
        lemma_insert_desc_sorted(sort_desc(s.drop_last()), s.last());
    }
}

/// Where `x` belongs in a sorted sequence: behind the elements with score
/// at least `x.1`, in front of the (strictly smaller) rest.
proof fn lemma_insert_desc_at(s: Seq<(EntryModel, int)>, x: (EntryModel, int), pos: int)
    requires
        0 <= pos <= s.len(),
        forall|j: int| 0 <= j < pos ==> (#[trigger] s[j]).1 >= x.1,
        forall|j: int| pos <= j < s.len() ==> (#[trigger] s[j]).1 < x.1,
    ensures
        insert_desc(s, x) == s.insert(pos, x),
    decreases s.len(),
{
    if s.len() == 0 {
        assert(insert_desc(s, x) =~= s.insert(pos, x));
    } else if s.last().1 >= x.1 {
        assert(pos == s.len());
        assert(insert_desc(s, x) =~= s.insert(pos, x));
    } else {
        let t = s.drop_last();
        assert(pos <= t.len());
        assert forall|j: int| 0 <= j < pos implies (#[trigger] t[j]).1 >= x.1 by {
            assert(t[j] == s[j]);
        }
        assert forall|j: int| pos <= j < t.len() implies (#[trigger] t[j]).1 < x.1 by {
            assert(t[j] == s[j]);
        }
        lemma_insert_desc_at(t, x, pos);
        assert(insert_desc(s, x) =~= s.insert(pos, x));
    }
}

/// Model of an (entry, score) result pair.
pub open spec fn result_model(r: Seq<(ClipboardEntry, i64)>) -> Seq<(EntryModel, int)> {
    r.map_values(|p: (ClipboardEntry, i64)| (p.0@, p.1 as int))
}

/// Search `entries` for `query`.
///
/// - Empty query: every entry in the given order, scored 0.
/// - Non-empty query: exactly the matching entries with their scores,
///   stably sorted by score descending (equal scores keep the given order).
pub fn search(query: &str, entries: &Vec<ClipboardEntry>) -> (r: Vec<(ClipboardEntry, i64)>)
    ensures
        query@.len() == 0 ==> result_model(r@) == with_zero_scores(entries_model(entries@)),
        query@.len() > 0 ==> result_model(r@) == sort_desc(
            matches_of(entries_model(entries@), query@),
        ),
        sorted_desc(result_model(r@)),
{
    let ghost em = entries_model(entries@);
    let n = entries.len();
    if query.is_empty() {
        let mut out: Vec<(ClipboardEntry, i64)> = Vec::new();
        let mut i: usize = 0;
        while i < n
            invariant
                n == entries.len(),
                em == entries_model(entries@),
                0 <= i <= n,
                result_model(out@) == with_zero_scores(em.take(i as int)),
            decreases n - i,
        {
            let ghost before = out@;
            out.push((entries[i].clone(), 0i64));
            proof {
                let cur = result_model(out@);
                let want = with_zero_scores(em.take(i + 1));
                assert(i < em.len());
                assert(out@.len() == before.len() + 1);
                assert(result_model(before).len() == before.len());
                assert(with_zero_scores(em.take(i as int)).len() == em.take(i as int).len());
                assert(em.take(i as int).len() == i);
                assert(before.len() == i);
                assert(want.len() == i + 1);
                assert(cur.len() == want.len());
                assert forall|j: int| 0 <= j < cur.len() implies cur[j] == want[j] by {
                    if j < i {
                        assert(out@[j] == before[j]);
                        assert(cur[j] == result_model(before)[j]);
                        assert(result_model(before)[j] == with_zero_scores(em.take(i as int))[j]);
                    } else {
                        assert(out@[j] == (out@[j].0, out@[j].1));
                    }
                }
                assert(cur =~= want);
            }
            i += 1;
        }
        proof {
            assert(em.take(n as int) =~= em);
            assert(result_model(out@) =~= with_zero_scores(em));
        }
        return out;
    }

    // Collect the matching entries with their scores, in the given order.
    let mut acc: Vec<(ClipboardEntry, i64)> = Vec::new();
    let mut i: usize = 0;
    while i < n
        invariant
            n == entries.len(),
            em == entries_model(entries@),
            0 <= i <= n,
            result_model(acc@) == matches_of(em.take(i as int), query@),
        decreases n - i,
    {
        match fuzzy_match_score(entries[i].content.as_str(), query) {
            Some(s) => {
                acc.push((entries[i].clone(), s));
                proof {
                    assert(em.take(i + 1).drop_last() =~= em.take(i as int));
                    assert(em.take(i + 1).last() == em[i as int]);
                    assert(result_model(acc@) =~= matches_of(em.take(i + 1), query@));
                }
            },
            None => {
                proof {
                    assert(em.take(i + 1).drop_last() =~= em.take(i as int));
                    assert(em.take(i + 1).last() == em[i as int]);
                    assert(result_model(acc@) =~= matches_of(em.take(i + 1), query@));
                }
            },
        }
        i += 1;
    }
    proof {
        assert(em.take(n as int) =~= em);
    }

    // Stable insertion sort by score descending.
    let ghost am = result_model(acc@);
    let m = acc.len();
    let mut out: Vec<(ClipboardEntry, i64)> = Vec::new();
    let mut k: usize = 0;
    while k < m
        invariant
            m == acc.len(),
            am == result_model(acc@),
            0 <= k <= m,
            result_model(out@) == sort_desc(am.take(k as int)),
            out@.len() == k,
            sorted_desc(result_model(out@)),
        decreases m - k,
    {
        let x = (acc[k].0.clone(), acc[k].1);
        let ghost xm = (x.0@, x.1 as int);
        proof {
            assert(xm == am[k as int]);
        }
        // Walk back over the strictly smaller scores.
        let mut pos: usize = out.len();
        while pos > 0 && out[pos - 1].1 < x.1
            invariant
                0 <= pos <= out@.len(),
                forall|j: int|
                    pos <= j < out@.len() ==> (#[trigger] result_model(out@)[j]).1 < xm.1,
                xm.1 == x.1 as int,
            decreases pos,
        {
            pos -= 1;
        }
        proof {
            assert(pos > 0 ==> result_model(out@)[pos - 1].1 >= xm.1);
            assert forall|j: int| 0 <= j < pos implies (#[trigger] result_model(out@)[j]).1
                >= xm.1 by {
                assert(result_model(out@)[j].1 >= result_model(out@)[pos - 1].1);
            }
            lemma_insert_desc_at(result_model(out@), xm, pos as int);
        }
        let ghost before = result_model(out@);
        out.insert(pos, x);
        proof {
            assert(result_model(out@) =~= before.insert(pos as int, xm));
            assert(am.take(k + 1).drop_last() =~= am.take(k as int));
            assert(am.take(k + 1).last() == am[k as int]);
            assert(result_model(out@) =~= sort_desc(am.take(k + 1)));
            lemma_sort_desc_sorted(am.take(k + 1));
        }
        k += 1;
    }
    proof {
        assert(am.take(m as int) =~= am);
    }
    out
}

} // verus!
