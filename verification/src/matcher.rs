//! The multi-pattern matcher: each dictionary chunk is compiled into
//! one character-wise Aho-Corasick automaton of the `daachorse` crate
//! with leftmost-longest match semantics; a query runs every automaton
//! and merges the hits.

use vstd::prelude::*;

use crate::error::PingyinError;
use crate::loader::{
    entries_of_chunks, keys_wf, lemma_views_of_chunks_index, pair_views, views_of_chunks, Loader,
};
use crate::strutil::{contains_seq, lemma_lex_leq_trans, lemma_lex_total, lex_leq, str_lex_lt};
use daachorse::errors::DaachorseError;
use daachorse::{CharwiseDoubleArrayAhoCorasick, CharwiseDoubleArrayAhoCorasickBuilder, MatchKind};

verus! {

#[verifier::external_type_specification]
#[verifier::external_body]
#[verifier::reject_recursive_types(V)]
pub struct ExCharwiseDoubleArrayAhoCorasick<V>(CharwiseDoubleArrayAhoCorasick<V>);

#[verifier::external_type_specification]
#[verifier::external_body]
pub struct ExDaachorseError(DaachorseError);

/// What an automaton stores: each of its patterns mapped to the value
/// registered with it.
pub uninterp spec fn automaton_entries(a: CharwiseDoubleArrayAhoCorasick<u32>) -> Map<
    Seq<char>,
    u32,
>;

/// The views of a raw match vector, elementwise.
pub open spec fn match_views(r: Seq<(String, u32)>) -> Seq<(Seq<char>, u32)> {
    r.map_values(|m: (String, u32)| (m.0@, m.1))
}

/// What a leftmost-longest search reports on a haystack: a function
/// of the automaton and the text alone.
pub uninterp spec fn leftmost_matches(a: CharwiseDoubleArrayAhoCorasick<u32>, text: Seq<char>) -> Seq<
    (Seq<char>, u32),
>;

/// The automaton was compiled for leftmost matching.
pub uninterp spec fn leftmost_kind(a: CharwiseDoubleArrayAhoCorasick<u32>) -> bool;

/// Whether the double-array automaton over these entries can be
/// built: a function of the entry run alone, false only at scale
/// limits of the encoding.
pub uninterp spec fn automaton_constructible(ps: Seq<(Seq<char>, Seq<char>)>) -> bool;

/// Relies on `daachorse`'s `CharwiseDoubleArrayAhoCorasickBuilder`:
/// `new`, `match_kind(MatchKind::LeftmostLongest)` and
/// `build_with_values` compile the given patterns — the `j`-th key
/// carrying the value `j` — into an automaton that stores exactly
/// those patterns with those values. Whether construction succeeds
/// is a deterministic function of the entry run — named
/// `automaton_constructible` — and fails only on scale limits of the
/// double-array encoding.
#[verifier::external_body]
fn build_automaton(pairs: &Vec<(String, String)>) -> (r: Result<
    CharwiseDoubleArrayAhoCorasick<u32>,
    DaachorseError,
>)
    requires
        keys_wf(pair_views(pairs@)),
        pairs@.len() <= u32::MAX,
    ensures
        r is Ok <==> automaton_constructible(pair_views(pairs@)),
        r is Ok ==> forall|j: int|
            0 <= j < pairs@.len() ==> automaton_entries(r->Ok_0).contains_key(
                (#[trigger] pair_views(pairs@)[j]).0,
            ) && automaton_entries(r->Ok_0)[pair_views(pairs@)[j].0] == j as u32,
        r is Ok ==> forall|k: Seq<char>|
            automaton_entries(r->Ok_0).contains_key(k) ==> exists|j: int|
                0 <= j < pairs@.len() && (#[trigger] pair_views(pairs@)[j]).0 == k,
        r is Ok ==> leftmost_kind(r->Ok_0),
{
    let patvals = pairs.iter().enumerate().map(|(j, p)| (p.0.as_str(), j as u32));
    CharwiseDoubleArrayAhoCorasickBuilder::new().match_kind(MatchKind::LeftmostLongest)
        .build_with_values(patvals)
}

/// Relies on `CharwiseDoubleArrayAhoCorasick::leftmost_find_iter`:
/// the reported matches are a function of the automaton and the
/// haystack alone — named `leftmost_matches` — and each spans an
/// occurrence, in the haystack, of a stored pattern, carrying that
/// pattern's value.
#[verifier::external_body]
fn find_leftmost(a: &CharwiseDoubleArrayAhoCorasick<u32>, text: &str) -> (r: Vec<(String, u32)>)
    requires
        leftmost_kind(*a),
    ensures
        match_views(r@) == leftmost_matches(*a, text@),
        forall|t: int|
            0 <= t < r@.len() ==> automaton_entries(*a).contains_key((#[trigger] r@[t]).0@)
                && automaton_entries(*a)[r@[t].0@] == r@[t].1 && contains_seq(text@, r@[t].0@),
{
    let mut out = Vec::new();
    for m in a.leftmost_find_iter(text) {
        out.push((text[m.start()..m.end()].to_string(), m.value()));
    }
    out
}

/// One compiled dictionary chunk: the automaton beside the chunk's
/// own entries, which the automaton's values index.
struct Shard {
    auto: CharwiseDoubleArrayAhoCorasick<u32>,
    pairs: Vec<(String, String)>,
}

spec fn shard_wf(sh: Shard) -> bool {
    let ps = pair_views(sh.pairs@);
    &&& keys_wf(ps)
    &&& ps.len() <= u32::MAX
    &&& leftmost_kind(sh.auto)
    &&& forall|j: int|
        0 <= j < ps.len() ==> automaton_entries(sh.auto).contains_key((#[trigger] ps[j]).0)
            && automaton_entries(sh.auto)[ps[j].0] == j as u32
    &&& forall|k: Seq<char>|
        automaton_entries(sh.auto).contains_key(k) ==> exists|j: int|
            0 <= j < ps.len() && (#[trigger] ps[j]).0 == k
}

spec fn entries_of_shards(sh: Seq<Shard>) -> Seq<(Seq<char>, Seq<char>)>
    decreases sh.len(),
{
    if sh.len() == 0 {
        Seq::empty()
    } else {
        entries_of_shards(sh.drop_last()) + pair_views(sh.last().pairs@)
    }
}

proof fn lemma_shard_entry_contained(sh: Seq<Shard>, h: int, e: (Seq<char>, Seq<char>))
    requires
        0 <= h < sh.len(),
        pair_views(sh[h].pairs@).contains(e),
    ensures
        entries_of_shards(sh).contains(e),
    decreases sh.len(),
{
    let left = entries_of_shards(sh.drop_last());
    let right = pair_views(sh.last().pairs@);
    if h == sh.len() - 1 {
        let j = choose|j: int| 0 <= j < right.len() && right[j] == e;
        assert(entries_of_shards(sh)[left.len() + j] == e);
    } else {
        assert(sh.drop_last()[h] == sh[h]);
        lemma_shard_entry_contained(sh.drop_last(), h, e);
        let j = choose|j: int| 0 <= j < left.len() && left[j] == e;
        assert(entries_of_shards(sh)[j] == e);
    }
}

/// Every chunk of a chunking plan is small enough for the value
/// range and compiles into an automaton.
pub open spec fn plan_constructible(plan: Seq<Seq<(Seq<char>, Seq<char>)>>) -> bool {
    forall|c: int|
        0 <= c < plan.len() ==> (#[trigger] plan[c]).len() <= u32::MAX && (plan[c].len() > 0
            ==> automaton_constructible(plan[c]))
}

/// One outcome of a segmentation walk: an entry resolved from a
/// dictionary, or a character no dictionary covers.
#[derive(Debug)]
pub enum MatchSegment {
    Matched(crate::PinyinWord),
    NotMatched(char),
}

/// A compiled matcher over one dictionary partition.
pub struct Matcher {
    shards: Vec<Shard>,
}

/// A raw hit list annotated from a chunk's entries: each reported
/// key paired with the annotation its value indexes.
spec fn annotate_hits(ms: Seq<(Seq<char>, u32)>, ps: Seq<(Seq<char>, Seq<char>)>) -> Seq<
    (Seq<char>, Seq<char>),
>
    decreases ms.len(),
{
    if ms.len() == 0 {
        Seq::empty()
    } else {
        seq![(ms[0].0, ps[ms[0].1 as int].1)] + annotate_hits(ms.drop_first(), ps)
    }
}

proof fn lemma_annotate_push(ms: Seq<(Seq<char>, u32)>, m: (Seq<char>, u32), ps: Seq<(Seq<char>, Seq<char>)>)
    ensures
        annotate_hits(ms.push(m), ps) == annotate_hits(ms, ps).push((m.0, ps[m.1 as int].1)),
    decreases ms.len(),
{
    let q = ms.push(m);
    let e = (m.0, ps[m.1 as int].1);
    if ms.len() == 0 {
        assert(q[0] == m);
        assert(q.drop_first() =~= Seq::<(Seq<char>, u32)>::empty());
        assert(annotate_hits(q, ps) == seq![(q[0].0, ps[q[0].1 as int].1)] + annotate_hits(
            q.drop_first(),
            ps,
        ));
        assert((q[0].0, ps[q[0].1 as int].1) == e);
        assert(annotate_hits(q.drop_first(), ps) == Seq::<(Seq<char>, Seq<char>)>::empty());
        assert(seq![e] + Seq::<(Seq<char>, Seq<char>)>::empty() =~= annotate_hits(ms, ps).push(e));
    } else {
        assert(q[0] == ms[0]);
        assert(q.drop_first() =~= ms.drop_first().push(m));
        lemma_annotate_push(ms.drop_first(), m, ps);
        assert(annotate_hits(q, ps) == seq![(q[0].0, ps[q[0].1 as int].1)] + annotate_hits(
            q.drop_first(),
            ps,
        ));
        assert(annotate_hits(q.drop_first(), ps) == annotate_hits(ms.drop_first(), ps).push(e));
        assert(annotate_hits(ms, ps) == seq![(ms[0].0, ps[ms[0].1 as int].1)] + annotate_hits(
            ms.drop_first(),
            ps,
        ));
        assert(seq![(q[0].0, ps[q[0].1 as int].1)] + annotate_hits(ms.drop_first(), ps).push(e)
            =~= annotate_hits(ms, ps).push(e));
    }
}

/// The annotated hits of one shard on a text.
spec fn shard_hits(sh: Shard, text: Seq<char>) -> Seq<(Seq<char>, Seq<char>)> {
    annotate_hits(leftmost_matches(sh.auto, text), pair_views(sh.pairs@))
}

/// The annotated hits of a run of shards, in shard order.
spec fn hits_of_shards(shs: Seq<Shard>, text: Seq<char>) -> Seq<(Seq<char>, Seq<char>)>
    decreases shs.len(),
{
    if shs.len() == 0 {
        Seq::empty()
    } else {
        hits_of_shards(shs.drop_last(), text) + shard_hits(shs.last(), text)
    }
}

/// Some entry carries the key `k`.
pub open spec fn has_key(ps: Seq<(Seq<char>, Seq<char>)>, k: Seq<char>) -> bool {
    exists|j: int| 0 <= j < ps.len() && (#[trigger] ps[j]).0 == k
}

/// Keys are pairwise distinct.
pub open spec fn distinct_keys(ps: Seq<(Seq<char>, Seq<char>)>) -> bool {
    forall|i: int, j: int| 0 <= i < j < ps.len() ==> (#[trigger] ps[i]).0 != (#[trigger] ps[j]).0
}

/// The entries with every later repetition of a key dropped.
pub open spec fn dedup_keys(ps: Seq<(Seq<char>, Seq<char>)>) -> Seq<(Seq<char>, Seq<char>)>
    decreases ps.len(),
{
    if ps.len() == 0 {
        Seq::empty()
    } else {
        let front = dedup_keys(ps.drop_last());
        if has_key(ps.drop_last(), ps.last().0) {
            front
        } else {
            front.push(ps.last())
        }
    }
}

proof fn lemma_dedup_keys_of(ps: Seq<(Seq<char>, Seq<char>)>)
    ensures
        distinct_keys(dedup_keys(ps)),
        forall|k: Seq<char>| has_key(dedup_keys(ps), k) <==> has_key(ps, k),
        forall|t: int| 0 <= t < dedup_keys(ps).len() ==> ps.contains(#[trigger] dedup_keys(ps)[t]),
    decreases ps.len(),
{
    if ps.len() > 0 {
        let fr = ps.drop_last();
        lemma_dedup_keys_of(fr);
        let front = dedup_keys(fr);
        let d = dedup_keys(ps);
        assert(forall|j: int| 0 <= j < fr.len() ==> fr[j] == ps[j]);
        // front is a prefix of d in both branches
        assert(forall|t: int| 0 <= t < front.len() ==> d[t] == front[t]);
        assert forall|k: Seq<char>| has_key(ps, k) implies has_key(d, k) by {
            let j = choose|j: int| 0 <= j < ps.len() && (#[trigger] ps[j]).0 == k;
            if j < ps.len() - 1 {
                assert(fr[j].0 == k);
                assert(has_key(fr, k));
            }
            if has_key(fr, k) {
                assert(has_key(front, k));
                let t = choose|t: int| 0 <= t < front.len() && (#[trigger] front[t]).0 == k;
                assert(d[t].0 == k);
                assert(has_key(d, k));
            } else {
                assert(j == ps.len() - 1);
                assert(ps.last().0 == k);
                assert(d == front.push(ps.last()));
                assert(d[front.len() as int].0 == k);
                assert(has_key(d, k));
            }
        }
        assert forall|k: Seq<char>| has_key(d, k) implies has_key(ps, k) by {
            let j = choose|j: int| 0 <= j < d.len() && (#[trigger] d[j]).0 == k;
            if j < front.len() {
                assert(front[j].0 == k);
                assert(has_key(front, k));
                assert(has_key(fr, k));
                let t = choose|t: int| 0 <= t < fr.len() && (#[trigger] fr[t]).0 == k;
                assert(ps[t].0 == k);
                assert(has_key(ps, k));
            } else {
                assert(d == front.push(ps.last()));
                assert(d[j] == ps.last());
                assert(ps[ps.len() - 1].0 == k);
                assert(has_key(ps, k));
            }
        }
        assert forall|t: int| 0 <= t < d.len() implies ps.contains(#[trigger] d[t]) by {
            if t < front.len() {
                assert(front[t] == d[t]);
                assert(fr.contains(front[t]));
                let j = choose|j: int| 0 <= j < fr.len() && fr[j] == front[t];
                assert(ps[j] == d[t]);
            } else {
                assert(d == front.push(ps.last()));
                assert(d[t] == ps.last());
                assert(ps[ps.len() - 1] == d[t]);
            }
        }
        assert forall|i: int, j: int| 0 <= i < j < d.len() implies (#[trigger] d[i]).0 != (
        #[trigger] d[j]).0 by {
            if j < front.len() {
                assert(d[i] == front[i] && d[j] == front[j]);
            } else {
                assert(d == front.push(ps.last()));
                assert(d[j] == ps.last());
                assert(d[i] == front[i]);
                if front[i].0 == ps.last().0 {
                    assert(has_key(front, ps.last().0));
                    assert(has_key(fr, ps.last().0));
                }
            }
        }
    }
}

/// The unique reordering of key-distinct entries into descending key
/// order.
pub open spec fn sorted_desc_of(ps: Seq<(Seq<char>, Seq<char>)>) -> Seq<(Seq<char>, Seq<char>)> {
    choose|q: Seq<(Seq<char>, Seq<char>)>|
        q.to_multiset() == ps.to_multiset() && sorted_desc_keys(q)
}

/// Equal multisets carry key-distinctness across.
proof fn lemma_distinct_keys_transfer(ps: Seq<(Seq<char>, Seq<char>)>, q: Seq<(Seq<char>, Seq<char>)>)
    requires
        q.to_multiset() == ps.to_multiset(),
        distinct_keys(ps),
    ensures
        distinct_keys(q),
{
    broadcast use vstd::seq_lib::group_to_multiset_ensures;
    broadcast use vstd::multiset::group_multiset_axioms;

    assert(ps.no_duplicates()) by {
        assert forall|i: int, j: int|
            0 <= i < ps.len() && 0 <= j < ps.len() && i != j implies ps[i] != ps[j] by {}
    }
    ps.lemma_multiset_has_no_duplicates();
    q.lemma_multiset_has_no_duplicates_conv();
    assert forall|i: int, j: int| 0 <= i < j < q.len() implies (#[trigger] q[i]).0 != (
    #[trigger] q[j]).0 by {
        if q[i].0 == q[j].0 {
            assert(q[i] != q[j]);
            assert(q.contains(q[i]) && q.contains(q[j]));
            assert(ps.to_multiset().count(q[i]) > 0 && ps.to_multiset().count(q[j]) > 0);
            assert(ps.contains(q[i]) && ps.contains(q[j]));
            let ii = choose|t: int| 0 <= t < ps.len() && ps[t] == q[i];
            let jj = choose|t: int| 0 <= t < ps.len() && ps[t] == q[j];
            assert(ii != jj);
        }
    }
}

/// Two key-distinct runs with the same entries, both in descending
/// key order, are equal.
proof fn lemma_sorted_desc_unique(a: Seq<(Seq<char>, Seq<char>)>, b: Seq<(Seq<char>, Seq<char>)>)
    requires
        a.to_multiset() == b.to_multiset(),
        sorted_desc_keys(a),
        sorted_desc_keys(b),
        distinct_keys(a),
    ensures
        a == b,
    decreases a.len(),
{
    broadcast use vstd::seq_lib::group_to_multiset_ensures;
    broadcast use vstd::multiset::group_multiset_axioms;

    if a.len() == 0 {
        assert(b.to_multiset().len() == 0);
        assert(a =~= b);
    } else {
        assert(a.contains(a[0]));
        assert(b.to_multiset().count(a[0]) > 0);
        assert(b.contains(a[0]));
        let i = choose|t: int| 0 <= t < b.len() && b[t] == a[0];
        assert(b.contains(b[0]));
        assert(a.to_multiset().count(b[0]) > 0);
        assert(a.contains(b[0]));
        let i2 = choose|t: int| 0 <= t < a.len() && a[t] == b[0];
        // the heads carry the same key
        if i > 0 {
            assert(lex_leq(b[i].0, b[0].0));
        }
        if i2 > 0 {
            assert(lex_leq(a[i2].0, a[0].0));
        }
        assert(a[0].0 == b[0].0) by {
            if a[0].0 != b[0].0 {
                crate::strutil::lemma_lex_asym(a[0].0, b[0].0);
            }
        }
        // and by key-distinctness they are the same entry
        assert(a[i2] == b[0] && a[i2].0 == a[0].0);
        assert(i2 == 0);
        assert(a[0] == b[0]);
        // strip the heads and recur
        assert(a.drop_first() =~= a.remove(0));
        assert(b.drop_first() =~= b.remove(0));
        vstd::seq_lib::to_multiset_remove(a, 0);
        vstd::seq_lib::to_multiset_remove(b, 0);
        let at = a.drop_first();
        let bt = b.drop_first();
        assert(at.to_multiset() == bt.to_multiset());
        assert(sorted_desc_keys(at)) by {
            assert forall|x: int, y: int| 0 <= x < y < at.len() implies lex_leq(
                (#[trigger] at[y]).0,
                (#[trigger] at[x]).0,
            ) by {
                assert(at[x] == a[x + 1] && at[y] == a[y + 1]);
            }
        }
        assert(sorted_desc_keys(bt)) by {
            assert forall|x: int, y: int| 0 <= x < y < bt.len() implies lex_leq(
                (#[trigger] bt[y]).0,
                (#[trigger] bt[x]).0,
            ) by {
                assert(bt[x] == b[x + 1] && bt[y] == b[y + 1]);
            }
        }
        assert(distinct_keys(at)) by {
            assert forall|x: int, y: int| 0 <= x < y < at.len() implies (#[trigger] at[x]).0 != (
            #[trigger] at[y]).0 by {
                assert(at[x] == a[x + 1] && at[y] == a[y + 1]);
            }
        }
        lemma_sorted_desc_unique(at, bt);
        assert forall|t: int| 0 <= t < a.len() implies a[t] == b[t] by {
            if t > 0 {
                assert(a[t] == at[t - 1] && b[t] == bt[t - 1]);
            }
        }
        assert(a =~= b);
    }
}

/// A key-distinct run reordered into descending key order is exactly
/// `sorted_desc_of` it.
proof fn lemma_sorted_desc_of_is(ps: Seq<(Seq<char>, Seq<char>)>, q: Seq<(Seq<char>, Seq<char>)>)
    requires
        q.to_multiset() == ps.to_multiset(),
        sorted_desc_keys(q),
        distinct_keys(ps),
    ensures
        sorted_desc_of(ps) == q,
{
    let w = sorted_desc_of(ps);
    assert(w.to_multiset() == ps.to_multiset() && sorted_desc_keys(w)) by {
        assert(q.to_multiset() == ps.to_multiset() && sorted_desc_keys(q));
    }
    lemma_distinct_keys_transfer(ps, w);
    lemma_sorted_desc_unique(w, q);
}


/// Keys run in non-ascending lexicographic order.
pub open spec fn sorted_desc_keys(ps: Seq<(Seq<char>, Seq<char>)>) -> bool {
    forall|i: int, j: int|
        0 <= i < j < ps.len() ==> lex_leq((#[trigger] ps[j]).0, (#[trigger] ps[i]).0)
}

/// Orders entries by descending key text (for keys that extend one
/// another this puts the longer key first).
fn sort_by_key_length_desc(entries: Vec<(String, String)>) -> (r: Vec<(String, String)>)
    ensures
        r@.to_multiset() == entries@.to_multiset(),
        pair_views(r@).to_multiset() == pair_views(entries@).to_multiset(),
        sorted_desc_keys(pair_views(r@)),
{
    broadcast use vstd::seq_lib::group_to_multiset_ensures;
    broadcast use vstd::multiset::group_multiset_axioms;

    let mut v = entries;
    let mut out: Vec<(String, String)> = Vec::new();
    proof {
        assert(out@.to_multiset().add(v@.to_multiset()) =~= entries@.to_multiset());
        assert(pair_views(out@).to_multiset().add(pair_views(v@).to_multiset()) =~= pair_views(
            entries@,
        ).to_multiset());
    }
    while v.len() > 0
        invariant
            out@.to_multiset().add(v@.to_multiset()) == entries@.to_multiset(),
            pair_views(out@).to_multiset().add(pair_views(v@).to_multiset()) == pair_views(
                entries@,
            ).to_multiset(),
            sorted_desc_keys(pair_views(out@)),
            forall|i: int, j: int|
                0 <= i < out@.len() && 0 <= j < v@.len() ==> lex_leq(
                    (#[trigger] pair_views(v@)[j]).0,
                    (#[trigger] pair_views(out@)[i]).0,
                ),
        decreases v@.len(),
    {
        let mut m: usize = 0;
        let mut j: usize = 1;
        while j < v.len()
            invariant
                v@.len() > 0,
                m < j <= v@.len() || (m == 0 && j <= v@.len()),
                m < v@.len(),
                forall|t: int|
                    0 <= t < j ==> lex_leq(
                        (#[trigger] pair_views(v@)[t]).0,
                        pair_views(v@)[m as int].0,
                    ),
            decreases v@.len() - j,
        {
            if str_lex_lt(&v[m].0, &v[j].0) {
                proof {
                    assert forall|t: int| 0 <= t < j + 1 implies lex_leq(
                        (#[trigger] pair_views(v@)[t]).0,
                        pair_views(v@)[j as int].0,
                    ) by {
                        if t < j {
                            lemma_lex_leq_trans(
                                pair_views(v@)[t].0,
                                pair_views(v@)[m as int].0,
                                pair_views(v@)[j as int].0,
                            );
                        }
                    }
                }
                m = j;
            } else {
                proof {
                    lemma_lex_total(pair_views(v@)[m as int].0, pair_views(v@)[j as int].0);
                }
            }
            j = j + 1;
        }
        let ghost old_v = v@;
        let ghost old_out = out@;
        let e = v.remove(m);
        proof {
            assert(e == old_v[m as int]);
            assert(old_v.contains(e));
        }
        out.push(e);
        proof {
            assert(pair_views(out@) =~= pair_views(old_out).push((e.0@, e.1@)));
            assert(out@ == old_out.push(e));
            vstd::seq_lib::to_multiset_build(old_out, e);
            assert(v@ == old_v.remove(m as int));
            vstd::seq_lib::to_multiset_remove(old_v, m as int);
            vstd::seq_lib::to_multiset_contains(old_v, e);
            assert(old_v.to_multiset().count(e) > 0);
            assert(out@.to_multiset().add(v@.to_multiset()) =~= old_out.to_multiset().add(
                old_v.to_multiset(),
            ));
            let ev = (e.0@, e.1@);
            vstd::seq_lib::to_multiset_build(pair_views(old_out), ev);
            assert(pair_views(v@) =~= pair_views(old_v).remove(m as int));
            vstd::seq_lib::to_multiset_remove(pair_views(old_v), m as int);
            assert(pair_views(old_v)[m as int] == ev);
            vstd::seq_lib::to_multiset_contains(pair_views(old_v), ev);
            assert(pair_views(old_v).contains(ev)) by {
                assert(pair_views(old_v)[m as int] == ev);
            }
            assert(pair_views(old_v).to_multiset().count(ev) > 0);
            assert(pair_views(out@).to_multiset().add(pair_views(v@).to_multiset())
                =~= pair_views(old_out).to_multiset().add(pair_views(old_v).to_multiset()));
            // every earlier output key dominates the appended one
            assert forall|i: int, jx: int|
                0 <= i < jx < pair_views(out@).len() implies lex_leq(
                (#[trigger] pair_views(out@)[jx]).0,
                (#[trigger] pair_views(out@)[i]).0,
            ) by {
                if jx < old_out.len() {
                    assert(pair_views(out@)[i] == pair_views(old_out)[i]);
                    assert(pair_views(out@)[jx] == pair_views(old_out)[jx]);
                } else {
                    assert(pair_views(out@)[jx] == (e.0@, e.1@));
                    assert(pair_views(out@)[i] == pair_views(old_out)[i]);
                    assert(lex_leq(pair_views(old_v)[m as int].0, pair_views(old_out)[i].0));
                    assert(pair_views(old_v)[m as int].0 == e.0@);
                }
            }
            // the new output still dominates everything left in v
            assert forall|i: int, jx: int|
                0 <= i < pair_views(out@).len() && 0 <= jx < v@.len() implies lex_leq(
                (#[trigger] pair_views(v@)[jx]).0,
                (#[trigger] pair_views(out@)[i]).0,
            ) by {
                let w = pair_views(v@)[jx];
                assert(v@[jx] == if jx < m {
                    old_v[jx]
                } else {
                    old_v[jx + 1]
                });
                let src = if jx < m {
                    jx
                } else {
                    jx + 1
                };
                assert(w == pair_views(old_v)[src]);
                assert(lex_leq(w.0, pair_views(old_v)[m as int].0));
                if i < old_out.len() {
                    lemma_lex_leq_trans(
                        w.0,
                        pair_views(old_v)[m as int].0,
                        pair_views(old_out)[i].0,
                    );
                    assert(pair_views(out@)[i] == pair_views(old_out)[i]);
                } else {
                    assert(pair_views(out@)[i] == (e.0@, e.1@));
                }
            }
        }
    }
    out
}

impl Matcher {
    /// The entries of the partition the matcher was compiled from.
    pub closed spec fn entries(&self) -> Seq<(Seq<char>, Seq<char>)> {
        entries_of_shards(self.shards@)
    }

    /// Every shard's automaton stores exactly its chunk's keys.
    pub closed spec fn wf(&self) -> bool {
        forall|h: int| 0 <= h < self.shards@.len() ==> shard_wf(#[trigger] self.shards@[h])
    }

    /// Compiles one automaton per dictionary chunk: this succeeds if
    /// and only if every chunk of the partition's chunking plan is
    /// constructible, and fails with `BuildError` (a scale limit of
    /// the double-array encoding, or a chunk too large for the value
    /// range).
    pub fn new<L: Loader>(loader: &L) -> (r: Result<Matcher, PingyinError>)
        requires
            loader.wf(),
        ensures
            r is Ok <==> plan_constructible(loader.chunks_plan()),
            r is Ok ==> r->Ok_0.wf() && r->Ok_0.entries() == loader.entries(),
            r is Err ==> r->Err_0 == PingyinError::BuildError,
    {
        let chunks = loader.load();
        let ghost plan = loader.chunks_plan();
        let mut shards: Vec<Shard> = Vec::new();
        let mut i: usize = 0;
        proof {
            assert(chunks@.take(0) =~= Seq::<Vec<(String, String)>>::empty());
            assert(entries_of_shards(shards@) =~= entries_of_chunks(chunks@.take(0)));
            lemma_views_of_chunks_index(chunks@, 0);
        }
        while i < chunks.len()
            invariant
                i <= chunks@.len(),
                plan == loader.chunks_plan(),
                views_of_chunks(chunks@) == plan,
                plan.len() == chunks@.len(),
                entries_of_chunks(chunks@) == loader.entries(),
                forall|c: int|
                    0 <= c < chunks@.len() ==> keys_wf(pair_views(#[trigger] chunks@[c]@)),
                forall|c: int|
                    0 <= c < i ==> (#[trigger] plan[c]).len() <= u32::MAX && (plan[c].len() > 0
                        ==> automaton_constructible(plan[c])),
                entries_of_shards(shards@) == entries_of_chunks(chunks@.take(i as int)),
                forall|h: int| 0 <= h < shards@.len() ==> shard_wf(#[trigger] shards@[h]),
            decreases chunks@.len() - i,
        {
            let chunk = &chunks[i];
            proof {
                assert(chunks@.take(i + 1).drop_last() =~= chunks@.take(i as int));
                assert(chunks@.take(i + 1).last() == chunks@[i as int]);
                lemma_views_of_chunks_index(chunks@, i as int);
                assert(plan[i as int] == pair_views(chunks@[i as int]@));
            }
            if chunk.len() == 0 {
                proof {
                    assert(pair_views(chunks@[i as int]@) =~= Seq::<(Seq<char>, Seq<char>)>::empty());
                    assert(entries_of_shards(shards@) + pair_views(chunks@[i as int]@)
                        =~= entries_of_shards(shards@));
                    assert(plan[i as int].len() == 0);
                }
            } else {
                if chunk.len() > (u32::MAX as usize) {
                    proof {
                        assert(plan[i as int].len() > u32::MAX);
                        assert(!plan_constructible(plan));
                    }
                    return Result::Err(PingyinError::BuildError);
                }
                match build_automaton(chunk) {
                    Result::Err(_) => {
                        proof {
                            assert(!automaton_constructible(plan[i as int]));
                            assert(!plan_constructible(plan));
                        }
                        return Result::Err(PingyinError::BuildError);
                    },
                    Result::Ok(auto) => {
                        let copy = crate::loader::copy_pairs_range(chunk, 0, chunk.len());
                        proof {
                            assert(chunk@.subrange(0, chunk@.len() as int) =~= chunk@);
                            assert(automaton_constructible(plan[i as int]));
                        }
                        let ghost old_shards = shards@;
                        let sh = Shard { auto, pairs: copy };
                        shards.push(sh);
                        proof {
                            assert(shards@.drop_last() =~= old_shards);
                            assert(shards@.last().pairs@ == chunks@[i as int]@);
                            assert(entries_of_shards(shards@) == entries_of_shards(old_shards)
                                + pair_views(chunks@[i as int]@));
                            assert(shard_wf(sh));
                            assert forall|h: int| 0 <= h < shards@.len() implies shard_wf(
                                #[trigger] shards@[h],
                            ) by {
                                if h < old_shards.len() {
                                    assert(shards@[h] == old_shards[h]);
                                }
                            }
                        }
                    },
                }
            }
            i = i + 1;
        }
        proof {
            assert(chunks@.take(chunks@.len() as int) =~= chunks@);
            assert(plan_constructible(plan));
        }
        Result::Ok(Matcher { shards })
    }

    /// The hits the matcher reports on `text`: every shard's named
    /// search results annotated with their entries, concatenated in
    /// shard order, the first hit per key kept.
    pub closed spec fn found(&self, text: Seq<char>) -> Seq<(Seq<char>, Seq<char>)> {
        dedup_keys(hits_of_shards(self.shards@, text))
    }

    /// Finds dictionary entries occurring in `word`: exactly the
    /// named leftmost-longest hits of every automaton, annotated and
    /// merged in shard order with one entry per key; with
    /// `desc_by_key` that merge reordered by descending key text.
    /// Every returned pair is an entry of the partition whose key
    /// occurs in `word`; keys hidden by a longer overlapping match
    /// are not reported (leftmost-longest semantics, per automaton).
    pub fn match_to_pinyin(&self, word: &str, desc_by_key: bool) -> (r: Vec<(String, String)>)
        requires
            self.wf(),
        ensures
            !desc_by_key ==> pair_views(r@) == self.found(word@),
            desc_by_key ==> pair_views(r@) == sorted_desc_of(self.found(word@)),
            distinct_keys(pair_views(r@)),
            forall|t: int|
                0 <= t < r@.len() ==> self.entries().contains(#[trigger] pair_views(r@)[t])
                    && contains_seq(word@, pair_views(r@)[t].0),
            desc_by_key ==> sorted_desc_keys(pair_views(r@)),
    {
        broadcast use vstd::seq_lib::group_to_multiset_ensures;

        let mut out: Vec<(String, String)> = Vec::new();
        let mut h: usize = 0;
        proof {
            assert(self.shards@.take(0) =~= Seq::<Shard>::empty());
            assert(pair_views(out@) =~= dedup_keys(hits_of_shards(self.shards@.take(0), word@)));
        }
        while h < self.shards.len()
            invariant
                self.wf(),
                h <= self.shards@.len(),
                pair_views(out@) == dedup_keys(hits_of_shards(self.shards@.take(h as int), word@)),
                forall|t: int|
                    0 <= t < out@.len() ==> self.entries().contains(#[trigger] pair_views(out@)[t])
                        && contains_seq(word@, pair_views(out@)[t].0),
            decreases self.shards@.len() - h,
        {
            let sh = &self.shards[h];
            proof {
                assert(shard_wf(self.shards@[h as int]));
            }
            let ms = find_leftmost(&sh.auto, word);
            let ghost mviews = match_views(ms@);
            let ghost ps = pair_views(sh.pairs@);
            let ghost base = hits_of_shards(self.shards@.take(h as int), word@);
            proof {
                assert(annotate_hits(mviews.take(0), ps) =~= Seq::<(Seq<char>, Seq<char>)>::empty());
                assert(base + annotate_hits(mviews.take(0), ps) =~= base);
            }
            let mut t: usize = 0;
            while t < ms.len()
                invariant
                    self.wf(),
                    h < self.shards@.len(),
                    sh == self.shards@[h as int],
                    mviews == match_views(ms@),
                    ps == pair_views(sh.pairs@),
                    base == hits_of_shards(self.shards@.take(h as int), word@),
                    t <= ms@.len(),
                    forall|q: int|
                        0 <= q < ms@.len() ==> automaton_entries(sh.auto).contains_key(
                            (#[trigger] ms@[q]).0@,
                        ) && automaton_entries(sh.auto)[ms@[q].0@] == ms@[q].1 && contains_seq(
                            word@,
                            ms@[q].0@,
                        ),
                    pair_views(out@) == dedup_keys(base + annotate_hits(mviews.take(t as int), ps)),
                    forall|q: int|
                        0 <= q < out@.len() ==> self.entries().contains(
                            #[trigger] pair_views(out@)[q],
                        ) && contains_seq(word@, pair_views(out@)[q].0),
                decreases ms@.len() - t,
            {
                let key = ms[t].0.clone();
                let x = ms[t].1;
                proof {
                    let j = choose|j: int| 0 <= j < ps.len() && (#[trigger] ps[j]).0 == key@;
                    assert(automaton_entries(sh.auto)[ps[j].0] == j as u32);
                    assert(automaton_entries(sh.auto)[key@] == x);
                    assert(j as u32 == x);
                    assert(j < ps.len() && ps.len() <= u32::MAX);
                    assert(x as int == j);
                }
                let xi = x as usize;
                let ann = sh.pairs[xi].1.clone();
                let ghost e = (key@, ann@);
                let ghost processed = base + annotate_hits(mviews.take(t as int), ps);
                proof {
                    assert(mviews[t as int] == (key@, x));
                    assert(e == (mviews[t as int].0, ps[mviews[t as int].1 as int].1));
                    lemma_annotate_push(mviews.take(t as int), mviews[t as int], ps);
                    assert(mviews.take(t as int).push(mviews[t as int]) =~= mviews.take(t + 1));
                    assert(base + annotate_hits(mviews.take(t + 1), ps) =~~= processed.push(e));
                    assert(processed.push(e).drop_last() =~= processed);
                    assert(processed.push(e).last() == e);
                }
                // one entry per key: drop a key already collected
                let mut seen: bool = false;
                let mut q: usize = 0;
                while q < out.len()
                    invariant
                        q <= out@.len(),
                        !seen ==> forall|j: int|
                            0 <= j < q ==> (#[trigger] pair_views(out@)[j]).0 != key@,
                        seen ==> has_key(pair_views(out@), key@),
                    decreases out@.len() - q + (if seen {
                        0int
                    } else {
                        1int
                    }),
                {
                    if out[q].0 == key {
                        proof {
                            assert(pair_views(out@)[q as int].0 == key@);
                        }
                        seen = true;
                        q = out.len();
                    } else {
                        q = q + 1;
                    }
                }
                proof {
                    lemma_dedup_keys_of(processed);
                    if seen {
                        assert(has_key(processed, e.0));
                        assert(dedup_keys(processed.push(e)) == dedup_keys(processed));
                    } else {
                        assert(!has_key(pair_views(out@), key@)) by {
                            if has_key(pair_views(out@), key@) {
                                let j = choose|j: int|
                                    0 <= j < pair_views(out@).len() && (#[trigger] pair_views(
                                        out@,
                                    )[j]).0 == key@;
                            }
                        }
                        assert(!has_key(processed, e.0));
                        assert(dedup_keys(processed.push(e)) == dedup_keys(processed).push(e));
                    }
                }
                if !seen {
                    let ghost old_out = out@;
                    proof {
                        assert((key@, ann@) == ps[x as int]);
                        assert(ps.contains((key@, ann@)));
                        lemma_shard_entry_contained(self.shards@, h as int, (key@, ann@));
                    }
                    out.push((key, ann));
                    proof {
                        assert(pair_views(out@) =~= pair_views(old_out).push(e));
                    }
                }
                t = t + 1;
            }
            proof {
                assert(mviews.take(ms@.len() as int) =~= mviews);
                assert(shard_hits(self.shards@[h as int], word@) == annotate_hits(mviews, ps));
                assert(self.shards@.take(h + 1).drop_last() =~= self.shards@.take(h as int));
                assert(self.shards@.take(h + 1).last() == self.shards@[h as int]);
                assert(hits_of_shards(self.shards@.take(h + 1), word@) == base + shard_hits(
                    self.shards@[h as int],
                    word@,
                ));
            }
            h = h + 1;
        }
        proof {
            assert(self.shards@.take(self.shards@.len() as int) =~= self.shards@);
            lemma_dedup_keys_of(hits_of_shards(self.shards@, word@));
        }
        if desc_by_key {
            let ghost before = out@;
            let sorted = sort_by_key_length_desc(out);
            proof {
                let f = self.found(word@);
                assert(pair_views(before) == f);
                lemma_sorted_desc_of_is(f, pair_views(sorted@));
                lemma_distinct_keys_transfer(f, pair_views(sorted@));
                assert forall|t: int|
                    0 <= t < sorted@.len() implies self.entries().contains(
                    #[trigger] pair_views(sorted@)[t],
                ) && contains_seq(word@, pair_views(sorted@)[t].0) by {
                    assert(sorted@.contains(sorted@[t]));
                    assert(sorted@.to_multiset().count(sorted@[t]) > 0);
                    assert(before.contains(sorted@[t]));
                    let q = choose|q: int| 0 <= q < before.len() && before[q] == sorted@[t];
                    assert(pair_views(before)[q] == pair_views(sorted@)[t]);
                }
            }
            return sorted;
        }
        out
    }

}

} // verus!