//! Dictionary partitions: parsing `"<word>: <pinyin>"` dictionary text
//! into key-value pairs, merging several sources with a last-write-wins
//! policy, and chunking a partition so that one search automaton can be
//! compiled per chunk.

use vstd::prelude::*;

use crate::pred_is;
use crate::strutil::{
    chars_of, first_where, lemma_first_where, lemma_first_where_is, spec_trim, string_of,
    trim_chars,
};

verus! {

/// The views of a pair vector, elementwise.
pub open spec fn pair_views(s: Seq<(String, String)>) -> Seq<(Seq<char>, Seq<char>)> {
    s.map_values(|p: (String, String)| (p.0@, p.1@))
}

/// The views of a string vector, elementwise.
pub open spec fn source_views(s: Seq<String>) -> Seq<Seq<char>> {
    s.map_values(|x: String| x@)
}

/// What parsing one dictionary line yields: the trimmed text before
/// the first colon is the key, the trimmed text after it the value; a
/// line without a colon, or with an empty key, carries no entry.
pub open spec fn spec_parse_dict_line(line: Seq<char>) -> Option<(Seq<char>, Seq<char>)> {
    let i = first_where(line, pred_is(':'));
    if 0 <= i && i < line.len() {
        let k = spec_trim(line.subrange(0, i));
        let v = spec_trim(line.skip(i + 1));
        if k.len() > 0 {
            Option::Some((k, v))
        } else {
            Option::None
        }
    } else {
        Option::None
    }
}

/// The entries carried by a run of newline-separated dictionary lines,
/// in order.
pub open spec fn spec_dict_entries(text: Seq<char>) -> Seq<(Seq<char>, Seq<char>)>
    decreases text.len(),
{
    let i = first_where(text, pred_is('\n'));
    if 0 <= i && i < text.len() {
        let head = match spec_parse_dict_line(text.subrange(0, i)) {
            Option::Some(e) => seq![e],
            Option::None => Seq::empty(),
        };
        head + spec_dict_entries(text.skip(i + 1))
    } else {
        match spec_parse_dict_line(text) {
            Option::Some(e) => seq![e],
            Option::None => Seq::empty(),
        }
    }
}

/// The entries of several sources, in source order.
pub open spec fn entries_of_sources(sources: Seq<Seq<char>>) -> Seq<(Seq<char>, Seq<char>)>
    decreases sources.len(),
{
    if sources.len() == 0 {
        Seq::empty()
    } else {
        entries_of_sources(sources.drop_last()) + spec_dict_entries(sources.last())
    }
}

/// The mapping that a run of entries defines when a later entry for a
/// key supersedes an earlier one.
pub open spec fn pairs_map(es: Seq<(Seq<char>, Seq<char>)>) -> Map<Seq<char>, Seq<char>>
    decreases es.len(),
{
    if es.len() == 0 {
        Map::empty()
    } else {
        pairs_map(es.drop_last()).insert(es.last().0, es.last().1)
    }
}

/// Keys are pairwise distinct and non-empty.
pub open spec fn keys_wf(es: Seq<(Seq<char>, Seq<char>)>) -> bool {
    (forall|i: int, j: int| 0 <= i < j < es.len() ==> (#[trigger] es[i]).0 != (#[trigger] es[j]).0)
        && (forall|i: int| 0 <= i < es.len() ==> (#[trigger] es[i]).0.len() > 0)
}

proof fn lemma_pairs_map_push(es: Seq<(Seq<char>, Seq<char>)>, e: (Seq<char>, Seq<char>))
    ensures
        pairs_map(es.push(e)) == pairs_map(es).insert(e.0, e.1),
{
    assert(es.push(e).drop_last() =~= es);
    assert(es.push(e).last() == e);
}

proof fn lemma_pairs_map_update(ps: Seq<(Seq<char>, Seq<char>)>, idx: int, v: Seq<char>)
    requires
        keys_wf(ps),
        0 <= idx < ps.len(),
    ensures
        pairs_map(ps.update(idx, (ps[idx].0, v))) == pairs_map(ps).insert(ps[idx].0, v),
    decreases ps.len(),
{
    let k = ps[idx].0;
    let upd = ps.update(idx, (k, v));
    if idx == ps.len() - 1 {
        assert(upd.drop_last() =~= ps.drop_last());
        assert(upd.last() == (k, v));
        assert(pairs_map(upd) == pairs_map(ps.drop_last()).insert(k, v));
        assert(pairs_map(ps) == pairs_map(ps.drop_last()).insert(k, ps.last().1));
        assert(pairs_map(ps.drop_last()).insert(k, ps.last().1).insert(k, v) =~= pairs_map(
            ps.drop_last(),
        ).insert(k, v));
    } else {
        let t = ps.drop_last();
        assert(keys_wf(t)) by {
            assert(forall|i: int| 0 <= i < t.len() ==> t[i] == ps[i]);
        }
        lemma_pairs_map_update(t, idx, v);
        assert(upd.drop_last() =~= t.update(idx, (t[idx].0, v)));
        assert(upd.last() == ps.last());
        assert(t[idx].0 == k);
        assert(pairs_map(upd) == pairs_map(t).insert(k, v).insert(ps.last().0, ps.last().1));
        assert(k != ps.last().0);
        assert(pairs_map(t).insert(k, v).insert(ps.last().0, ps.last().1) =~= pairs_map(t).insert(
            ps.last().0,
            ps.last().1,
        ).insert(k, v));
    }
}

/// Parses dictionary text: one `"<word>: <pinyin>"` entry per line,
/// keys and values trimmed; lines without a colon, or with an empty
/// key, are skipped.
pub fn parse_dict_source(text: &str) -> (r: Vec<(String, String)>)
    ensures
        pair_views(r@) == spec_dict_entries(text@),
        forall|i: int| 0 <= i < r@.len() ==> (#[trigger] pair_views(r@)[i]).0.len() > 0,
{
    let n = text.unicode_len();
    let mut out: Vec<(String, String)> = Vec::new();
    let mut start: usize = 0;
    proof {
        assert(text@.skip(0) =~= text@);
        assert(pair_views(out@) =~= Seq::<(Seq<char>, Seq<char>)>::empty());
    }
    loop
        invariant
            n == text@.len(),
            start <= n,
            spec_dict_entries(text@) == pair_views(out@) + spec_dict_entries(
                text@.skip(start as int),
            ),
            forall|i: int| 0 <= i < out@.len() ==> (#[trigger] pair_views(out@)[i]).0.len() > 0,
        decreases n - start,
    {
        let ghost tail = text@.skip(start as int);
        let k = crate::find_char_from(text, start, n, '\n');
        proof {
            if k < n {
                assert(tail[k - start] == text@[k as int]);
                assert forall|j: int| 0 <= j < k - start implies !(pred_is('\n')(tail[j])) by {
                    assert(tail[j] == text@[start + j]);
                }
                lemma_first_where_is(tail, pred_is('\n'), k - start);
            } else {
                assert forall|j: int| 0 <= j < tail.len() implies !(pred_is('\n')(tail[j])) by {
                    assert(tail[j] == text@[start + j]);
                }
                lemma_first_where(tail, pred_is('\n'));
                if first_where(tail, pred_is('\n')) >= 0 {
                    assert(pred_is('\n')(tail[first_where(tail, pred_is('\n'))]));
                }
            }
        }
        let ghost line = if k < n {
            tail.subrange(0, k - start)
        } else {
            tail
        };
        // the line's own entry, if it carries one
        let c = crate::find_char_from(text, start, k, ':');
        if c < k {
            proof {
                assert(line[c - start] == text@[c as int]);
                assert forall|j: int| 0 <= j < c - start implies !(pred_is(':')(line[j])) by {
                    assert(line[j] == text@[start + j]);
                }
                lemma_first_where_is(line, pred_is(':'), c - start);
            }
            let key_part = text.substring_char(start, c);
            let val_part = text.substring_char(c + 1, k);
            proof {
                assert(key_part@ =~= line.subrange(0, c - start));
                assert(val_part@ =~= line.skip(c - start + 1));
            }
            let kv = chars_of(key_part);
            let kt = trim_chars(&kv);
            let vv = chars_of(val_part);
            let vt = trim_chars(&vv);
            if kt.len() > 0 {
                let ghost old_out = out@;
                let ks = string_of(&kt);
                let vs = string_of(&vt);
                out.push((ks, vs));
                proof {
                    let e = (kt@, vt@);
                    assert(spec_parse_dict_line(line) == Option::Some(e));
                    assert(pair_views(out@) =~= pair_views(old_out).push(e));
                }
            } else {
                proof {
                    assert(spec_parse_dict_line(line) is None);
                }
            }
        } else {
            proof {
                assert forall|j: int| 0 <= j < line.len() implies !(pred_is(':')(line[j])) by {
                    assert(line[j] == text@[start + j]);
                }
                lemma_first_where(line, pred_is(':'));
                if first_where(line, pred_is(':')) >= 0 {
                    assert(pred_is(':')(line[first_where(line, pred_is(':'))]));
                }
                assert(spec_parse_dict_line(line) is None);
            }
        }
        if k == n {
            proof {
                assert(pair_views(out@) + Seq::<(Seq<char>, Seq<char>)>::empty() =~= pair_views(
                    out@,
                ));
                match spec_parse_dict_line(line) {
                    Option::Some(e) => {
                        assert(spec_dict_entries(tail) =~= seq![e]);
                    },
                    Option::None => {
                        assert(spec_dict_entries(tail) =~= Seq::<(Seq<char>, Seq<char>)>::empty());
                    },
                }
            }
            return out;
        }
        proof {
            assert(tail.skip(k - start + 1) =~= text@.skip(k + 1));
            match spec_parse_dict_line(line) {
                Option::Some(e) => {
                    assert(spec_dict_entries(tail) == seq![e] + spec_dict_entries(
                        text@.skip(k + 1),
                    ));
                },
                Option::None => {
                    assert(spec_dict_entries(tail) =~= Seq::<(Seq<char>, Seq<char>)>::empty()
                        + spec_dict_entries(text@.skip(k + 1)));
                },
            }
            assert(spec_dict_entries(text@) =~= pair_views(out@) + spec_dict_entries(
                text@.skip(k + 1),
            ));
        }
        start = k + 1;
    }
}

/// Merges entries with a last-write-wins policy: the value of the
/// latest entry for a key supersedes every earlier one; keys keep the
/// position of their first occurrence.
pub fn dedup_last_wins(entries: Vec<(String, String)>) -> (r: Vec<(String, String)>)
    requires
        forall|i: int| 0 <= i < entries@.len() ==> (#[trigger] pair_views(entries@)[i]).0.len() > 0,
    ensures
        keys_wf(pair_views(r@)),
        pairs_map(pair_views(r@)) == pairs_map(pair_views(entries@)),
{
    let mut acc: Vec<(String, String)> = Vec::new();
    let mut i: usize = 0;
    proof {
        assert(pair_views(entries@).take(0) =~= Seq::<(Seq<char>, Seq<char>)>::empty());
        assert(pair_views(acc@) =~= Seq::<(Seq<char>, Seq<char>)>::empty());
    }
    while i < entries.len()
        invariant
            i <= entries@.len(),
            forall|t: int|
                0 <= t < entries@.len() ==> (#[trigger] pair_views(entries@)[t]).0.len() > 0,
            keys_wf(pair_views(acc@)),
            pairs_map(pair_views(acc@)) == pairs_map(pair_views(entries@).take(i as int)),
        decreases entries@.len() - i,
    {
        let key = entries[i].0.clone();
        let val = entries[i].1.clone();
        let ghost e = pair_views(entries@)[i as int];
        proof {
            assert(e == (key@, val@));
            assert(pair_views(entries@).take(i + 1) =~= pair_views(entries@).take(i as int).push(
                e,
            ));
            lemma_pairs_map_push(pair_views(entries@).take(i as int), e);
        }
        let mut found: bool = false;
        let mut idx: usize = 0;
        let mut j: usize = 0;
        while j < acc.len()
            invariant
                j <= acc@.len(),
                !found ==> forall|t: int| 0 <= t < j ==> (#[trigger] pair_views(acc@)[t]).0 != key@,
                found ==> idx < acc@.len() && pair_views(acc@)[idx as int].0 == key@,
                found ==> j == acc@.len(),
            decreases acc@.len() - j + (if found { 0int } else { 1int }),
        {
            if acc[j].0 == key {
                found = true;
                idx = j;
                j = acc.len();
            } else {
                j = j + 1;
            }
        }
        if found {
            let ghost old_acc = pair_views(acc@);
            let kept_key = acc[idx].0.clone();
            acc.set(idx, (kept_key, val));
            proof {
                assert(pair_views(acc@) =~= old_acc.update(idx as int, (old_acc[idx as int].0, val@)));
                lemma_pairs_map_update(old_acc, idx as int, val@);
                assert(old_acc[idx as int].0 == key@);
                assert(keys_wf(pair_views(acc@))) by {
                    let now = pair_views(acc@);
                    assert(forall|t: int| 0 <= t < now.len() ==> now[t].0 == old_acc[t].0);
                }
            }
        } else {
            let ghost old_acc = pair_views(acc@);
            acc.push((key, val));
            proof {
                assert(pair_views(acc@) =~= old_acc.push(e));
                lemma_pairs_map_push(old_acc, e);
                assert(keys_wf(pair_views(acc@))) by {
                    let now = pair_views(acc@);
                    assert(forall|t: int| 0 <= t < old_acc.len() ==> now[t] == old_acc[t]);
                    assert(now[old_acc.len() as int] == e);
                }
            }
        }
        i = i + 1;
    }
    proof {
        assert(pair_views(entries@).take(entries@.len() as int) =~= pair_views(entries@));
    }
    acc
}

/// The entries of a run of chunks, in chunk order.
pub open spec fn entries_of_chunks(chunks: Seq<Vec<(String, String)>>) -> Seq<
    (Seq<char>, Seq<char>),
>
    decreases chunks.len(),
{
    if chunks.len() == 0 {
        Seq::empty()
    } else {
        entries_of_chunks(chunks.drop_last()) + pair_views(chunks.last()@)
    }
}

pub(crate) fn copy_pairs_range(v: &Vec<(String, String)>, a: usize, b: usize) -> (r: Vec<(String, String)>)
    requires
        a <= b <= v@.len(),
    ensures
        r@ == v@.subrange(a as int, b as int),
{
    let mut r: Vec<(String, String)> = Vec::new();
    let mut i: usize = a;
    while i < b
        invariant
            a <= i <= b <= v@.len(),
            r@ == v@.subrange(a as int, i as int),
        decreases b - i,
    {
        let k = v[i].0.clone();
        let val = v[i].1.clone();
        r.push((k, val));
        assert((k, val) == v@[i as int]);
        assert(r@ =~= v@.subrange(a as int, i + 1 as int));
        i = i + 1;
    }
    r
}

/// The chunk size used for a partition of `n` entries: one tenth,
/// at least one.
pub open spec fn chunk_size(n: int) -> int {
    if n / 10 > 0 {
        n / 10
    } else {
        1
    }
}

/// The partition `ps` cut front to back into chunks of `sz` entries,
/// the last chunk holding the remainder.
pub open spec fn spec_chunks_of(ps: Seq<(Seq<char>, Seq<char>)>, sz: int) -> Seq<
    Seq<(Seq<char>, Seq<char>)>,
>
    decreases ps.len(),
{
    if ps.len() == 0 || sz < 1 {
        Seq::empty()
    } else if ps.len() <= sz {
        seq![ps]
    } else {
        seq![ps.take(sz)] + spec_chunks_of(ps.skip(sz), sz)
    }
}

/// The views of a chunk vector, elementwise.
pub open spec fn views_of_chunks(chunks: Seq<Vec<(String, String)>>) -> Seq<
    Seq<(Seq<char>, Seq<char>)>,
>
    decreases chunks.len(),
{
    if chunks.len() == 0 {
        Seq::empty()
    } else {
        views_of_chunks(chunks.drop_last()).push(pair_views(chunks.last()@))
    }
}

pub proof fn lemma_views_of_chunks_index(chunks: Seq<Vec<(String, String)>>, c: int)
    ensures
        views_of_chunks(chunks).len() == chunks.len(),
        0 <= c < chunks.len() ==> views_of_chunks(chunks)[c] == pair_views(chunks[c]@),
    decreases chunks.len(),
{
    if chunks.len() > 0 {
        lemma_views_of_chunks_index(chunks.drop_last(), c);
        if 0 <= c < chunks.len() - 1 {
            assert(chunks.drop_last()[c] == chunks[c]);
        }
    }
}

/// Splits a partition into chunks of roughly one tenth of its size,
/// in order; the chunks together carry exactly the partition.
fn chunk_pairs(pairs: &Vec<(String, String)>) -> (chunks: Vec<Vec<(String, String)>>)
    ensures
        entries_of_chunks(chunks@) == pair_views(pairs@),
        views_of_chunks(chunks@) == spec_chunks_of(
            pair_views(pairs@),
            chunk_size(pairs@.len() as int),
        ),
        forall|c: int|
            0 <= c < chunks@.len() ==> exists|a: int, b: int|
                0 <= a <= b <= pairs@.len() && #[trigger] chunks@[c]@ == pairs@.subrange(a, b),
    decreases pairs@.len(),
{
    let n = pairs.len();
    let sz: usize = if n / 10 > 0 {
        n / 10
    } else {
        1
    };
    let ghost full = pair_views(pairs@);
    let mut chunks: Vec<Vec<(String, String)>> = Vec::new();
    let mut pos: usize = 0;
    proof {
        assert(sz as int == chunk_size(pairs@.len() as int));
        assert(full.take(0) =~= Seq::<(Seq<char>, Seq<char>)>::empty());
        assert(full.skip(0) =~= full);
        assert(views_of_chunks(chunks@) =~= Seq::<Seq<(Seq<char>, Seq<char>)>>::empty());
        assert(spec_chunks_of(full, sz as int) =~= views_of_chunks(chunks@) + spec_chunks_of(
            full.skip(0),
            sz as int,
        ));
    }
    while pos < n
        invariant
            n == pairs@.len(),
            full == pair_views(pairs@),
            sz >= 1,
            pos <= n,
            entries_of_chunks(chunks@) == full.take(pos as int),
            spec_chunks_of(full, sz as int) == views_of_chunks(chunks@) + spec_chunks_of(
                full.skip(pos as int),
                sz as int,
            ),
            forall|c: int|
                0 <= c < chunks@.len() ==> exists|a: int, b: int|
                    0 <= a <= b <= pairs@.len() && #[trigger] chunks@[c]@ == pairs@.subrange(a, b),
        decreases n - pos,
    {
        let stop = if n - pos < sz {
            n
        } else {
            pos + sz
        };
        let chunk = copy_pairs_range(pairs, pos, stop);
        let ghost old_chunks = chunks@;
        let ghost rem = full.skip(pos as int);
        chunks.push(chunk);
        proof {
            assert(chunks@.drop_last() =~= old_chunks);
            assert(pair_views(pairs@.subrange(pos as int, stop as int)) =~= full.subrange(
                pos as int,
                stop as int,
            ));
            assert(full.take(pos as int) + full.subrange(pos as int, stop as int) =~= full.take(
                stop as int,
            ));
            // one step of the chunking plan
            let cv = full.subrange(pos as int, stop as int);
            assert(views_of_chunks(chunks@) =~= views_of_chunks(old_chunks).push(cv));
            if n - pos <= sz {
                assert(rem =~= cv);
                assert(spec_chunks_of(rem, sz as int) =~= seq![cv]);
                assert(full.skip(stop as int) =~= Seq::<(Seq<char>, Seq<char>)>::empty());
                assert(spec_chunks_of(full.skip(stop as int), sz as int) =~= Seq::<
                    Seq<(Seq<char>, Seq<char>)>,
                >::empty());
            } else {
                assert(rem.take(sz as int) =~= cv);
                assert(rem.skip(sz as int) =~= full.skip(stop as int));
                assert(spec_chunks_of(rem, sz as int) == seq![cv] + spec_chunks_of(
                    full.skip(stop as int),
                    sz as int,
                ));
            }
            assert(views_of_chunks(old_chunks) + spec_chunks_of(rem, sz as int)
                =~= views_of_chunks(chunks@) + spec_chunks_of(full.skip(stop as int), sz as int));
            assert forall|c: int| 0 <= c < chunks@.len() implies exists|a: int, b: int|
                0 <= a <= b <= pairs@.len() && #[trigger] chunks@[c]@ == pairs@.subrange(a, b) by {
                if c < old_chunks.len() {
                    assert(chunks@[c] == old_chunks[c]);
                } else {
                    assert(chunks@[c]@ == pairs@.subrange(pos as int, stop as int));
                }
            }
        }
        pos = stop;
    }
    proof {
        assert(full.take(n as int) =~= full);
        assert(full.skip(n as int) =~= Seq::<(Seq<char>, Seq<char>)>::empty());
        assert(spec_chunks_of(full.skip(n as int), sz as int) =~= Seq::<
            Seq<(Seq<char>, Seq<char>)>,
        >::empty());
        assert(views_of_chunks(chunks@) + spec_chunks_of(full.skip(n as int), sz as int)
            =~= views_of_chunks(chunks@));
    }
    chunks
}

/// A dictionary partition able to hand out its entries in compilable
/// chunks. The partition's entries have pairwise distinct, non-empty
/// keys.
pub trait Loader {
    /// The partition's entries, keys and values as character
    /// sequences.
    spec fn entries(&self) -> Seq<(Seq<char>, Seq<char>)>;

    /// The chunking the partition hands out, each chunk as its entry
    /// run.
    spec fn chunks_plan(&self) -> Seq<Seq<(Seq<char>, Seq<char>)>>;

    /// The partition is well-formed.
    spec fn wf(&self) -> bool;

    /// Hands out the partition as chunks: exactly the chunking plan;
    /// together the chunks carry the partition's entries, in order,
    /// and each chunk's keys are pairwise distinct and non-empty.
    fn load(&self) -> (chunks: Vec<Vec<(String, String)>>)
        requires
            self.wf(),
        ensures
            views_of_chunks(chunks@) == self.chunks_plan(),
            entries_of_chunks(chunks@) == self.entries(),
            forall|c: int| 0 <= c < chunks@.len() ==> keys_wf(pair_views(#[trigger] chunks@[c]@)),
    ;
}

/// Chunks whose entries are subranges of a `keys_wf` run are
/// themselves `keys_wf`.
proof fn lemma_subrange_keys_wf(es: Seq<(Seq<char>, Seq<char>)>, a: int, b: int)
    requires
        keys_wf(es),
        0 <= a <= b <= es.len(),
    ensures
        keys_wf(es.subrange(a, b)),
{
    let sub = es.subrange(a, b);
    assert(forall|i: int| 0 <= i < sub.len() ==> sub[i] == es[a + i]);
}

fn load_chunks_of(pairs: &Vec<(String, String)>) -> (chunks: Vec<Vec<(String, String)>>)
    requires
        keys_wf(pair_views(pairs@)),
    ensures
        entries_of_chunks(chunks@) == pair_views(pairs@),
        views_of_chunks(chunks@) == spec_chunks_of(
            pair_views(pairs@),
            chunk_size(pairs@.len() as int),
        ),
        forall|c: int| 0 <= c < chunks@.len() ==> keys_wf(pair_views(#[trigger] chunks@[c]@)),
{
    let chunks = chunk_pairs(pairs);
    proof {
        assert forall|c: int| 0 <= c < chunks@.len() implies keys_wf(
            pair_views(#[trigger] chunks@[c]@),
        ) by {
            let (a, b) = choose|a: int, b: int|
                0 <= a <= b <= pairs@.len() && #[trigger] chunks@[c]@ == pairs@.subrange(a, b);
            assert(pair_views(chunks@[c]@) =~= pair_views(pairs@).subrange(a, b));
            lemma_subrange_keys_wf(pair_views(pairs@), a, b);
        }
    }
    chunks
}

fn build_partition(sources: &Vec<String>) -> (pairs: Vec<(String, String)>)
    ensures
        keys_wf(pair_views(pairs@)),
        pairs_map(pair_views(pairs@)) == pairs_map(entries_of_sources(source_views(sources@))),
{
    let mut all: Vec<(String, String)> = Vec::new();
    let mut i: usize = 0;
    proof {
        assert(source_views(sources@).take(0) =~= Seq::<Seq<char>>::empty());
        assert(pair_views(all@) =~= entries_of_sources(source_views(sources@).take(0)));
    }
    while i < sources.len()
        invariant
            i <= sources@.len(),
            pair_views(all@) == entries_of_sources(source_views(sources@).take(i as int)),
            forall|t: int| 0 <= t < all@.len() ==> (#[trigger] pair_views(all@)[t]).0.len() > 0,
        decreases sources@.len() - i,
    {
        let parsed = parse_dict_source(sources[i].as_str());
        let ghost old_all = pair_views(all@);
        let mut j: usize = 0;
        while j < parsed.len()
            invariant
                j <= parsed@.len(),
                pair_views(all@) == old_all + pair_views(parsed@).take(j as int),
                pair_views(parsed@) == spec_dict_entries(source_views(sources@)[i as int]),
                forall|t: int|
                    0 <= t < parsed@.len() ==> (#[trigger] pair_views(parsed@)[t]).0.len() > 0,
                forall|t: int| 0 <= t < old_all.len() ==> old_all[t].0.len() > 0,
            decreases parsed@.len() - j,
        {
            let k = parsed[j].0.clone();
            let v = parsed[j].1.clone();
            let ghost before = pair_views(all@);
            all.push((k, v));
            proof {
                assert((k@, v@) == pair_views(parsed@)[j as int]);
                assert(pair_views(all@) =~= before.push(pair_views(parsed@)[j as int]));
                assert(old_all + pair_views(parsed@).take(j + 1) =~= before.push(
                    pair_views(parsed@)[j as int],
                ));
            }
            j = j + 1;
        }
        proof {
            assert(pair_views(parsed@).take(parsed@.len() as int) =~= pair_views(parsed@));
            assert(source_views(sources@).take(i + 1).drop_last() =~= source_views(
                sources@,
            ).take(i as int));
            assert(source_views(sources@).take(i + 1).last() == source_views(sources@)[i as int]);
            assert(entries_of_sources(source_views(sources@).take(i + 1)) == entries_of_sources(
                source_views(sources@).take(i as int),
            ) + spec_dict_entries(source_views(sources@)[i as int]));
        }
        i = i + 1;
    }
    proof {
        assert(source_views(sources@).take(sources@.len() as int) =~= source_views(sources@));
    }
    dedup_last_wins(all)
}

/// The multi-character word dictionary: the highest-priority source
/// of the segmenter.
#[derive(Debug)]
pub struct WordsLoader {
    words: Vec<(String, String)>,
}

impl WordsLoader {
    /// Builds the partition from dictionary text sources, applied in
    /// order: a later entry for a key supersedes an earlier one.
    pub fn new(sources: &Vec<String>) -> (r: WordsLoader)
        ensures
            r.wf(),
            pairs_map(r.entries()) == pairs_map(entries_of_sources(source_views(sources@))),
    {
        WordsLoader { words: build_partition(sources) }
    }
}

impl Loader for WordsLoader {
    closed spec fn entries(&self) -> Seq<(Seq<char>, Seq<char>)> {
        pair_views(self.words@)
    }

    closed spec fn chunks_plan(&self) -> Seq<Seq<(Seq<char>, Seq<char>)>> {
        spec_chunks_of(pair_views(self.words@), chunk_size(self.words@.len() as int))
    }

    closed spec fn wf(&self) -> bool {
        keys_wf(pair_views(self.words@))
    }

    fn load(&self) -> (chunks: Vec<Vec<(String, String)>>) {
        load_chunks_of(&self.words)
    }
}

/// The single-character dictionary: the fallback that covers
/// individual Han characters, polyphonic readings included.
#[derive(Debug)]
pub struct CharsLoader {
    chars: Vec<(String, String)>,
}

impl CharsLoader {
    /// Builds the partition from dictionary text sources, applied in
    /// order: a later entry for a key supersedes an earlier one.
    pub fn new(sources: &Vec<String>) -> (r: CharsLoader)
        ensures
            r.wf(),
            pairs_map(r.entries()) == pairs_map(entries_of_sources(source_views(sources@))),
    {
        CharsLoader { chars: build_partition(sources) }
    }
}

impl Loader for CharsLoader {
    closed spec fn entries(&self) -> Seq<(Seq<char>, Seq<char>)> {
        pair_views(self.chars@)
    }

    closed spec fn chunks_plan(&self) -> Seq<Seq<(Seq<char>, Seq<char>)>> {
        spec_chunks_of(pair_views(self.chars@), chunk_size(self.chars@.len() as int))
    }

    closed spec fn wf(&self) -> bool {
        keys_wf(pair_views(self.chars@))
    }

    fn load(&self) -> (chunks: Vec<Vec<(String, String)>>) {
        load_chunks_of(&self.chars)
    }
}

/// The surname dictionary: one- and two-character family names with
/// their surname-specific readings.
#[derive(Debug)]
pub struct SurnamesLoader {
    surnames: Vec<(String, String)>,
}

impl SurnamesLoader {
    /// Builds the partition from one dictionary text source.
    pub fn new(source: &str) -> (r: SurnamesLoader)
        ensures
            r.wf(),
            pairs_map(r.entries()) == pairs_map(spec_dict_entries(source@)),
    {
        let parsed = parse_dict_source(source);
        let deduped = dedup_last_wins(parsed);
        SurnamesLoader { surnames: deduped }
    }
}

impl Loader for SurnamesLoader {
    closed spec fn entries(&self) -> Seq<(Seq<char>, Seq<char>)> {
        pair_views(self.surnames@)
    }

    closed spec fn chunks_plan(&self) -> Seq<Seq<(Seq<char>, Seq<char>)>> {
        seq![pair_views(self.surnames@)]
    }

    closed spec fn wf(&self) -> bool {
        keys_wf(pair_views(self.surnames@))
    }

    fn load(&self) -> (chunks: Vec<Vec<(String, String)>>) {
        // the surname dictionary is small: one chunk carries it whole
        let chunk = copy_pairs_range(&self.surnames, 0, self.surnames.len());
        let mut chunks: Vec<Vec<(String, String)>> = Vec::new();
        proof {
            assert(self.surnames@.subrange(0, self.surnames@.len() as int) =~= self.surnames@);
        }
        let ghost whole = chunk@;
        chunks.push(chunk);
        proof {
            let cs = chunks@;
            assert(cs.len() == 1);
            assert(cs.last()@ == whole);
            assert(whole == self.surnames@);
            assert(cs.drop_last() =~= Seq::<Vec<(String, String)>>::empty());
            assert(entries_of_chunks(cs.drop_last()) == Seq::<(Seq<char>, Seq<char>)>::empty());
            assert(entries_of_chunks(cs) == entries_of_chunks(cs.drop_last()) + pair_views(
                cs.last()@,
            ));
            assert(entries_of_chunks(cs) =~= pair_views(self.surnames@));
            assert(views_of_chunks(cs.drop_last()) =~= Seq::<Seq<(Seq<char>, Seq<char>)>>::empty());
            assert(views_of_chunks(cs) =~= seq![pair_views(self.surnames@)]);
        }
        chunks
    }
}

} // verus!
