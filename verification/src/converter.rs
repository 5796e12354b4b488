//! The segmenter/converter: a conversion request walks the input left
//! to right, resolves the candidate dictionary hits into one
//! non-overlapping greedy longest-match segmentation, applies the
//! surname policy and the configuration toggles, and renders the
//! resolved syllables.

use vstd::prelude::*;

use crate::error::PingyinError;
use crate::loader::{pair_views, CharsLoader, Loader, SurnamesLoader, WordsLoader};
use crate::matcher::Matcher;
use crate::strutil::{
    chars_of, contains_seq, is_subseq, lemma_subseq_cons_right, lemma_subseq_prepend, matches_at,
    occurs_at, string_of, vec1,
};
use crate::{
    clone_pinyins, parse_syllables, spec_flatten_entry, spec_parse_syllables, views_of_pinyins,
    views_of_words, wf_pinyins, Pinyin, PinyinWord, ToneStyle, YuFormat,
};

verus! {

/// The dictionary handle of a conversion: the three compiled
/// matchers, built once and shared read-only by every call.
pub struct MatchContext {
    pub words: Matcher,
    pub chars: Matcher,
    pub surnames: Matcher,
}

impl MatchContext {
    pub open spec fn wf(&self) -> bool {
        self.words.wf() && self.chars.wf() && self.surnames.wf()
    }

    /// The entries consulted by ordinary word matching: the word
    /// dictionary first, the single-character dictionary after it.
    pub open spec fn word_entries(&self) -> Seq<(Seq<char>, Seq<char>)> {
        self.words.entries() + self.chars.entries()
    }

    /// Every entry the context knows, surname entries included.
    pub open spec fn all_entries(&self) -> Seq<(Seq<char>, Seq<char>)> {
        self.words.entries() + self.chars.entries() + self.surnames.entries()
    }

    /// Compiles the three partitions into matchers: this succeeds if
    /// and only if every chunk of every partition's chunking plan is
    /// constructible.
    pub fn new(words: &WordsLoader, chars: &CharsLoader, surnames: &SurnamesLoader) -> (r: Result<
        MatchContext,
        PingyinError,
    >)
        requires
            words.wf(),
            chars.wf(),
            surnames.wf(),
        ensures
            r is Ok <==> crate::matcher::plan_constructible(words.chunks_plan())
                && crate::matcher::plan_constructible(chars.chunks_plan())
                && crate::matcher::plan_constructible(surnames.chunks_plan()),
            r is Ok ==> r->Ok_0.wf() && r->Ok_0.words.entries() == words.entries()
                && r->Ok_0.chars.entries() == chars.entries() && r->Ok_0.surnames.entries()
                == surnames.entries(),
            r is Err ==> r->Err_0 == PingyinError::BuildError,
    {
        let wm = match Matcher::new(words) {
            Result::Ok(m) => m,
            Result::Err(e) => {
                return Result::Err(e);
            },
        };
        let cm = match Matcher::new(chars) {
            Result::Ok(m) => m,
            Result::Err(e) => {
                return Result::Err(e);
            },
        };
        let sm = match Matcher::new(surnames) {
            Result::Ok(m) => m,
            Result::Err(e) => {
                return Result::Err(e);
            },
        };
        Result::Ok(MatchContext { words: wm, chars: cm, surnames: sm })
    }
}

proof fn lemma_concat_contains(
    a: Seq<(Seq<char>, Seq<char>)>,
    b: Seq<(Seq<char>, Seq<char>)>,
    e: (Seq<char>, Seq<char>),
)
    requires
        a.contains(e) || b.contains(e),
    ensures
        (a + b).contains(e),
{
    if a.contains(e) {
        let j = choose|j: int| 0 <= j < a.len() && a[j] == e;
        assert((a + b)[j] == e);
    } else {
        let j = choose|j: int| 0 <= j < b.len() && b[j] == e;
        assert((a + b)[a.len() + j] == e);
    }
}

proof fn lemma_contains_in_range(s: Seq<char>, a: int, b: int, p: Seq<char>)
    requires
        0 <= a <= b <= s.len(),
        contains_seq(s.subrange(a, b), p),
    ensures
        contains_seq(s, p),
{
    let sub = s.subrange(a, b);
    let i = choose|i: int| occurs_at(sub, p, i);
    assert(s.subrange(a + i, a + i + p.len()) =~= sub.subrange(i, i + p.len()));
    assert(occurs_at(s, p, a + i));
}

/// The combined match result of the ordinary word path on a text:
/// the word-dictionary hits first, then the single-character hits,
/// each group in descending key order.
pub open spec fn word_match_result(ctx: MatchContext, text: Seq<char>) -> Seq<
    (Seq<char>, Seq<char>),
> {
    crate::matcher::sorted_desc_of(ctx.words.found(text)) + crate::matcher::sorted_desc_of(
        ctx.chars.found(text),
    )
}

/// Finds word- and single-character-dictionary entries occurring in
/// `word`: word-dictionary hits first, then single-character hits,
/// each group ordered by descending key text.
pub fn match_word_pinyin(ctx: &MatchContext, word: &str) -> (r: Vec<(String, String)>)
    requires
        ctx.wf(),
    ensures
        pair_views(r@) == word_match_result(*ctx, word@),
        forall|t: int|
            0 <= t < r@.len() ==> ctx.word_entries().contains(#[trigger] pair_views(r@)[t])
                && contains_seq(word@, pair_views(r@)[t].0),
{
    let mut r = ctx.words.match_to_pinyin(word, true);
    let more = ctx.chars.match_to_pinyin(word, true);
    let ghost wpart = pair_views(r@);
    let mut i: usize = 0;
    proof {
        assert forall|t: int| 0 <= t < r@.len() implies ctx.word_entries().contains(
            #[trigger] pair_views(r@)[t],
        ) && contains_seq(word@, pair_views(r@)[t].0) by {
            lemma_concat_contains(ctx.words.entries(), ctx.chars.entries(), pair_views(r@)[t]);
        }
        assert(pair_views(r@) =~= wpart + pair_views(more@).take(0));
    }
    while i < more.len()
        invariant
            ctx.wf(),
            i <= more@.len(),
            wpart == crate::matcher::sorted_desc_of(ctx.words.found(word@)),
            pair_views(more@) == crate::matcher::sorted_desc_of(ctx.chars.found(word@)),
            forall|t: int|
                0 <= t < more@.len() ==> ctx.chars.entries().contains(
                    #[trigger] pair_views(more@)[t],
                ) && contains_seq(word@, pair_views(more@)[t].0),
            pair_views(r@) == wpart + pair_views(more@).take(i as int),
            forall|t: int|
                0 <= t < r@.len() ==> ctx.word_entries().contains(#[trigger] pair_views(r@)[t])
                    && contains_seq(word@, pair_views(r@)[t].0),
        decreases more@.len() - i,
    {
        let k = more[i].0.clone();
        let v = more[i].1.clone();
        let ghost old_r = r@;
        r.push((k, v));
        proof {
            assert(pair_views(r@) =~= pair_views(old_r).push((k@, v@)));
            assert((k@, v@) == pair_views(more@)[i as int]);
            lemma_concat_contains(ctx.words.entries(), ctx.chars.entries(), (k@, v@));
            assert(pair_views(r@) =~= wpart + pair_views(more@).take(i + 1));
        }
        i = i + 1;
    }
    proof {
        assert(pair_views(more@).take(more@.len() as int) =~= pair_views(more@));
    }
    r
}

/// Finds the single-character-dictionary entries matching one
/// character.
pub fn match_char_pinyin(chars: &Matcher, ch: char) -> (r: Vec<(String, String)>)
    requires
        chars.wf(),
    ensures
        pair_views(r@) == crate::matcher::sorted_desc_of(chars.found(seq![ch])),
        forall|t: int|
            0 <= t < r@.len() ==> chars.entries().contains(#[trigger] pair_views(r@)[t])
                && contains_seq(seq![ch], pair_views(r@)[t].0),
{
    let v = vec1(ch);
    let s = string_of(&v);
    chars.match_to_pinyin(s.as_str(), true)
}

/// The two-phase surname match result on a name: the surname hits on
/// the first one or two characters, then — when a surname was found
/// and text remains past its first hit — the ordinary word-path
/// result of the remainder; with no surname hit, the word-path
/// result of the whole name.
pub open spec fn surname_match_result(ctx: MatchContext, name: Seq<char>) -> Seq<
    (Seq<char>, Seq<char>),
> {
    let plen: int = if name.len() < 2 {
        name.len() as int
    } else {
        2
    };
    let sres = crate::matcher::sorted_desc_of(ctx.surnames.found(name.take(plen)));
    if sres.len() == 0 {
        word_match_result(ctx, name)
    } else {
        let consumed: int = if sres[0].0.len() > name.len() {
            name.len() as int
        } else {
            sres[0].0.len() as int
        };
        if consumed < name.len() {
            sres + word_match_result(ctx, name.skip(consumed))
        } else {
            sres
        }
    }
}

/// Two-phase surname matching: the surname dictionary is consulted on
/// the first one or two characters of `name`; the rest of the input
/// is matched by the ordinary word path. When no surname matches, the
/// whole input takes the ordinary path.
pub fn match_surname_pinyin(ctx: &MatchContext, name: &str) -> (r: Vec<(String, String)>)
    requires
        ctx.wf(),
    ensures
        pair_views(r@) == surname_match_result(*ctx, name@),
        forall|t: int|
            0 <= t < r@.len() ==> ctx.all_entries().contains(#[trigger] pair_views(r@)[t])
                && contains_seq(name@, pair_views(r@)[t].0),
{
    let n = name.unicode_len();
    let plen: usize = if n < 2 {
        n
    } else {
        2
    };
    let prefix = name.substring_char(0, plen);
    proof {
        assert(prefix@ =~= name@.take(plen as int));
    }
    let mut results = ctx.surnames.match_to_pinyin(prefix, true);
    let ghost sres = pair_views(results@);
    proof {
        assert forall|t: int| 0 <= t < results@.len() implies ctx.all_entries().contains(
            #[trigger] pair_views(results@)[t],
        ) && contains_seq(name@, pair_views(results@)[t].0) by {
            lemma_concat_contains(
                ctx.words.entries() + ctx.chars.entries(),
                ctx.surnames.entries(),
                pair_views(results@)[t],
            );
            assert(prefix@ == name@.subrange(0, plen as int));
            lemma_contains_in_range(name@, 0, plen as int, pair_views(results@)[t].0);
        }
    }
    if results.len() == 0 {
        let r = match_word_pinyin(ctx, name);
        proof {
            assert forall|t: int| 0 <= t < r@.len() implies ctx.all_entries().contains(
                #[trigger] pair_views(r@)[t],
            ) && contains_seq(name@, pair_views(r@)[t].0) by {
                lemma_concat_contains(
                    ctx.words.entries() + ctx.chars.entries(),
                    ctx.surnames.entries(),
                    pair_views(r@)[t],
                );
            }
        }
        return r;
    }
    let consumed = results[0].0.as_str().unicode_len();
    proof {
        assert(consumed == sres[0].0.len());
    }
    let rest_start: usize = if consumed > n {
        n
    } else {
        consumed
    };
    if rest_start < n {
        let rest = name.substring_char(rest_start, n);
        proof {
            assert(rest@ =~= name@.skip(rest_start as int));
        }
        let more = match_word_pinyin(ctx, rest);
        let mut i: usize = 0;
        proof {
            assert(pair_views(results@) =~= sres + pair_views(more@).take(0));
        }
        while i < more.len()
            invariant
                ctx.wf(),
                i <= more@.len(),
                rest_start <= n == name@.len(),
                rest@ == name@.skip(rest_start as int),
                pair_views(more@) == word_match_result(*ctx, rest@),
                pair_views(results@) == sres + pair_views(more@).take(i as int),
                forall|t: int|
                    0 <= t < more@.len() ==> ctx.word_entries().contains(
                        #[trigger] pair_views(more@)[t],
                    ) && contains_seq(rest@, pair_views(more@)[t].0),
                forall|t: int|
                    0 <= t < results@.len() ==> ctx.all_entries().contains(
                        #[trigger] pair_views(results@)[t],
                    ) && contains_seq(name@, pair_views(results@)[t].0),
            decreases more@.len() - i,
        {
            let k = more[i].0.clone();
            let v = more[i].1.clone();
            let ghost old_r = results@;
            results.push((k, v));
            proof {
                assert(pair_views(results@) =~= pair_views(old_r).push((k@, v@)));
                assert((k@, v@) == pair_views(more@)[i as int]);
                lemma_concat_contains(
                    ctx.words.entries() + ctx.chars.entries(),
                    ctx.surnames.entries(),
                    (k@, v@),
                );
                lemma_contains_in_range(name@, rest_start as int, n as int, k@);
                assert(name@.subrange(rest_start as int, n as int) =~= rest@);
                assert(pair_views(results@) =~= sres + pair_views(more@).take(i + 1));
            }
            i = i + 1;
        }
        proof {
            assert(pair_views(more@).take(more@.len() as int) =~= pair_views(more@));
        }
        results
    } else {
        results
    }
}

/// A candidate matches the input at position `i`: its word is
/// non-empty and stands there character for character, and its
/// annotation parses.
pub open spec fn cand_eligible(chars: Seq<char>, i: int, cand: (Seq<char>, Seq<char>)) -> bool {
    &&& cand.0.len() > 0
    &&& i + cand.0.len() <= chars.len()
    &&& chars.subrange(i, i + cand.0.len()) == cand.0
    &&& spec_parse_syllables(cand.1) is Some
}

/// Index of the first candidate eligible at position `i`, or -1.
pub open spec fn first_eligible(
    cands: Seq<(Seq<char>, Seq<char>)>,
    chars: Seq<char>,
    i: int,
) -> int
    decreases cands.len(),
{
    if cands.len() == 0 {
        -1
    } else if cand_eligible(chars, i, cands[0]) {
        0
    } else {
        let r = first_eligible(cands.drop_first(), chars, i);
        if r < 0 {
            -1
        } else {
            r + 1
        }
    }
}

proof fn lemma_first_eligible(cands: Seq<(Seq<char>, Seq<char>)>, chars: Seq<char>, i: int)
    ensures
        first_eligible(cands, chars, i) == -1 || 0 <= first_eligible(cands, chars, i)
            < cands.len(),
        first_eligible(cands, chars, i) == -1 ==> forall|t: int|
            0 <= t < cands.len() ==> !cand_eligible(chars, i, #[trigger] cands[t]),
        first_eligible(cands, chars, i) >= 0 ==> cand_eligible(
            chars,
            i,
            cands[first_eligible(cands, chars, i)],
        ),
        first_eligible(cands, chars, i) >= 0 ==> forall|t: int|
            0 <= t < first_eligible(cands, chars, i) ==> !cand_eligible(
                chars,
                i,
                #[trigger] cands[t],
            ),
    decreases cands.len(),
{
    if cands.len() > 0 && !cand_eligible(chars, i, cands[0]) {
        let tl = cands.drop_first();
        lemma_first_eligible(tl, chars, i);
        let r = first_eligible(tl, chars, i);
        assert(forall|t: int| 0 <= t < tl.len() ==> tl[t] == cands[t + 1]);
        if r == -1 {
            assert forall|t: int| 0 <= t < cands.len() implies !cand_eligible(
                chars,
                i,
                #[trigger] cands[t],
            ) by {
                if t >= 1 {
                    assert(cands[t] == tl[t - 1]);
                }
            }
        } else {
            assert forall|t: int| 0 <= t < r + 1 implies !cand_eligible(
                chars,
                i,
                #[trigger] cands[t],
            ) by {
                if t >= 1 {
                    assert(cands[t] == tl[t - 1]);
                }
            }
        }
    }
}

proof fn lemma_first_eligible_is(
    cands: Seq<(Seq<char>, Seq<char>)>,
    chars: Seq<char>,
    i: int,
    k: int,
)
    requires
        0 <= k < cands.len(),
        cand_eligible(chars, i, cands[k]),
        forall|t: int| 0 <= t < k ==> !cand_eligible(chars, i, #[trigger] cands[t]),
    ensures
        first_eligible(cands, chars, i) == k,
{
    lemma_first_eligible(cands, chars, i);
}

proof fn lemma_first_eligible_none(cands: Seq<(Seq<char>, Seq<char>)>, chars: Seq<char>, i: int)
    requires
        forall|t: int| 0 <= t < cands.len() ==> !cand_eligible(chars, i, #[trigger] cands[t]),
    ensures
        first_eligible(cands, chars, i) == -1,
{
    lemma_first_eligible(cands, chars, i);
}

/// What the greedy longest-match walk emits from position `i` on: at
/// each position the first eligible candidate — the candidate list is
/// ordered by descending key, so the first is a longest match — is
/// emitted and consumed; at a position with no eligible candidate a
/// one-character tone-5 entry is emitted, or with `only_hans` the
/// character is dropped.
pub open spec fn spec_segment(
    chars: Seq<char>,
    cands: Seq<(Seq<char>, Seq<char>)>,
    i: int,
    flatten: bool,
    only_hans: bool,
) -> Seq<(Seq<char>, Seq<(Seq<char>, u8)>)>
    decreases chars.len() - i,
{
    if i < 0 || i >= chars.len() {
        Seq::empty()
    } else {
        let k = first_eligible(cands, chars, i);
        if k >= 0 {
            let w = cands[k].0;
            let ps = spec_parse_syllables(cands[k].1)->0;
            let entry = if flatten {
                spec_flatten_entry((w, ps))
            } else {
                (w, ps)
            };
            let step = if w.len() > 0 && i + w.len() <= chars.len() {
                w.len() as int
            } else {
                1
            };
            seq![entry] + spec_segment(chars, cands, i + step, flatten, only_hans)
        } else {
            let entry = (seq![chars[i]], seq![(seq![chars[i]], 5u8)]);
            (if only_hans {
                Seq::empty()
            } else {
                seq![entry]
            }) + spec_segment(chars, cands, i + 1, flatten, only_hans)
        }
    }
}

/// A prepared candidate: its word as characters, and its annotation
/// parsed once.
struct Cand {
    word: String,
    wchars: Vec<char>,
    parsed: Option<Vec<Pinyin>>,
}

spec fn cand_prepared(c: Cand, cv: (Seq<char>, Seq<char>)) -> bool {
    &&& c.word@ == cv.0
    &&& c.wchars@ == cv.0
    &&& (c.parsed is Some <==> spec_parse_syllables(cv.1) is Some)
    &&& (c.parsed is Some ==> views_of_pinyins(c.parsed->0@) == spec_parse_syllables(cv.1)->0)
    &&& (c.parsed is Some ==> forall|j: int|
        0 <= j < c.parsed->0@.len() ==> (#[trigger] c.parsed->0@[j]).wf())
}

fn prepare_cands(candidates: &Vec<(String, String)>) -> (r: Vec<Cand>)
    ensures
        r@.len() == candidates@.len(),
        forall|t: int|
            0 <= t < r@.len() ==> cand_prepared(#[trigger] r@[t], pair_views(candidates@)[t]),
{
    let mut r: Vec<Cand> = Vec::new();
    let mut t: usize = 0;
    while t < candidates.len()
        invariant
            t <= candidates@.len(),
            r@.len() == t,
            forall|q: int|
                0 <= q < r@.len() ==> cand_prepared(#[trigger] r@[q], pair_views(candidates@)[q]),
        decreases candidates@.len() - t,
    {
        let word = candidates[t].0.clone();
        let wchars = chars_of(word.as_str());
        let parsed = match parse_syllables(candidates[t].1.as_str()) {
            Result::Ok(ps) => Option::Some(ps),
            Result::Err(_) => Option::None,
        };
        r.push(Cand { word, wchars, parsed });
        t = t + 1;
    }
    r
}

/// Greedy longest-match segmentation of `input` against an ordered
/// candidate list: at each position the first candidate standing
/// there is emitted; positions no candidate covers yield a
/// one-character tone-5 entry, or nothing with `only_hans`; with
/// `flatten` every entry keeps at most one value per character.
pub fn segment(input: &str, candidates: &Vec<(String, String)>, flatten: bool, only_hans: bool) -> (r:
    Vec<PinyinWord>)
    ensures
        views_of_words(r@) == spec_segment(input@, pair_views(candidates@), 0, flatten, only_hans),
{
    let ghost cviews = pair_views(candidates@);
    let chars_vec = chars_of(input);
    let n = chars_vec.len();
    let prep = prepare_cands(candidates);
    let mut out: Vec<PinyinWord> = Vec::new();
    let mut i: usize = 0;
    proof {
        assert(views_of_words(out@) =~= Seq::<(Seq<char>, Seq<(Seq<char>, u8)>)>::empty());
        assert(views_of_words(out@) + spec_segment(input@, cviews, 0, flatten, only_hans)
            =~= spec_segment(input@, cviews, 0, flatten, only_hans));
    }
    while i < n
        invariant
            n == input@.len(),
            chars_vec@ == input@,
            i <= n,
            cviews == pair_views(candidates@),
            prep@.len() == cviews.len(),
            forall|t: int| 0 <= t < prep@.len() ==> cand_prepared(#[trigger] prep@[t], cviews[t]),
            spec_segment(input@, cviews, 0, flatten, only_hans) == views_of_words(out@)
                + spec_segment(input@, cviews, i as int, flatten, only_hans),
        decreases n - i,
    {
        let mut k: usize = 0;
        let mut found: bool = false;
        while k < prep.len() && !found
            invariant
                n == input@.len(),
                chars_vec@ == input@,
                i < n,
                prep@.len() == cviews.len(),
                forall|t: int|
                    0 <= t < prep@.len() ==> cand_prepared(#[trigger] prep@[t], cviews[t]),
                k <= prep@.len(),
                !found ==> forall|t: int|
                    0 <= t < k ==> !cand_eligible(input@, i as int, #[trigger] cviews[t]),
                found ==> k < prep@.len() && cand_eligible(input@, i as int, cviews[k as int])
                    && forall|t: int|
                    0 <= t < k ==> !cand_eligible(input@, i as int, #[trigger] cviews[t]),
            decreases prep@.len() - k + (if found {
                0int
            } else {
                1int
            }),
        {
            let cd = &prep[k];
            let elig = match &cd.parsed {
                Option::Some(_) => cd.wchars.len() > 0 && cd.wchars.len() <= n - i && matches_at(
                    &chars_vec,
                    i,
                    &cd.wchars,
                ),
                Option::None => false,
            };
            if elig {
                found = true;
            } else {
                proof {
                    assert(!cand_eligible(input@, i as int, cviews[k as int]));
                }
                k = k + 1;
            }
        }
        if found {
            proof {
                lemma_first_eligible_is(cviews, input@, i as int, k as int);
            }
            let cd = &prep[k];
            let wlen = cd.wchars.len();
            let entry = match &cd.parsed {
                Option::Some(ps) => {
                    let pvec = clone_pinyins(ps, ps.len());
                    proof {
                        assert(ps@.subrange(0, ps@.len() as int) =~= ps@);
                    }
                    PinyinWord { word: cd.word.clone(), pinyin: pvec }
                },
                Option::None => {
                    proof {
                        assert(false);
                    }
                    PinyinWord { word: cd.word.clone(), pinyin: Vec::new() }
                },
            };
            let final_entry = if flatten {
                entry.flattened()
            } else {
                entry
            };
            let ghost old_out = out@;
            let ghost ev = final_entry@;
            out.push(final_entry);
            proof {
                let w = cviews[k as int].0;
                let ps0 = spec_parse_syllables(cviews[k as int].1)->0;
                assert(ev == if flatten {
                    spec_flatten_entry((w, ps0))
                } else {
                    (w, ps0)
                });
                assert(views_of_words(out@) =~= views_of_words(old_out).push(ev));
                assert(spec_segment(input@, cviews, i as int, flatten, only_hans) == seq![ev]
                    + spec_segment(input@, cviews, i + wlen, flatten, only_hans));
                assert(views_of_words(out@) + spec_segment(input@, cviews, i + wlen, flatten, only_hans)
                    =~= views_of_words(old_out) + spec_segment(
                    input@,
                    cviews,
                    i as int,
                    flatten,
                    only_hans,
                ));
            }
            i = i + wlen;
        } else {
            proof {
                lemma_first_eligible_none(cviews, input@, i as int);
            }
            if !only_hans {
                let cv = vec1(chars_vec[i]);
                let cstr = string_of(&cv);
                let syl = cstr.clone();
                let mut pv: Vec<Pinyin> = Vec::new();
                pv.push(Pinyin { pinyin: syl, tone: 5 });
                let entry = PinyinWord { word: cstr, pinyin: pv };
                let ghost old_out = out@;
                let ghost ev = entry@;
                out.push(entry);
                proof {
                    let c = input@[i as int];
                    assert(views_of_pinyins(pv@) =~= seq![(seq![c], 5u8)]);
                    assert(ev == (seq![c], seq![(seq![c], 5u8)]));
                    assert(views_of_words(out@) =~= views_of_words(old_out).push(ev));
                    assert(spec_segment(input@, cviews, i as int, flatten, only_hans) == seq![ev]
                        + spec_segment(input@, cviews, i + 1, flatten, only_hans));
                    assert(views_of_words(out@) + spec_segment(input@, cviews, i + 1, flatten, only_hans)
                        =~= views_of_words(old_out) + spec_segment(
                        input@,
                        cviews,
                        i as int,
                        flatten,
                        only_hans,
                    ));
                }
            } else {
                proof {
                    assert(spec_segment(input@, cviews, i as int, flatten, only_hans)
                        =~= Seq::<(Seq<char>, Seq<(Seq<char>, u8)>)>::empty() + spec_segment(
                        input@,
                        cviews,
                        i + 1,
                        flatten,
                        only_hans,
                    ));
                }
            }
            i = i + 1;
        }
    }
    proof {
        assert(spec_segment(input@, cviews, n as int, flatten, only_hans) =~= Seq::<
            (Seq<char>, Seq<(Seq<char>, u8)>),
        >::empty());
        assert(views_of_words(out@) + spec_segment(input@, cviews, n as int, flatten, only_hans)
            =~= views_of_words(out@));
    }
    out
}


/// The concatenation of the word fields of a run of entries.
pub open spec fn words_concat(ws: Seq<(Seq<char>, Seq<(Seq<char>, u8)>)>) -> Seq<char>
    decreases ws.len(),
{
    if ws.len() == 0 {
        Seq::empty()
    } else {
        ws[0].0 + words_concat(ws.drop_first())
    }
}

proof fn lemma_words_concat_cons(
    e: (Seq<char>, Seq<(Seq<char>, u8)>),
    rest: Seq<(Seq<char>, Seq<(Seq<char>, u8)>)>,
)
    ensures
        words_concat(seq![e] + rest) == e.0 + words_concat(rest),
{
    let w = seq![e] + rest;
    assert(w[0] == e);
    assert(w.drop_first() =~= rest);
}

/// Law: without `only_hans`, the walk reconstructs the input — the
/// word fields of the emitted entries concatenate to the text from
/// position `i` on, whatever the candidate list holds.
pub proof fn lemma_segment_reconstructs(
    chars: Seq<char>,
    cands: Seq<(Seq<char>, Seq<char>)>,
    i: int,
    flatten: bool,
)
    requires
        0 <= i <= chars.len(),
    ensures
        words_concat(spec_segment(chars, cands, i, flatten, false)) == chars.skip(i),
    decreases chars.len() - i,
{
    if i >= chars.len() {
        assert(chars.skip(i) =~= Seq::<char>::empty());
    } else {
        let k = first_eligible(cands, chars, i);
        if k >= 0 {
            lemma_first_eligible(cands, chars, i);
            assert(cand_eligible(chars, i, cands[k]));
            let w = cands[k].0;
            let ps = spec_parse_syllables(cands[k].1)->0;
            let entry = if flatten {
                spec_flatten_entry((w, ps))
            } else {
                (w, ps)
            };
            let step = w.len() as int;
            lemma_segment_reconstructs(chars, cands, i + step, flatten);
            lemma_words_concat_cons(entry, spec_segment(chars, cands, i + step, flatten, false));
            assert(entry.0 == w);
            assert(w == chars.subrange(i, i + step));
            assert(chars.subrange(i, i + step) + chars.skip(i + step) =~= chars.skip(i));
        } else {
            let entry = (seq![chars[i]], seq![(seq![chars[i]], 5u8)]);
            lemma_segment_reconstructs(chars, cands, i + 1, flatten);
            lemma_words_concat_cons(entry, spec_segment(chars, cands, i + 1, flatten, false));
            assert(seq![chars[i]] + chars.skip(i + 1) =~= chars.skip(i));
        }
    }
}

/// The input from position `i` on with dropped characters removed:
/// at a position some candidate covers, the covered text is kept; a
/// position no candidate covers is removed.
pub open spec fn spec_kept(chars: Seq<char>, cands: Seq<(Seq<char>, Seq<char>)>, i: int) -> Seq<
    char,
>
    decreases chars.len() - i,
{
    if i < 0 || i >= chars.len() {
        Seq::empty()
    } else {
        let k = first_eligible(cands, chars, i);
        if k >= 0 {
            let w = cands[k].0;
            let step = if w.len() > 0 && i + w.len() <= chars.len() {
                w.len() as int
            } else {
                1
            };
            chars.subrange(i, i + step) + spec_kept(chars, cands, i + step)
        } else {
            spec_kept(chars, cands, i + 1)
        }
    }
}

/// Law: with `only_hans`, the concatenation of the emitted words
/// equals the input with every character at which no candidate
/// matches removed.
pub proof fn lemma_segment_only_hans(
    chars: Seq<char>,
    cands: Seq<(Seq<char>, Seq<char>)>,
    i: int,
    flatten: bool,
)
    requires
        0 <= i <= chars.len(),
    ensures
        words_concat(spec_segment(chars, cands, i, flatten, true)) == spec_kept(chars, cands, i),
    decreases chars.len() - i,
{
    if i >= chars.len() {
    } else {
        let k = first_eligible(cands, chars, i);
        if k >= 0 {
            lemma_first_eligible(cands, chars, i);
            assert(cand_eligible(chars, i, cands[k]));
            let w = cands[k].0;
            let ps = spec_parse_syllables(cands[k].1)->0;
            let entry = if flatten {
                spec_flatten_entry((w, ps))
            } else {
                (w, ps)
            };
            let step = w.len() as int;
            lemma_segment_only_hans(chars, cands, i + step, flatten);
            lemma_words_concat_cons(entry, spec_segment(chars, cands, i + step, flatten, true));
            assert(entry.0 == w);
            assert(w == chars.subrange(i, i + step));
        } else {
            lemma_segment_only_hans(chars, cands, i + 1, flatten);
            assert(Seq::<(Seq<char>, Seq<(Seq<char>, u8)>)>::empty() + spec_segment(
                chars,
                cands,
                i + 1,
                flatten,
                true,
            ) =~= spec_segment(chars, cands, i + 1, flatten, true));
        }
    }
}

/// What is kept is a subsequence of what was there.
pub proof fn lemma_kept_subseq(chars: Seq<char>, cands: Seq<(Seq<char>, Seq<char>)>, i: int)
    requires
        0 <= i <= chars.len(),
    ensures
        is_subseq(spec_kept(chars, cands, i), chars.skip(i)),
    decreases chars.len() - i,
{
    if i >= chars.len() {
    } else {
        let k = first_eligible(cands, chars, i);
        if k >= 0 {
            let w = cands[k].0;
            let step = if w.len() > 0 && i + w.len() <= chars.len() {
                w.len() as int
            } else {
                1
            };
            lemma_kept_subseq(chars, cands, i + step);
            lemma_subseq_prepend(
                chars.subrange(i, i + step),
                spec_kept(chars, cands, i + step),
                chars.skip(i + step),
            );
            assert(chars.subrange(i, i + step) + chars.skip(i + step) =~= chars.skip(i));
        } else {
            lemma_kept_subseq(chars, cands, i + 1);
            lemma_subseq_cons_right(spec_kept(chars, cands, i + 1), chars.skip(i + 1), chars[i]);
            assert(seq![chars[i]] + chars.skip(i + 1) =~= chars.skip(i));
        }
    }
}

/// Every tone of every entry is well-formed.
pub open spec fn all_tones_wf(ws: Seq<(Seq<char>, Seq<(Seq<char>, u8)>)>) -> bool {
    forall|t: int| 0 <= t < ws.len() ==> wf_pinyins((#[trigger] ws[t]).1)
}

/// Every entry is its own flattening.
pub open spec fn all_flattened(ws: Seq<(Seq<char>, Seq<(Seq<char>, u8)>)>) -> bool {
    forall|t: int| 0 <= t < ws.len() ==> #[trigger] ws[t] == spec_flatten_entry(ws[t])
}

proof fn lemma_parse_pinyin_wf(s: Seq<char>)
    ensures
        crate::spec_parse_pinyin(s) is Some ==> crate::wf_pinyin(crate::spec_parse_pinyin(s)->0),
{
    if crate::spec_parse_pinyin(s) is Some {
        if s.len() > 0 && !crate::is_digit(s.last()) {
            crate::strutil::lemma_first_where(s, crate::pred_marked());
            let f = crate::strutil::first_where(s, crate::pred_marked());
            if f >= 0 {
                assert(crate::is_tone_marked(s[f]));
            }
        }
    }
}

proof fn lemma_parse_syllables_wf(s: Seq<char>)
    ensures
        spec_parse_syllables(s) is Some ==> wf_pinyins(spec_parse_syllables(s)->0),
    decreases s.len(),
{
    if spec_parse_syllables(s) is Some {
        let i = crate::strutil::first_where(s, crate::pred_is(' '));
        if 0 <= i && i < s.len() {
            lemma_parse_pinyin_wf(s.subrange(0, i));
            lemma_parse_syllables_wf(s.skip(i + 1));
            let head = crate::spec_parse_pinyin(s.subrange(0, i))->0;
            let rest = spec_parse_syllables(s.skip(i + 1))->0;
            let whole = spec_parse_syllables(s)->0;
            assert(whole == seq![head] + rest);
            assert forall|t: int| 0 <= t < whole.len() implies crate::wf_tone(
                (#[trigger] whole[t]).1,
            ) by {
                if t == 0 {
                    assert(whole[0] == head);
                } else {
                    assert(whole[t] == rest[t - 1]);
                }
            }
        } else {
            lemma_parse_pinyin_wf(s);
            let head = crate::spec_parse_pinyin(s)->0;
            let whole = spec_parse_syllables(s)->0;
            assert(whole == seq![head]);
            assert(whole[0] == head);
        }
    }
}

/// The entries the walk emits are well-formed: tones lie in 1 to 5;
/// with `flatten` each entry is its own flattening; and no more
/// entries are emitted than characters remain.
pub proof fn lemma_segment_entries(
    chars: Seq<char>,
    cands: Seq<(Seq<char>, Seq<char>)>,
    i: int,
    flatten: bool,
    only_hans: bool,
)
    requires
        0 <= i <= chars.len(),
    ensures
        all_tones_wf(spec_segment(chars, cands, i, flatten, only_hans)),
        flatten ==> all_flattened(spec_segment(chars, cands, i, flatten, only_hans)),
        spec_segment(chars, cands, i, flatten, only_hans).len() <= chars.len() - i,
    decreases chars.len() - i,
{
    if i >= chars.len() {
    } else {
        let ws = spec_segment(chars, cands, i, flatten, only_hans);
        let k = first_eligible(cands, chars, i);
        if k >= 0 {
            lemma_first_eligible(cands, chars, i);
            assert(cand_eligible(chars, i, cands[k]));
            let w = cands[k].0;
            let ps = spec_parse_syllables(cands[k].1)->0;
            lemma_parse_syllables_wf(cands[k].1);
            let entry = if flatten {
                spec_flatten_entry((w, ps))
            } else {
                (w, ps)
            };
            assert(wf_pinyins(entry.1)) by {
                if flatten && ps.len() > w.len() {
                    assert forall|t: int| 0 <= t < entry.1.len() implies crate::wf_tone(
                        (#[trigger] entry.1[t]).1,
                    ) by {
                        assert(entry.1[t] == ps[t]);
                    }
                }
            }
            if flatten {
                crate::lemma_flatten_idempotent((w, ps));
            }
            let step = w.len() as int;
            lemma_segment_entries(chars, cands, i + step, flatten, only_hans);
            let rest = spec_segment(chars, cands, i + step, flatten, only_hans);
            assert(ws == seq![entry] + rest);
            assert forall|t: int| 0 <= t < ws.len() implies wf_pinyins((#[trigger] ws[t]).1) && (
            flatten ==> ws[t] == spec_flatten_entry(ws[t])) by {
                if t == 0 {
                    assert(ws[0] == entry);
                } else {
                    assert(ws[t] == rest[t - 1]);
                }
            }
        } else {
            let entry = (seq![chars[i]], seq![(seq![chars[i]], 5u8)]);
            assert(wf_pinyins(entry.1)) by {
                assert(entry.1[0].1 == 5u8);
            }
            assert(entry == spec_flatten_entry(entry));
            lemma_segment_entries(chars, cands, i + 1, flatten, only_hans);
            let rest = spec_segment(chars, cands, i + 1, flatten, only_hans);
            if only_hans {
                assert(ws =~= rest);
            } else {
                assert(ws == seq![entry] + rest);
                assert forall|t: int| 0 <= t < ws.len() implies wf_pinyins((#[trigger] ws[t]).1)
                    && (flatten ==> ws[t] == spec_flatten_entry(ws[t])) by {
                    if t == 0 {
                        assert(ws[0] == entry);
                    } else {
                        assert(ws[t] == rest[t - 1]);
                    }
                }
            }
        }
    }
}

/// What a conversion promises of its entries, whatever the matcher
/// reported: without `only_hans` the words concatenate to the input,
/// and with it they concatenate to a subsequence of the input; with
/// `flatten` every entry is flattened; tones are well-formed; and
/// there is at most one entry per input character.
pub open spec fn convert_post(c: Converter, ws: Seq<(Seq<char>, Seq<(Seq<char>, u8)>)>) -> bool {
    &&& !c.only_hans ==> words_concat(ws) == c.input@
    &&& c.only_hans ==> is_subseq(words_concat(ws), c.input@)
    &&& c.flatten ==> all_flattened(ws)
    &&& all_tones_wf(ws)
    &&& ws.len() <= c.input@.len()
}

fn segment_checked(
    input: &str,
    candidates: &Vec<(String, String)>,
    flatten: bool,
    only_hans: bool,
) -> (r: Vec<PinyinWord>)
    ensures
        views_of_words(r@) == spec_segment(input@, pair_views(candidates@), 0, flatten, only_hans),
        !only_hans ==> words_concat(views_of_words(r@)) == input@,
        only_hans ==> is_subseq(words_concat(views_of_words(r@)), input@),
        flatten ==> all_flattened(views_of_words(r@)),
        all_tones_wf(views_of_words(r@)),
        views_of_words(r@).len() <= input@.len(),
{
    let r = segment(input, candidates, flatten, only_hans);
    proof {
        let cviews = pair_views(candidates@);
        if !only_hans {
            lemma_segment_reconstructs(input@, cviews, 0, flatten);
        } else {
            lemma_segment_only_hans(input@, cviews, 0, flatten);
            lemma_kept_subseq(input@, cviews, 0);
        }
        assert(input@.skip(0) =~= input@);
        lemma_segment_entries(input@, cviews, 0, flatten, only_hans);
    }
    r
}

/// The first candidate can be consumed as a surname: it is non-empty,
/// stands at the start of the input, and its annotation parses.
pub open spec fn surname_head_usable(input: Seq<char>, cand: (Seq<char>, Seq<char>)) -> bool {
    &&& cand.0.len() > 0
    &&& cand.0.len() <= input.len()
    &&& input.subrange(0, cand.0.len() as int) == cand.0
    &&& spec_parse_syllables(cand.1) is Some
}

/// What a conversion emits, as a function of the input, the candidate
/// list and the configuration: in surname mode a usable leading
/// candidate is consumed as the surname entry and the rest of the
/// input is walked against the remaining candidates; otherwise the
/// whole input is walked.
pub open spec fn spec_convert(
    input: Seq<char>,
    cands: Seq<(Seq<char>, Seq<char>)>,
    surname_mode: bool,
    flatten: bool,
    only_hans: bool,
) -> Seq<(Seq<char>, Seq<(Seq<char>, u8)>)> {
    if surname_mode && cands.len() > 0 && surname_head_usable(input, cands[0]) {
        let w = cands[0].0;
        let ps = spec_parse_syllables(cands[0].1)->0;
        let e = if flatten {
            spec_flatten_entry((w, ps))
        } else {
            (w, ps)
        };
        seq![e] + spec_segment(input.skip(w.len() as int), cands.drop_first(), 0, flatten, only_hans)
    } else {
        spec_segment(input, cands, 0, flatten, only_hans)
    }
}

/// The candidate list a conversion consults: the surname path in
/// surname mode, the ordinary word path otherwise.
pub open spec fn convert_cands(ctx: MatchContext, c: Converter) -> Seq<(Seq<char>, Seq<char>)> {
    if c.surname_mode {
        surname_match_result(ctx, c.input@)
    } else {
        word_match_result(ctx, c.input@)
    }
}

/// One conversion request: the input string and the configuration
/// snapshot it is converted under.
pub struct Converter {
    pub input: String,
    pub tone_style: ToneStyle,
    pub yu_format: YuFormat,
    pub surname_mode: bool,
    pub flatten: bool,
    pub only_hans: bool,
}

impl Converter {
    /// A request over `input` with the default configuration:
    /// tone marks, `ü` written as the ASCII-safe `u`, no surname
    /// mode, no flattening, non-Han characters kept.
    pub fn new(input: &str) -> (r: Converter)
        ensures
            r.input@ == input@,
            r.tone_style == ToneStyle::Mark,
            r.yu_format == YuFormat::U,
            r.surname_mode == false,
            r.flatten == false,
            r.only_hans == false,
    {
        Converter {
            input: String::from_str(input),
            tone_style: ToneStyle::Mark,
            yu_format: YuFormat::U,
            surname_mode: false,
            flatten: false,
            only_hans: false,
        }
    }

    /// Segments the input against the context's dictionaries: in
    /// surname mode a surname match on the leading characters is
    /// taken first, then the rest is segmented greedily; otherwise
    /// the whole input is segmented greedily. The result is exactly
    /// `spec_convert` of the consulted candidate list.
    pub fn convert(&self, ctx: &MatchContext) -> (r: Vec<PinyinWord>)
        requires
            ctx.wf(),
        ensures
            views_of_words(r@) == spec_convert(
                self.input@,
                convert_cands(*ctx, *self),
                self.surname_mode,
                self.flatten,
                self.only_hans,
            ),
            self.only_hans && !self.surname_mode ==> words_concat(views_of_words(r@))
                == spec_kept(self.input@, convert_cands(*ctx, *self), 0),
            convert_post(*self, views_of_words(r@)),
    {
        let input = self.input.as_str();
        if self.surname_mode {
            let cands = match_surname_pinyin(ctx, input);
            let ghost cviews = pair_views(cands@);
            let n = input.unicode_len();
            if cands.len() > 0 {
                let w0 = chars_of(cands[0].0.as_str());
                let ichars = chars_of(input);
                let wlen = w0.len();
                proof {
                    assert(w0@ == cviews[0].0);
                }
                let prefix_ok = wlen > 0 && wlen <= n && matches_at(&ichars, 0, &w0);
                if prefix_ok {
                    match parse_syllables(cands[0].1.as_str()) {
                        Result::Ok(ps) => {
                            proof {
                                assert(surname_head_usable(input@, cviews[0]));
                            }
                            let ghost psv = views_of_pinyins(ps@);
                            let entry = PinyinWord { word: cands[0].0.clone(), pinyin: ps };
                            let fe = if self.flatten {
                                entry.flattened()
                            } else {
                                entry
                            };
                            let ghost fev = fe@;
                            let mut out: Vec<PinyinWord> = Vec::new();
                            out.push(fe);
                            let rest = input.substring_char(wlen, n);
                            let tail = crate::loader::copy_pairs_range(&cands, 1, cands.len());
                            let mut segd = segment_checked(
                                rest,
                                &tail,
                                self.flatten,
                                self.only_hans,
                            );
                            let ghost segv = views_of_words(segd@);
                            out.append(&mut segd);
                            proof {
                                assert(views_of_words(out@) =~= seq![fev] + segv);
                                lemma_words_concat_cons(fev, segv);
                                assert(fev.0 == w0@);
                                assert(w0@ == input@.subrange(0, wlen as int));
                                assert(rest@ == input@.subrange(wlen as int, n as int));
                                assert(input@.subrange(0, wlen as int) + input@.subrange(
                                    wlen as int,
                                    n as int,
                                ) =~= input@);
                                if self.only_hans {
                                    lemma_subseq_prepend(
                                        w0@,
                                        words_concat(segv),
                                        input@.subrange(wlen as int, n as int),
                                    );
                                }
                                assert(crate::wf_pinyins(fev.1)) by {
                                    if self.flatten && psv.len() > w0@.len() {
                                        assert forall|t: int|
                                            0 <= t < fev.1.len() implies crate::wf_tone(
                                            (#[trigger] fev.1[t]).1,
                                        ) by {
                                            assert(fev.1[t] == psv[t]);
                                        }
                                    }
                                }
                                if self.flatten {
                                    crate::lemma_flatten_idempotent((w0@, psv));
                                }
                                let ws = views_of_words(out@);
                                assert forall|t: int| 0 <= t < ws.len() implies wf_pinyins(
                                    (#[trigger] ws[t]).1,
                                ) && (self.flatten ==> ws[t] == spec_flatten_entry(ws[t])) by {
                                    if t == 0 {
                                        assert(ws[0] == fev);
                                    } else {
                                        assert(ws[t] == segv[t - 1]);
                                    }
                                }
                                // the emitted entries are spec_convert of the candidates
                                assert(psv == spec_parse_syllables(cviews[0].1)->0);
                                assert(rest@ =~= input@.skip(wlen as int));
                                assert(pair_views(tail@) =~= cviews.drop_first()) by {
                                    assert(tail@ == cands@.subrange(1, cands@.len() as int));
                                    assert(forall|t: int|
                                        0 <= t < tail@.len() ==> tail@[t] == cands@[t + 1]);
                                }
                                assert(views_of_words(out@) =~= spec_convert(
                                    input@,
                                    cviews,
                                    true,
                                    self.flatten,
                                    self.only_hans,
                                ));
                            }
                            return out;
                        },
                        Result::Err(_) => {
                            let r = segment_checked(input, &cands, self.flatten, self.only_hans);
                            proof {
                                assert(!(spec_parse_syllables(cviews[0].1) is Some));
                                assert(!surname_head_usable(input@, cviews[0]));
                            }
                            return r;
                        },
                    }
                }
                let r = segment_checked(input, &cands, self.flatten, self.only_hans);
                proof {
                    assert(!prefix_ok);
                    assert(!surname_head_usable(input@, cviews[0]));
                }
                return r;
            }
            segment_checked(input, &cands, self.flatten, self.only_hans)
        } else {
            let cands = match_word_pinyin(ctx, input);
            let r = segment_checked(input, &cands, self.flatten, self.only_hans);
            proof {
                if self.only_hans {
                    lemma_segment_only_hans(input@, pair_views(cands@), 0, self.flatten);
                }
            }
            r
        }
    }
}


/// The renderings of a word's values, in order.
pub open spec fn rendered_syllables(
    ps: Seq<(Seq<char>, u8)>,
    style: ToneStyle,
    yu: YuFormat,
) -> Seq<Seq<char>>
    decreases ps.len(),
{
    if ps.len() == 0 {
        Seq::empty()
    } else {
        seq![crate::spec_format_with_yu(ps[0], style, yu)] + rendered_syllables(
            ps.drop_first(),
            style,
            yu,
        )
    }
}

proof fn lemma_rendered_index(ps: Seq<(Seq<char>, u8)>, style: ToneStyle, yu: YuFormat, t: int)
    requires
        0 <= t < ps.len(),
    ensures
        rendered_syllables(ps, style, yu).len() == ps.len(),
        rendered_syllables(ps, style, yu)[t] == crate::spec_format_with_yu(ps[t], style, yu),
    decreases t + ps.len(),
{
    lemma_rendered_len(ps, style, yu);
    if t > 0 {
        lemma_rendered_index(ps.drop_first(), style, yu, t - 1);
        assert(ps.drop_first()[t - 1] == ps[t]);
    }
}

proof fn lemma_rendered_len(ps: Seq<(Seq<char>, u8)>, style: ToneStyle, yu: YuFormat)
    ensures
        rendered_syllables(ps, style, yu).len() == ps.len(),
    decreases ps.len(),
{
    if ps.len() > 0 {
        lemma_rendered_len(ps.drop_first(), style, yu);
    }
}

/// The rendered pieces of a run of entries: one joined string per
/// entry, the entry's values joined by `sep`.
pub open spec fn word_pieces(
    ws: Seq<(Seq<char>, Seq<(Seq<char>, u8)>)>,
    style: ToneStyle,
    yu: YuFormat,
    sep: Seq<char>,
) -> Seq<Seq<char>>
    decreases ws.len(),
{
    if ws.len() == 0 {
        Seq::empty()
    } else {
        seq![crate::strutil::spec_join(rendered_syllables(ws[0].1, style, yu), sep)] + word_pieces(
            ws.drop_first(),
            style,
            yu,
            sep,
        )
    }
}

proof fn lemma_pieces_len(
    ws: Seq<(Seq<char>, Seq<(Seq<char>, u8)>)>,
    style: ToneStyle,
    yu: YuFormat,
    sep: Seq<char>,
)
    ensures
        word_pieces(ws, style, yu, sep).len() == ws.len(),
    decreases ws.len(),
{
    if ws.len() > 0 {
        lemma_pieces_len(ws.drop_first(), style, yu, sep);
    }
}

proof fn lemma_pieces_index(
    ws: Seq<(Seq<char>, Seq<(Seq<char>, u8)>)>,
    style: ToneStyle,
    yu: YuFormat,
    sep: Seq<char>,
    t: int,
)
    requires
        0 <= t < ws.len(),
    ensures
        word_pieces(ws, style, yu, sep).len() == ws.len(),
        word_pieces(ws, style, yu, sep)[t] == crate::strutil::spec_join(
            rendered_syllables(ws[t].1, style, yu),
            sep,
        ),
    decreases t + ws.len(),
{
    lemma_pieces_len(ws, style, yu, sep);
    if t > 0 {
        lemma_pieces_index(ws.drop_first(), style, yu, sep, t - 1);
        assert(ws.drop_first()[t - 1] == ws[t]);
    }
}

/// The rendered form of a run of entries: every value rendered under
/// the tone style and ü-format, values and entries joined by `sep`,
/// trailing blank space trimmed.
pub open spec fn spec_render_words(
    ws: Seq<(Seq<char>, Seq<(Seq<char>, u8)>)>,
    style: ToneStyle,
    yu: YuFormat,
    sep: Seq<char>,
) -> Seq<char> {
    crate::strutil::trim_back(
        crate::strutil::spec_join(word_pieces(ws, style, yu, sep), sep),
    )
}

/// Renders a run of entries under a tone style, a ü-format and a
/// separator.
pub fn render_words(words: &Vec<PinyinWord>, style: ToneStyle, yu: YuFormat, sep: &str) -> (r:
    String)
    requires
        all_tones_wf(views_of_words(words@)),
    ensures
        r@ == spec_render_words(views_of_words(words@), style, yu, sep@),
{
    let ghost wsv = views_of_words(words@);
    let ghost pieces = word_pieces(wsv, style, yu, sep@);
    let sepv = chars_of(sep);
    let mut joined: Vec<char> = Vec::new();
    let mut i: usize = 0;
    proof {
        lemma_pieces_len(wsv, style, yu, sep@);
        assert(pieces.take(0) =~= Seq::<Seq<char>>::empty());
        assert(joined@ =~= crate::strutil::spec_join(pieces.take(0), sep@));
    }
    while i < words.len()
        invariant
            wsv == views_of_words(words@),
            pieces == word_pieces(wsv, style, yu, sep@),
            pieces.len() == words@.len(),
            all_tones_wf(wsv),
            sepv@ == sep@,
            i <= words@.len(),
            joined@ == crate::strutil::spec_join(pieces.take(i as int), sep@),
        decreases words@.len() - i,
    {
        if i > 0 {
            crate::strutil::append_chars(&mut joined, &sepv);
        }
        let word = &words[i];
        let ghost psv = wsv[i as int].1;
        let ghost rs = rendered_syllables(psv, style, yu);
        let mut piece: Vec<char> = Vec::new();
        let mut j: usize = 0;
        proof {
            assert(wsv[i as int] == words@[i as int]@);
            assert(psv == views_of_pinyins(word.pinyin@));
            lemma_rendered_len(psv, style, yu);
            assert(rs.take(0) =~= Seq::<Seq<char>>::empty());
            assert(piece@ =~= crate::strutil::spec_join(rs.take(0), sep@));
        }
        while j < word.pinyin.len()
            invariant
                psv == views_of_pinyins(word.pinyin@),
                wf_pinyins(psv),
                rs == rendered_syllables(psv, style, yu),
                rs.len() == word.pinyin@.len(),
                sepv@ == sep@,
                j <= word.pinyin@.len(),
                piece@ == crate::strutil::spec_join(rs.take(j as int), sep@),
            decreases word.pinyin@.len() - j,
        {
            if j > 0 {
                crate::strutil::append_chars(&mut piece, &sepv);
            }
            proof {
                assert(psv[j as int] == word.pinyin@[j as int]@);
                assert(crate::wf_tone(psv[j as int].1));
            }
            let f = word.pinyin[j].format_with_yu(style, yu);
            let fv = chars_of(f.as_str());
            crate::strutil::append_chars(&mut piece, &fv);
            proof {
                lemma_rendered_index(psv, style, yu, j as int);
                assert(rs[j as int] == f@);
                crate::strutil::lemma_join_push(rs.take(j as int), sep@, rs[j as int]);
                assert(rs.take(j as int).push(rs[j as int]) =~= rs.take(j + 1));
                assert(piece@ =~= crate::strutil::spec_join(rs.take(j + 1), sep@));
            }
            j = j + 1;
        }
        crate::strutil::append_chars(&mut joined, &piece);
        proof {
            assert(rs.take(word.pinyin@.len() as int) =~= rs);
            assert(piece@ == crate::strutil::spec_join(rs, sep@));
            lemma_pieces_index(wsv, style, yu, sep@, i as int);
            assert(pieces[i as int] == piece@);
            crate::strutil::lemma_join_push(pieces.take(i as int), sep@, pieces[i as int]);
            assert(pieces.take(i as int).push(pieces[i as int]) =~= pieces.take(i + 1));
            assert(joined@ =~= crate::strutil::spec_join(pieces.take(i + 1), sep@));
        }
        i = i + 1;
    }
    proof {
        assert(pieces.take(words@.len() as int) =~= pieces);
    }
    let trimmed = crate::strutil::trim_end_chars(&joined);
    string_of(&trimmed)
}

impl Converter {
    /// Converts and renders with the given separator between
    /// syllables and entries, trailing blank space trimmed.
    pub fn to_string_with(&self, ctx: &MatchContext, s: &str) -> (r: String)
        requires
            ctx.wf(),
        ensures
            r@ == spec_render_words(
                spec_convert(
                    self.input@,
                    convert_cands(*ctx, *self),
                    self.surname_mode,
                    self.flatten,
                    self.only_hans,
                ),
                self.tone_style,
                self.yu_format,
                s@,
            ),
    {
        let words = self.convert(ctx);
        render_words(&words, self.tone_style, self.yu_format, s)
    }

    /// Converts and renders with spaces: the display form.
    pub fn to_string(&self, ctx: &MatchContext) -> (r: String)
        requires
            ctx.wf(),
        ensures
            r@ == spec_render_words(
                spec_convert(
                    self.input@,
                    convert_cands(*ctx, *self),
                    self.surname_mode,
                    self.flatten,
                    self.only_hans,
                ),
                self.tone_style,
                self.yu_format,
                seq![' '],
            ),
    {
        let sep = " ";
        proof {
            reveal_strlit(" ");
            assert(sep@ =~= seq![' ']);
        }
        self.to_string_with(ctx, sep)
    }

    /// Converts and renders with hyphens: the permalink form.
    pub fn to_permalink(&self, ctx: &MatchContext) -> (r: String)
        requires
            ctx.wf(),
        ensures
            r@ == spec_render_words(
                spec_convert(
                    self.input@,
                    convert_cands(*ctx, *self),
                    self.surname_mode,
                    self.flatten,
                    self.only_hans,
                ),
                self.tone_style,
                self.yu_format,
                seq!['-'],
            ),
    {
        let sep = "-";
        proof {
            reveal_strlit("-");
            assert(sep@ =~= seq!['-']);
        }
        self.to_string_with(ctx, sep)
    }

    /// Picks the tone style.
    pub fn with_tone_style(self, style: ToneStyle) -> (r: Converter)
        ensures
            r.input == self.input,
            r.tone_style == style,
            r.yu_format == self.yu_format,
            r.surname_mode == self.surname_mode,
            r.flatten == self.flatten,
            r.only_hans == self.only_hans,
    {
        Converter { tone_style: style, ..self }
    }

    /// Renders tonelessly.
    pub fn without_tone(self) -> (r: Converter)
        ensures
            r.input == self.input,
            r.tone_style == ToneStyle::Toneless,
            r.yu_format == self.yu_format,
            r.surname_mode == self.surname_mode,
            r.flatten == self.flatten,
            r.only_hans == self.only_hans,
    {
        Converter { tone_style: ToneStyle::Toneless, ..self }
    }

    /// Expands `ü` to `yu`.
    pub fn yu_to_yu(self) -> (r: Converter)
        ensures
            r.input == self.input,
            r.tone_style == self.tone_style,
            r.yu_format == YuFormat::Yu,
            r.surname_mode == self.surname_mode,
            r.flatten == self.flatten,
            r.only_hans == self.only_hans,
    {
        Converter { yu_format: YuFormat::Yu, ..self }
    }

    /// Writes `ü` as the ASCII-safe plain `u`.
    pub fn yu_to_u(self) -> (r: Converter)
        ensures
            r.input == self.input,
            r.tone_style == self.tone_style,
            r.yu_format == YuFormat::U,
            r.surname_mode == self.surname_mode,
            r.flatten == self.flatten,
            r.only_hans == self.only_hans,
    {
        Converter { yu_format: YuFormat::U, ..self }
    }

    /// Writes `ü` as `v`; this form is toneless.
    pub fn yu_to_v(self) -> (r: Converter)
        ensures
            r.input == self.input,
            r.tone_style == ToneStyle::Toneless,
            r.yu_format == YuFormat::V,
            r.surname_mode == self.surname_mode,
            r.flatten == self.flatten,
            r.only_hans == self.only_hans,
    {
        Converter { yu_format: YuFormat::V, tone_style: ToneStyle::Toneless, ..self }
    }

    /// Keeps only the first reading of a polyphonic entry.
    pub fn flatten(self) -> (r: Converter)
        ensures
            r.input == self.input,
            r.tone_style == self.tone_style,
            r.yu_format == self.yu_format,
            r.surname_mode == self.surname_mode,
            r.flatten == true,
            r.only_hans == self.only_hans,
    {
        Converter { flatten: true, ..self }
    }

    /// Resolves the leading characters as a family name first;
    /// implies flattening.
    pub fn as_surnames(self) -> (r: Converter)
        ensures
            r.input == self.input,
            r.tone_style == self.tone_style,
            r.yu_format == self.yu_format,
            r.surname_mode == true,
            r.flatten == true,
            r.only_hans == self.only_hans,
    {
        Converter { surname_mode: true, flatten: true, ..self }
    }

    /// Drops characters no dictionary covers instead of passing them
    /// through.
    pub fn only_hans(self) -> (r: Converter)
        ensures
            r.input == self.input,
            r.tone_style == self.tone_style,
            r.yu_format == self.yu_format,
            r.surname_mode == self.surname_mode,
            r.flatten == self.flatten,
            r.only_hans == true,
    {
        Converter { only_hans: true, ..self }
    }
}

} // verus!
