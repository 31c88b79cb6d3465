//! The three bagging strategies. Each turns every sentence into a bag: its
//! tokens replaced by what the strategy makes of their candidate headwords,
//! tokens without an entry dropped, joined by single spaces.

use vstd::prelude::*;

use crate::keyed::{lemma_aligned, lemma_fresh, text_view, KeyedMap};
use crate::morphology::{cand_view, dedup, dedup_strings};
use crate::records::WeightedHeadword;
use crate::text::{
    char_views, chars_of, decapitalized, join, join_chars, split_chars, str_lcs, string_of,
    string_views, words,
};

verus! {

/// `s` with every run of two or more spaces reduced to one space.
pub open spec fn collapse_spaces(s: Seq<char>) -> Seq<char>
    decreases s.len(),
{
    if s.len() == 0 {
        s
    } else {
        let p = collapse_spaces(s.drop_last());
        if s.last() == ' ' && s.len() >= 2 && s[s.len() - 2] == ' ' {
            p
        } else {
            p.push(s.last())
        }
    }
}

fn collapse_spaces_exec(s: &Vec<char>) -> (r: Vec<char>)
    ensures
        r@ == collapse_spaces(s@),
{
    let mut out: Vec<char> = Vec::new();
    let mut i: usize = 0;
    assert(s@.take(0) =~= Seq::<char>::empty());
    while i < s.len()
        invariant
            i <= s.len(),
            out@ == collapse_spaces(s@.take(i as int)),
        decreases s.len() - i,
    {
        assert(s@.take(i + 1).drop_last() =~= s@.take(i as int));
        if !(s[i] == ' ' && i >= 1 && s[i - 1] == ' ') {
            out.push(s[i]);
        }
        i += 1;
    }
    assert(s@.take(s@.len() as int) =~= s@);
    out
}

/// The tokens `ws` become: each replaced by its entry in `repl`, or dropped
/// where it has none.
pub open spec fn replaced_words(ws: Seq<Seq<char>>, repl: Map<Seq<char>, Seq<Seq<char>>>) -> Seq<
    Seq<char>,
>
    decreases ws.len(),
{
    if ws.len() == 0 {
        Seq::empty()
    } else {
        replaced_words(ws.drop_last(), repl) + if repl.contains_key(ws.last()) {
            repl[ws.last()]
        } else {
            Seq::empty()
        }
    }
}

/// The bag of a sentence under the replacement `repl`.
pub open spec fn bag_of(s: Seq<char>, repl: Map<Seq<char>, Seq<Seq<char>>>) -> Seq<char> {
    collapse_spaces(join(replaced_words(words(s), repl), seq![' ']))
}

/// The bags of all sentences, under the same loci.
pub open spec fn bags_of(sentences: Map<Seq<char>, Seq<char>>, repl: Map<Seq<char>, Seq<Seq<char>>>) -> Map<
    Seq<char>,
    Seq<char>,
> {
    sentences.map_values(|s: Seq<char>| bag_of(s, repl))
}

fn bag_text(t: &String, repl: &KeyedMap<Vec<String>>) -> (r: String)
    requires
        repl.wf(),
    ensures
        r@ == bag_of(t@, cand_view(repl@)),
{
    let ghost rv = cand_view(repl@);
    let cs = chars_of(t.as_str());
    let ws = split_chars(&cs, false);
    let ghost wv = char_views(ws@);
    let mut out: Vec<Vec<char>> = Vec::new();
    let mut i: usize = 0;
    assert(wv.take(0) =~= Seq::<Seq<char>>::empty());
    while i < ws.len()
        invariant
            i <= ws.len(),
            repl.wf(),
            rv == cand_view(repl@),
            wv == char_views(ws@),
            char_views(out@) == replaced_words(wv.take(i as int), rv),
        decreases ws.len() - i,
    {
        assert(wv.take(i + 1).drop_last() =~= wv.take(i as int));
        let w = string_of(&ws[i]);
        match repl.get(w.as_str()) {
            Some(cands) => {
                let ghost base = char_views(out@);
                let mut j: usize = 0;
                assert(string_views(cands@).take(0) =~= Seq::<Seq<char>>::empty());
                while j < cands.len()
                    invariant
                        j <= cands.len(),
                        char_views(out@) == base + string_views(cands@).take(j as int),
                    decreases cands.len() - j,
                {
                    let c = chars_of(cands[j].as_str());
                    let ghost before = out@;
                    out.push(c);
                    assert(char_views(out@) =~= char_views(before).push(cands@[j as int]@));
                    assert(string_views(cands@).take(j + 1) =~= string_views(cands@).take(
                        j as int,
                    ).push(cands@[j as int]@));
                    j += 1;
                }
                assert(string_views(cands@).take(cands@.len() as int) =~= string_views(cands@));
            },
            None => {
                assert(char_views(out@) =~= char_views(out@) + Seq::<Seq<char>>::empty());
            },
        }
        i += 1;
    }
    assert(wv.take(ws@.len() as int) =~= wv);
    let joined = join_chars(&out, ' ');
    let collapsed = collapse_spaces_exec(&joined);
    string_of(&collapsed)
}

/// The bag of every sentence under `repl`, in the sentences' order.
fn bag_sentences(sentences: &KeyedMap<String>, repl: &KeyedMap<Vec<String>>) -> (r: KeyedMap<String>)
    requires
        sentences.wf(),
        repl.wf(),
    ensures
        r.wf(),
        text_view(r@) == bags_of(text_view(sentences@), cand_view(repl@)),
{
    let ghost ks = sentences.key_seq();
    let mut out: KeyedMap<String> = KeyedMap::new();
    let n = sentences.len();
    let mut i: usize = 0;
    proof {
        sentences.lemma_entries();
        assert(ks.take(0) =~= Seq::<Seq<char>>::empty());
    }
    while i < n
        invariant
            i <= n,
            n == ks.len(),
            sentences.wf(),
            repl.wf(),
            out.wf(),
            ks == sentences.key_seq(),
            ks.no_duplicates(),
            out.key_seq() == ks.take(i as int),
            out.val_seq().len() == i,
            forall|j: int|
                0 <= j < i ==> (#[trigger] out.val_seq()[j])@ == bag_of(
                    sentences.val_seq()[j]@,
                    cand_view(repl@),
                ),
        decreases n - i,
    {
        let k = sentences.key_at(i).clone();
        let b = bag_text(sentences.value_at(i), repl);
        proof {
            out.lemma_entries();
            if out@.contains_key(k@) {
                let j = choose|j: int| 0 <= j < out.key_seq().len() && out.key_seq()[j] == k@;
                assert(ks[j] == ks[i as int]);
            }
        }
        let ghost old_vals = out.val_seq();
        out.insert(k, b);
        proof {
            assert(ks.take(i + 1) =~= ks.take(i as int).push(ks[i as int]));
            assert forall|j: int|
                0 <= j < i + 1 implies (#[trigger] out.val_seq()[j])@ == bag_of(
                sentences.val_seq()[j]@,
                cand_view(repl@),
            ) by {
                if j < i {
                    assert(out.val_seq()[j] == old_vals[j]);
                }
            }
        }
        i += 1;
    }
    proof {
        assert(ks.take(n as int) =~= ks);
        out.lemma_entries();
        sentences.lemma_entries();
        let lhs = text_view(out@);
        let rhs = bags_of(text_view(sentences@), cand_view(repl@));
        assert forall|k: Seq<char>| lhs.contains_key(k) <==> rhs.contains_key(k) by {
            if out@.contains_key(k) {
                let j = choose|j: int| 0 <= j < out.key_seq().len() && out.key_seq()[j] == k;
                assert(sentences@.contains_key(ks[j]));
            }
            if sentences@.contains_key(k) {
                let j = choose|j: int| 0 <= j < ks.len() && ks[j] == k;
                assert(out@.contains_key(out.key_seq()[j]));
            }
        }
        assert forall|k: Seq<char>| #[trigger] lhs.contains_key(k) implies lhs[k] == rhs[k] by {
            let j = choose|j: int| 0 <= j < out.key_seq().len() && out.key_seq()[j] == k;
            assert(out@[out.key_seq()[j]] == out.val_seq()[j]);
            assert(sentences@[ks[j]] == sentences.val_seq()[j]);
        }
        assert(lhs =~= rhs);
    }
    out
}

/// The bag of a sentence under Flat: every candidate of each token, side by side.
pub open spec fn flat_bag(s: Seq<char>, cands: Map<Seq<char>, Seq<Seq<char>>>) -> Seq<char> {
    bag_of(s, cands)
}

/// Flat bags: each token is replaced by all of its candidates, space-joined in
/// candidate order; a token without an entry is dropped.
pub fn sv_buildflatbags(sentences: &KeyedMap<String>, mm: &KeyedMap<Vec<String>>) -> (r: KeyedMap<String>)
    requires
        sentences.wf(),
        mm.wf(),
    ensures
        r.wf(),
        text_view(r@) == text_view(sentences@).map_values(
            |s: Seq<char>| flat_bag(s, cand_view(mm@)),
        ),
{
    let r = bag_sentences(sentences, mm);
    assert(text_view(r@) =~= text_view(sentences@).map_values(
        |s: Seq<char>| flat_bag(s, cand_view(mm@)),
    ));
    r
}

/// The candidates of one token fused into a single middle-dot-joined token.
pub open spec fn yoked(cands: Seq<Seq<char>>) -> Seq<Seq<char>> {
    seq![join(cands, seq!['·'])]
}

/// The bag of a sentence under Composite: each token becomes one compound of
/// its candidates.
pub open spec fn composite_bag(s: Seq<char>, cands: Map<Seq<char>, Seq<Seq<char>>>) -> Seq<char> {
    bag_of(s, cands.map_values(|c: Seq<Seq<char>>| yoked(c)))
}

/// `m` with every candidate list fused into one compound, keys in the same order.
fn yoke_all(m: &KeyedMap<Vec<String>>) -> (r: KeyedMap<Vec<String>>)
    requires
        m.wf(),
    ensures
        r.wf(),
        cand_view(r@) == cand_view(m@).map_values(|c: Seq<Seq<char>>| yoked(c)),
{
    let ghost ks = m.key_seq();
    let mut out: KeyedMap<Vec<String>> = KeyedMap::new();
    let n = m.len();
    let mut i: usize = 0;
    proof {
        m.lemma_entries();
        assert(ks.take(0) =~= Seq::<Seq<char>>::empty());
    }
    while i < n
        invariant
            i <= n,
            n == ks.len(),
            m.wf(),
            out.wf(),
            ks == m.key_seq(),
            ks.no_duplicates(),
            out.key_seq() == ks.take(i as int),
            out.val_seq().len() == i,
            forall|j: int|
                0 <= j < i ==> string_views((#[trigger] out.val_seq()[j])@) == yoked(
                    string_views(m.val_seq()[j]@),
                ),
        decreases n - i,
    {
        let k = m.key_at(i).clone();
        let cands = m.value_at(i);
        let mut cv: Vec<Vec<char>> = Vec::new();
        let mut j: usize = 0;
        assert(string_views(cands@).take(0) =~= Seq::<Seq<char>>::empty());
        while j < cands.len()
            invariant
                j <= cands.len(),
                char_views(cv@) == string_views(cands@).take(j as int),
            decreases cands.len() - j,
        {
            let c = chars_of(cands[j].as_str());
            let ghost before = cv@;
            cv.push(c);
            assert(char_views(cv@) =~= char_views(before).push(cands@[j as int]@));
            assert(string_views(cands@).take(j + 1) =~= string_views(cands@).take(j as int).push(
                cands@[j as int]@,
            ));
            j += 1;
        }
        assert(string_views(cands@).take(cands@.len() as int) =~= string_views(cands@));
        let fused = join_chars(&cv, '·');
        let mut v: Vec<String> = Vec::new();
        v.push(string_of(&fused));
        assert(string_views(v@) =~= yoked(string_views(m.val_seq()[i as int]@)));
        proof {
            out.lemma_entries();
            if out@.contains_key(k@) {
                let j = choose|j: int| 0 <= j < out.key_seq().len() && out.key_seq()[j] == k@;
                assert(ks[j] == ks[i as int]);
            }
        }
        let ghost old_vals = out.val_seq();
        out.insert(k, v);
        proof {
            assert(ks.take(i + 1) =~= ks.take(i as int).push(ks[i as int]));
            assert forall|j: int|
                0 <= j < i + 1 implies string_views((#[trigger] out.val_seq()[j])@) == yoked(
                string_views(m.val_seq()[j]@),
            ) by {
                if j < i {
                    assert(out.val_seq()[j] == old_vals[j]);
                }
            }
        }
        i += 1;
    }
    proof {
        assert(ks.take(n as int) =~= ks);
        out.lemma_entries();
        let lhs = cand_view(out@);
        let rhs = cand_view(m@).map_values(|c: Seq<Seq<char>>| yoked(c));
        assert forall|k: Seq<char>| lhs.contains_key(k) <==> rhs.contains_key(k) by {
            if out@.contains_key(k) {
                let j = choose|j: int| 0 <= j < out.key_seq().len() && out.key_seq()[j] == k;
                assert(m@.contains_key(ks[j]));
            }
            if m@.contains_key(k) {
                let j = choose|j: int| 0 <= j < ks.len() && ks[j] == k;
                assert(out@.contains_key(out.key_seq()[j]));
            }
        }
        assert forall|k: Seq<char>| #[trigger] lhs.contains_key(k) implies lhs[k] == rhs[k] by {
            let j = choose|j: int| 0 <= j < out.key_seq().len() && out.key_seq()[j] == k;
            assert(out@[out.key_seq()[j]] == out.val_seq()[j]);
            assert(m@[ks[j]] == m.val_seq()[j]);
        }
        assert(lhs =~= rhs);
    }
    out
}

/// Composite bags: each token is replaced by its candidates fused into one
/// middle-dot-joined token; a token without an entry is dropped.
pub fn sv_buildcompositebags(sentences: &KeyedMap<String>, mm: &KeyedMap<Vec<String>>) -> (r: KeyedMap<String>)
    requires
        sentences.wf(),
        mm.wf(),
    ensures
        r.wf(),
        text_view(r@) == text_view(sentences@).map_values(
            |s: Seq<char>| composite_bag(s, cand_view(mm@)),
        ),
{
    let yokes = yoke_all(mm);
    let r = bag_sentences(sentences, &yokes);
    assert(text_view(r@) =~= text_view(sentences@).map_values(
        |s: Seq<char>| composite_bag(s, cand_view(mm@)),
    ));
    r
}


/// The candidates of the listed keys of `m`, in key order, repeats kept.
pub open spec fn all_candidates(keys: Seq<Seq<char>>, m: Map<Seq<char>, Seq<Seq<char>>>) -> Seq<
    Seq<char>,
>
    decreases keys.len(),
{
    if keys.len() == 0 {
        Seq::empty()
    } else {
        all_candidates(keys.drop_last(), m) + m[keys.last()]
    }
}

/// Every distinct candidate headword of the map, in order of first occurrence.
pub fn sv_allheadwords(parsemap: &KeyedMap<Vec<String>>) -> (r: Vec<String>)
    requires
        parsemap.wf(),
    ensures
        string_views(r@) == dedup(all_candidates(parsemap.key_seq(), cand_view(parsemap@))),
{
    let ghost ks = parsemap.key_seq();
    let ghost m = cand_view(parsemap@);
    let mut all: Vec<String> = Vec::new();
    let n = parsemap.len();
    let mut i: usize = 0;
    proof {
        parsemap.lemma_entries();
        assert(ks.take(0) =~= Seq::<Seq<char>>::empty());
    }
    while i < n
        invariant
            i <= n,
            n == ks.len(),
            parsemap.wf(),
            ks == parsemap.key_seq(),
            m == cand_view(parsemap@),
            string_views(all@) == all_candidates(ks.take(i as int), m),
        decreases n - i,
    {
        let cands = parsemap.value_at(i);
        proof {
            parsemap.lemma_entries();
            assert(m[ks[i as int]] == string_views(cands@));
            assert(ks.take(i + 1).drop_last() =~= ks.take(i as int));
        }
        let ghost base = string_views(all@);
        let mut j: usize = 0;
        assert(string_views(cands@).take(0) =~= Seq::<Seq<char>>::empty());
        while j < cands.len()
            invariant
                j <= cands.len(),
                string_views(all@) == base + string_views(cands@).take(j as int),
            decreases cands.len() - j,
        {
            let c = cands[j].clone();
            let ghost before = all@;
            all.push(c);
            assert(string_views(all@) =~= string_views(before).push(cands@[j as int]@));
            assert(string_views(cands@).take(j + 1) =~= string_views(cands@).take(j as int).push(
                cands@[j as int]@,
            ));
            j += 1;
        }
        assert(string_views(cands@).take(cands@.len() as int) =~= string_views(cands@));
        i += 1;
    }
    assert(ks.take(n as int) =~= ks);
    dedup_strings(&all)
}

/// The counts of headword rows taken in order; a later row overwrites an earlier one.
pub open spec fn count_rows(rows: Seq<(Seq<char>, i32)>) -> Map<Seq<char>, i32>
    decreases rows.len(),
{
    if rows.len() == 0 {
        Map::empty()
    } else {
        count_rows(rows.drop_last()).insert(rows.last().0, rows.last().1)
    }
}

/// `m` with each of `hw` that it lacks given the count 0.
pub open spec fn with_zero(m: Map<Seq<char>, i32>, hw: Seq<Seq<char>>) -> Map<Seq<char>, i32>
    decreases hw.len(),
{
    if hw.len() == 0 {
        m
    } else {
        let prev = with_zero(m, hw.drop_last());
        if prev.contains_key(hw.last()) {
            prev
        } else {
            prev.insert(hw.last(), 0)
        }
    }
}

/// The score of every requested headword: its fetched count, or 0 where no
/// count was fetched.
pub open spec fn headword_scores(hw: Seq<Seq<char>>, rows: Seq<WeightedHeadword>) -> Map<Seq<char>, i32> {
    with_zero(count_rows(rows.map_values(|w: WeightedHeadword| (w.wd@, w.ct))), hw)
}

/// Merges the fetched headword counts into a score map in which every
/// requested headword has a score; those never seen score 0.
pub fn sv_headwordscores(hw: &Vec<String>, rows: &Vec<WeightedHeadword>) -> (r: KeyedMap<i32>)
    ensures
        r.wf(),
        r@ == headword_scores(string_views(hw@), rows@),
{
    let ghost rv = rows@.map_values(|w: WeightedHeadword| (w.wd@, w.ct));
    let mut m: KeyedMap<i32> = KeyedMap::new();
    let mut i: usize = 0;
    assert(m@ =~= count_rows(rv.take(0)));
    while i < rows.len()
        invariant
            i <= rows.len(),
            rv == rows@.map_values(|w: WeightedHeadword| (w.wd@, w.ct)),
            m.wf(),
            m@ == count_rows(rv.take(i as int)),
        decreases rows.len() - i,
    {
        let key = rows[i].wd.clone();
        m.insert(key, rows[i].ct);
        assert(rv.take(i + 1).drop_last() =~= rv.take(i as int));
        i += 1;
    }
    assert(rv.take(rows@.len() as int) =~= rv);
    let ghost base = count_rows(rv);
    let ghost ws = string_views(hw@);
    let mut j: usize = 0;
    assert(ws.take(0) =~= Seq::<Seq<char>>::empty());
    while j < hw.len()
        invariant
            j <= hw.len(),
            ws == string_views(hw@),
            m.wf(),
            m@ == with_zero(base, ws.take(j as int)),
        decreases hw.len() - j,
    {
        assert(ws.take(j + 1).drop_last() =~= ws.take(j as int));
        if !m.contains_key(hw[j].as_str()) {
            m.insert(hw[j].clone(), 0);
        }
        j += 1;
    }
    assert(ws.take(hw@.len() as int) =~= ws);
    m
}

/// The candidate map with keys and candidates decapitalised, keys taken in
/// order; where two keys meet, the later one's candidates stand.
pub open spec fn lowered_cands(keys: Seq<Seq<char>>, m: Map<Seq<char>, Seq<Seq<char>>>) -> Map<
    Seq<char>,
    Seq<Seq<char>>,
>
    decreases keys.len(),
{
    if keys.len() == 0 {
        Map::empty()
    } else {
        lowered_cands(keys.drop_last(), m).insert(
            decapitalized(keys.last()),
            m[keys.last()].map_values(|c: Seq<char>| decapitalized(c)),
        )
    }
}

/// The score map with keys decapitalised, keys taken in order; where two
/// keys meet, the later one's score stands.
pub open spec fn lowered_scores(keys: Seq<Seq<char>>, m: Map<Seq<char>, i32>) -> Map<Seq<char>, i32>
    decreases keys.len(),
{
    if keys.len() == 0 {
        Map::empty()
    } else {
        lowered_scores(keys.drop_last(), m).insert(decapitalized(keys.last()), m[keys.last()])
    }
}

/// The score of a headword: its entry, or 0 where it has none.
pub open spec fn score_of(scores: Map<Seq<char>, i32>, h: Seq<char>) -> int {
    if scores.contains_key(h) {
        scores[h] as int
    } else {
        0
    }
}

/// The highest-scoring candidate; among equal scores the one listed last.
pub open spec fn best(cands: Seq<Seq<char>>, scores: Map<Seq<char>, i32>) -> Option<Seq<char>>
    decreases cands.len(),
{
    if cands.len() == 0 {
        None
    } else {
        match best(cands.drop_last(), scores) {
            None => Some(cands.last()),
            Some(b) => if score_of(scores, cands.last()) >= score_of(scores, b) {
                Some(cands.last())
            } else {
                Some(b)
            },
        }
    }
}

/// What a token becomes under WinnerTakesAll: its winning candidate alone,
/// or nothing where it has no candidate.
pub open spec fn winner_of(cands: Seq<Seq<char>>, scores: Map<Seq<char>, i32>) -> Seq<Seq<char>> {
    match best(cands, scores) {
        Some(w) => seq![w],
        None => Seq::empty(),
    }
}

/// The replacement that WinnerTakesAll applies, over the decapitalised maps.
pub open spec fn winners(lc: Map<Seq<char>, Seq<Seq<char>>>, scores: Map<Seq<char>, i32>) -> Map<
    Seq<char>,
    Seq<Seq<char>>,
> {
    lc.map_values(|c: Seq<Seq<char>>| winner_of(c, scores))
}

/// The bag of a sentence under WinnerTakesAll.
pub open spec fn winner_bag(
    s: Seq<char>,
    pkeys: Seq<Seq<char>>,
    pm: Map<Seq<char>, Seq<Seq<char>>>,
    skeys: Seq<Seq<char>>,
    sm: Map<Seq<char>, i32>,
) -> Seq<char> {
    bag_of(s, winners(lowered_cands(pkeys, pm), lowered_scores(skeys, sm)))
}

fn lower_strings(v: &Vec<String>) -> (r: Vec<String>)
    ensures
        string_views(r@) == string_views(v@).map_values(|c: Seq<char>| decapitalized(c)),
{
    let mut out: Vec<String> = Vec::new();
    let mut i: usize = 0;
    while i < v.len()
        invariant
            i <= v.len(),
            string_views(out@) == string_views(v@).take(i as int).map_values(
                |c: Seq<char>| decapitalized(c),
            ),
        decreases v.len() - i,
    {
        let s = str_lcs(v[i].as_str());
        let ghost before = out@;
        out.push(s);
        assert(string_views(out@) =~= string_views(before).push(s@));
        assert(string_views(v@).take(i + 1).map_values(|c: Seq<char>| decapitalized(c))
            =~= string_views(v@).take(i as int).map_values(|c: Seq<char>| decapitalized(c)).push(
            decapitalized(v@[i as int]@),
        ));
        i += 1;
    }
    assert(string_views(v@).take(v@.len() as int) =~= string_views(v@));
    out
}

fn lower_candidates(m: &KeyedMap<Vec<String>>) -> (r: KeyedMap<Vec<String>>)
    requires
        m.wf(),
    ensures
        r.wf(),
        cand_view(r@) == lowered_cands(m.key_seq(), cand_view(m@)),
{
    let ghost ks = m.key_seq();
    let ghost cm = cand_view(m@);
    let mut out: KeyedMap<Vec<String>> = KeyedMap::new();
    let n = m.len();
    let mut i: usize = 0;
    proof {
        assert(ks.take(0) =~= Seq::<Seq<char>>::empty());
        assert(cand_view(out@) =~= lowered_cands(ks.take(0), cm));
    }
    while i < n
        invariant
            i <= n,
            n == ks.len(),
            m.wf(),
            out.wf(),
            ks == m.key_seq(),
            cm == cand_view(m@),
            cand_view(out@) == lowered_cands(ks.take(i as int), cm),
        decreases n - i,
    {
        proof {
            m.lemma_entries();
            assert(m@.contains_key(ks[i as int]));
            assert(ks.take(i + 1).drop_last() =~= ks.take(i as int));
        }
        let k = str_lcs(m.key_at(i).as_str());
        let v = lower_strings(m.value_at(i));
        let ghost before = out@;
        out.insert(k, v);
        assert(cand_view(out@) =~= cand_view(before).insert(k@, string_views(v@)));
        i += 1;
    }
    assert(ks.take(n as int) =~= ks);
    out
}

fn lower_scores(m: &KeyedMap<i32>) -> (r: KeyedMap<i32>)
    requires
        m.wf(),
    ensures
        r.wf(),
        r@ == lowered_scores(m.key_seq(), m@),
{
    let ghost ks = m.key_seq();
    let mut out: KeyedMap<i32> = KeyedMap::new();
    let n = m.len();
    let mut i: usize = 0;
    proof {
        assert(ks.take(0) =~= Seq::<Seq<char>>::empty());
        assert(out@ =~= lowered_scores(ks.take(0), m@));
    }
    while i < n
        invariant
            i <= n,
            n == ks.len(),
            m.wf(),
            out.wf(),
            ks == m.key_seq(),
            out@ == lowered_scores(ks.take(i as int), m@),
        decreases n - i,
    {
        proof {
            m.lemma_entries();
            assert(m@.contains_key(ks[i as int]));
            assert(ks.take(i + 1).drop_last() =~= ks.take(i as int));
        }
        let k = str_lcs(m.key_at(i).as_str());
        let v = *m.value_at(i);
        out.insert(k, v);
        i += 1;
    }
    assert(ks.take(n as int) =~= ks);
    out
}

fn winner_exec(cands: &Vec<String>, scores: &KeyedMap<i32>) -> (r: Vec<String>)
    requires
        scores.wf(),
    ensures
        string_views(r@) == winner_of(string_views(cands@), scores@),
{
    let ghost cs = string_views(cands@);
    let mut found = false;
    let mut bi: usize = 0;
    let mut bs: i64 = 0;
    let mut i: usize = 0;
    assert(cs.take(0) =~= Seq::<Seq<char>>::empty());
    while i < cands.len()
        invariant
            i <= cands.len(),
            cs == string_views(cands@),
            scores.wf(),
            found ==> bi < i,
            found ==> best(cs.take(i as int), scores@) == Some(cs[bi as int]),
            found ==> bs == score_of(scores@, cs[bi as int]),
            !found ==> best(cs.take(i as int), scores@) is None,
            !found ==> i == 0,
        decreases cands.len() - i,
    {
        assert(cs.take(i + 1).drop_last() =~= cs.take(i as int));
        let sc: i64 = match scores.get(cands[i].as_str()) {
            Some(v) => *v as i64,
            None => 0,
        };
        if !found || sc >= bs {
            found = true;
            bi = i;
            bs = sc;
        }
        i += 1;
    }
    assert(cs.take(cands@.len() as int) =~= cs);
    let mut out: Vec<String> = Vec::new();
    if found {
        out.push(cands[bi].clone());
        assert(string_views(out@) =~= seq![cs[bi as int]]);
    } else {
        assert(string_views(out@) =~= Seq::<Seq<char>>::empty());
    }
    out
}

fn choose_winners(lc: &KeyedMap<Vec<String>>, scores: &KeyedMap<i32>) -> (r: KeyedMap<Vec<String>>)
    requires
        lc.wf(),
        scores.wf(),
    ensures
        r.wf(),
        cand_view(r@) == winners(cand_view(lc@), scores@),
{
    let ghost ks = lc.key_seq();
    let mut out: KeyedMap<Vec<String>> = KeyedMap::new();
    let n = lc.len();
    let mut i: usize = 0;
    assert(ks.take(0) =~= Seq::<Seq<char>>::empty());
    while i < n
        invariant
            i <= n,
            n == ks.len(),
            lc.wf(),
            scores.wf(),
            out.wf(),
            ks == lc.key_seq(),
            out.key_seq() == ks.take(i as int),
            out.val_seq().len() == i,
            forall|j: int|
                0 <= j < i ==> string_views((#[trigger] out.val_seq()[j])@) == winner_of(
                    string_views(lc.val_seq()[j]@),
                    scores@,
                ),
        decreases n - i,
    {
        proof {
            lc.lemma_entries();
            lemma_fresh(lc, &out, i as int);
        }
        let k = lc.key_at(i).clone();
        let v = winner_exec(lc.value_at(i), scores);
        let ghost old_vals = out.val_seq();
        out.insert(k, v);
        proof {
            assert(ks.take(i + 1) =~= ks.take(i as int).push(ks[i as int]));
            assert forall|j: int|
                0 <= j < i + 1 implies string_views((#[trigger] out.val_seq()[j])@) == winner_of(
                string_views(lc.val_seq()[j]@),
                scores@,
            ) by {
                if j < i {
                    assert(out.val_seq()[j] == old_vals[j]);
                }
            }
        }
        i += 1;
    }
    proof {
        assert(ks.take(n as int) =~= ks);
        let rel = |a: Vec<String>, b: Vec<String>|
            string_views(b@) == winner_of(string_views(a@), scores@);
        assert forall|j: int| 0 <= j < lc.val_seq().len() implies #[trigger] rel(
            lc.val_seq()[j],
            out.val_seq()[j],
        ) by {
            lc.lemma_entries();
        }
        lemma_aligned(lc, &out, rel);
        assert(cand_view(out@) =~= winners(cand_view(lc@), scores@));
    }
    out
}

/// WinnerTakesAll bags: keys and candidates of the candidate map and the keys
/// of the score map are decapitalised, then each token is replaced by its
/// highest-scoring candidate (unscored candidates count 0; among equal scores
/// the one listed last wins); a token without a winner is dropped.
pub fn sv_buildwinnertakesallbags(
    sentences: &KeyedMap<String>,
    parsemap: &KeyedMap<Vec<String>>,
    scores: &KeyedMap<i32>,
) -> (r: KeyedMap<String>)
    requires
        sentences.wf(),
        parsemap.wf(),
        scores.wf(),
    ensures
        r.wf(),
        text_view(r@) == text_view(sentences@).map_values(
            |s: Seq<char>|
                winner_bag(s, parsemap.key_seq(), cand_view(parsemap@), scores.key_seq(), scores@),
        ),
{
    let lc = lower_candidates(parsemap);
    let ls = lower_scores(scores);
    let repl = choose_winners(&lc, &ls);
    let r = bag_sentences(sentences, &repl);
    assert(text_view(r@) =~= text_view(sentences@).map_values(
        |s: Seq<char>|
            winner_bag(s, parsemap.key_seq(), cand_view(parsemap@), scores.key_seq(), scores@),
    ));
    r
}


/// The bagging strategies; `Unchanged` is what an unknown strategy name
/// degrades to: the sentences are passed on as they are.
#[derive(Clone, Copy, Debug, PartialEq, Eq, Structural)]
pub enum Bagging {
    Flat,
    Composite,
    WinnerTakesAll,
    Unchanged,
}

/// The strategy a configuration name selects.
pub open spec fn bagging_named(name: Seq<char>) -> Bagging {
    if name == "flat"@ {
        Bagging::Flat
    } else if name == "alternates"@ {
        Bagging::Composite
    } else if name == "winnertakesall"@ {
        Bagging::WinnerTakesAll
    } else {
        Bagging::Unchanged
    }
}

/// The strategy named `name`: `flat`, `alternates` or `winnertakesall`;
/// any other name selects `Unchanged`.
pub fn sv_baggingmethod(name: &str) -> (r: Bagging)
    ensures
        r == bagging_named(name@),
{
    let cs = chars_of(name);
    if crate::text::chars_eq(&cs, &chars_of("flat")) {
        Bagging::Flat
    } else if crate::text::chars_eq(&cs, &chars_of("alternates")) {
        Bagging::Composite
    } else if crate::text::chars_eq(&cs, &chars_of("winnertakesall")) {
        Bagging::WinnerTakesAll
    } else {
        Bagging::Unchanged
    }
}

/// A copy of a map of texts.
fn copy_texts(m: &KeyedMap<String>) -> (r: KeyedMap<String>)
    requires
        m.wf(),
    ensures
        r.wf(),
        text_view(r@) == text_view(m@),
{
    let ghost ks = m.key_seq();
    let mut out: KeyedMap<String> = KeyedMap::new();
    let n = m.len();
    let mut i: usize = 0;
    assert(ks.take(0) =~= Seq::<Seq<char>>::empty());
    while i < n
        invariant
            i <= n,
            n == ks.len(),
            m.wf(),
            out.wf(),
            ks == m.key_seq(),
            out.key_seq() == ks.take(i as int),
            out.val_seq().len() == i,
            forall|j: int| 0 <= j < i ==> (#[trigger] out.val_seq()[j])@ == m.val_seq()[j]@,
        decreases n - i,
    {
        proof {
            m.lemma_entries();
            lemma_fresh(m, &out, i as int);
        }
        let k = m.key_at(i).clone();
        let v = m.value_at(i).clone();
        let ghost old_vals = out.val_seq();
        out.insert(k, v);
        proof {
            assert(ks.take(i + 1) =~= ks.take(i as int).push(ks[i as int]));
            assert forall|j: int| 0 <= j < i + 1 implies (#[trigger] out.val_seq()[j])@
                == m.val_seq()[j]@ by {
                if j < i {
                    assert(out.val_seq()[j] == old_vals[j]);
                }
            }
        }
        i += 1;
    }
    proof {
        assert(ks.take(n as int) =~= ks);
        let rel = |a: String, b: String| b@ == a@;
        assert forall|j: int| 0 <= j < m.val_seq().len() implies #[trigger] rel(
            m.val_seq()[j],
            out.val_seq()[j],
        ) by {
            m.lemma_entries();
        }
        lemma_aligned(m, &out, rel);
        assert(text_view(out@) =~= text_view(m@));
    }
    out
}

/// The bags of `sentences` under `method`. `scores` is read by
/// WinnerTakesAll only; `Unchanged` passes the sentences on as they are.
pub fn sv_buildbags(
    method: Bagging,
    sentences: &KeyedMap<String>,
    parsemap: &KeyedMap<Vec<String>>,
    scores: &KeyedMap<i32>,
) -> (r: KeyedMap<String>)
    requires
        sentences.wf(),
        parsemap.wf(),
        scores.wf(),
    ensures
        r.wf(),
        method == Bagging::Flat ==> text_view(r@) == text_view(sentences@).map_values(
            |s: Seq<char>| flat_bag(s, cand_view(parsemap@)),
        ),
        method == Bagging::Composite ==> text_view(r@) == text_view(sentences@).map_values(
            |s: Seq<char>| composite_bag(s, cand_view(parsemap@)),
        ),
        method == Bagging::WinnerTakesAll ==> text_view(r@) == text_view(sentences@).map_values(
            |s: Seq<char>|
                winner_bag(s, parsemap.key_seq(), cand_view(parsemap@), scores.key_seq(), scores@),
        ),
        method == Bagging::Unchanged ==> text_view(r@) == text_view(sentences@),
{
    match method {
        Bagging::Flat => sv_buildflatbags(sentences, parsemap),
        Bagging::Composite => sv_buildcompositebags(sentences, parsemap),
        Bagging::WinnerTakesAll => sv_buildwinnertakesallbags(sentences, parsemap, scores),
        Bagging::Unchanged => copy_texts(sentences),
    }
}

} // verus!
