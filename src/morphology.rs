//! Collection of the distinct tokens, their classification by script, and
//! the resolution of each token to its candidate headwords.

use vstd::hash_set::StringHashSet;
use vstd::prelude::*;

use crate::keyed::KeyedMap;
use crate::records::DbMorphology;
use crate::text::{
    capitalized, char_views, chars_of, split_chars, str_cap, string_of, string_views, words,
};

verus! {

/// The words of each text in turn, in order.
pub open spec fn words_in(texts: Seq<Seq<char>>) -> Seq<Seq<char>>
    decreases texts.len(),
{
    if texts.len() == 0 {
        Seq::empty()
    } else {
        words_in(texts.drop_last()) + words(texts.last())
    }
}

/// `s` without repeats, each item kept at its first occurrence.
pub open spec fn dedup(s: Seq<Seq<char>>) -> Seq<Seq<char>>
    decreases s.len(),
{
    if s.len() == 0 {
        s
    } else {
        let d = dedup(s.drop_last());
        if d.contains(s.last()) {
            d
        } else {
            d.push(s.last())
        }
    }
}

/// `dedup` keeps exactly the items of its argument, each once.
pub proof fn lemma_dedup(s: Seq<Seq<char>>)
    ensures
        dedup(s).no_duplicates(),
        forall|x: Seq<char>| dedup(s).contains(x) <==> s.contains(x),
    decreases s.len(),
{
    if s.len() > 0 {
        lemma_dedup(s.drop_last());
        let d = dedup(s.drop_last());
        let p = s.drop_last();
        assert forall|x: Seq<char>| dedup(s).contains(x) <==> s.contains(x) by {
            if s.contains(x) {
                let i = choose|i: int| 0 <= i < s.len() && s[i] == x;
                if i < s.len() - 1 {
                    assert(p[i] == x);
                    assert(p.contains(x));
                    assert(d.contains(x));
                    if !d.contains(s.last()) {
                        let j = choose|j: int| 0 <= j < d.len() && d[j] == x;
                        assert(d.push(s.last())[j] == x);
                    }
                } else {
                    assert(x == s.last());
                    if !d.contains(s.last()) {
                        assert(d.push(s.last())[d.len() as int] == x);
                    }
                }
            }
            if dedup(s).contains(x) {
                let j = choose|j: int| 0 <= j < dedup(s).len() && dedup(s)[j] == x;
                if d.contains(s.last()) {
                    assert(d.contains(x));
                } else if j < d.len() {
                    assert(d[j] == x);
                    assert(d.contains(x));
                } else {
                    assert(x == s.last());
                    assert(s[s.len() - 1] == x);
                }
                if d.contains(x) {
                    assert(p.contains(x));
                    let i = choose|i: int| 0 <= i < p.len() && p[i] == x;
                    assert(s[i] == x);
                }
            }
        }
    }
}

/// `all` without repeats, each item kept at its first occurrence.
pub fn dedup_strings(all: &Vec<String>) -> (r: Vec<String>)
    ensures
        string_views(r@) == dedup(string_views(all@)),
{
    let ghost flat = string_views(all@);
    let mut seen = StringHashSet::new();
    let mut out: Vec<String> = Vec::new();
    let mut k: usize = 0;
    assert(flat.take(0) =~= Seq::<Seq<char>>::empty());
    while k < all.len()
        invariant
            k <= all.len(),
            flat == string_views(all@),
            string_views(out@) == dedup(flat.take(k as int)),
            forall|x: Seq<char>| seen@.contains(x) <==> flat.take(k as int).contains(x),
        decreases all.len() - k,
    {
        let w = all[k].clone();
        proof {
            lemma_dedup(flat.take(k as int));
            assert(flat.take(k + 1).drop_last() =~= flat.take(k as int));
            assert(flat.take(k + 1).last() == w@);
        }
        if !seen.contains(w.as_str()) {
            seen.insert(w.clone());
            let ghost before = out@;
            out.push(w);
            proof {
                assert(string_views(out@) =~= string_views(before).push(flat[k as int]));
            }
        }
        proof {
            assert forall|x: Seq<char>| seen@.contains(x) <==> flat.take(k + 1).contains(x) by {
                let t1 = flat.take(k + 1);
                let t0 = flat.take(k as int);
                if t1.contains(x) && x != flat[k as int] {
                    let m = choose|m: int| 0 <= m < t1.len() && t1[m] == x;
                    assert(t0[m] == x);
                }
                if t0.contains(x) {
                    let m = choose|m: int| 0 <= m < t0.len() && t0[m] == x;
                    assert(t1[m] == x);
                }
            }
        }
        k += 1;
    }
    assert(flat.take(all@.len() as int) =~= flat);
    out
}

/// The distinct words of all `sentences`, in order of first occurrence.
pub fn sv_findallwords(sentences: &Vec<String>) -> (r: Vec<String>)
    ensures
        string_views(r@) == dedup(words_in(string_views(sentences@))),
{
    let ghost texts = string_views(sentences@);
    let mut all: Vec<String> = Vec::new();
    let mut i: usize = 0;
    assert(texts.take(0) =~= Seq::<Seq<char>>::empty());
    while i < sentences.len()
        invariant
            i <= sentences.len(),
            texts == string_views(sentences@),
            string_views(all@) == words_in(texts.take(i as int)),
        decreases sentences.len() - i,
    {
        let cs = chars_of(sentences[i].as_str());
        let ws = split_chars(&cs, false);
        let mut j: usize = 0;
        let ghost base = string_views(all@);
        assert(char_views(ws@).take(0) =~= Seq::<Seq<char>>::empty());
        while j < ws.len()
            invariant
                j <= ws.len(),
                string_views(all@) == base + char_views(ws@).take(j as int),
            decreases ws.len() - j,
        {
            let w = string_of(&ws[j]);
            let ghost before = all@;
            all.push(w);
            assert(string_views(all@) =~= string_views(before).push(ws@[j as int]@));
            assert(char_views(ws@).take(j + 1) =~= char_views(ws@).take(j as int).push(
                ws@[j as int]@,
            ));
            j += 1;
        }
        assert(char_views(ws@).take(ws@.len() as int) =~= char_views(ws@));
        assert(texts.take(i + 1).drop_last() =~= texts.take(i as int));
        i += 1;
    }
    assert(texts.take(sentences@.len() as int) =~= texts);
    dedup_strings(&all)
}

/// A token is Latin when it holds an ASCII lowercase letter; otherwise Greek.
pub open spec fn is_latin(w: Seq<char>) -> bool {
    exists|i: int| 0 <= i < w.len() && 'a' <= #[trigger] w[i] && w[i] <= 'z'
}

/// Whether `w` is a Latin token.
pub fn sv_islatin(w: &str) -> (r: bool)
    ensures
        r == is_latin(w@),
{
    let cs = chars_of(w);
    let mut i: usize = 0;
    while i < cs.len()
        invariant
            i <= cs.len(),
            cs@ == w@,
            forall|j: int| 0 <= j < i ==> !('a' <= #[trigger] cs@[j] && cs@[j] <= 'z'),
        decreases cs.len() - i,
    {
        if 'a' <= cs[i] && cs[i] <= 'z' {
            return true;
        }
        i += 1;
    }
    false
}

/// Splits `words` into the Latin ones and the Greek ones, each in the order given.
pub fn sv_partitionbylanguage(words: &Vec<String>) -> (r: (Vec<String>, Vec<String>))
    ensures
        string_views(r.0@) == string_views(words@).filter(|w: Seq<char>| is_latin(w)),
        string_views(r.1@) == string_views(words@).filter(|w: Seq<char>| !is_latin(w)),
{
    let ghost ws = string_views(words@);
    let mut latin: Vec<String> = Vec::new();
    let mut greek: Vec<String> = Vec::new();
    let mut i: usize = 0;
    proof {
        reveal(Seq::filter);
        assert(ws.take(0) =~= Seq::<Seq<char>>::empty());
    }
    while i < words.len()
        invariant
            i <= words.len(),
            ws == string_views(words@),
            string_views(latin@) == ws.take(i as int).filter(|w: Seq<char>| is_latin(w)),
            string_views(greek@) == ws.take(i as int).filter(|w: Seq<char>| !is_latin(w)),
        decreases words.len() - i,
    {
        proof {
            reveal(Seq::filter);
            assert(ws.take(i + 1).drop_last() =~= ws.take(i as int));
        }
        let w = words[i].clone();
        if sv_islatin(w.as_str()) {
            let ghost before = latin@;
            latin.push(w);
            assert(string_views(latin@) =~= string_views(before).push(ws[i as int]));
        } else {
            let ghost before = greek@;
            greek.push(w);
            assert(string_views(greek@) =~= string_views(before).push(ws[i as int]));
        }
        i += 1;
    }
    assert(ws.take(words@.len() as int) =~= ws);
    (latin, greek)
}

/// The forms to look a language's tokens up by: each token capitalised, since
/// proper nouns are stored so, then each token as it stands.
pub fn sv_searchterms(words: &Vec<String>) -> (r: Vec<String>)
    ensures
        string_views(r@) == string_views(words@).map_values(|w: Seq<char>| capitalized(w))
            + string_views(words@),
{
    let ghost ws = string_views(words@);
    let mut out: Vec<String> = Vec::new();
    let mut i: usize = 0;
    while i < words.len()
        invariant
            i <= words.len(),
            ws == string_views(words@),
            string_views(out@) == ws.take(i as int).map_values(|w: Seq<char>| capitalized(w)),
        decreases words.len() - i,
    {
        let c = str_cap(words[i].as_str());
        let ghost before = out@;
        out.push(c);
        assert(string_views(out@) =~= string_views(before).push(capitalized(ws[i as int])));
        assert(ws.take(i + 1).map_values(|w: Seq<char>| capitalized(w)) =~= ws.take(
            i as int,
        ).map_values(|w: Seq<char>| capitalized(w)).push(capitalized(ws[i as int])));
        i += 1;
    }
    assert(ws.take(words@.len() as int) =~= ws);
    let ghost caps = string_views(out@);
    let mut j: usize = 0;
    while j < words.len()
        invariant
            j <= words.len(),
            ws == string_views(words@),
            string_views(out@) == caps + ws.take(j as int),
        decreases words.len() - j,
    {
        let w = words[j].clone();
        let ghost before = out@;
        out.push(w);
        assert(string_views(out@) =~= string_views(before).push(ws[j as int]));
        assert(ws.take(j + 1) =~= ws.take(j as int).push(ws[j as int]));
        j += 1;
    }
    assert(ws.take(words@.len() as int) =~= ws);
    out
}

/// The candidate headwords recorded in a `related_headwords` column: its
/// whitespace-separated items.
pub fn sv_parsepossibilities(related: &str) -> (r: Vec<String>)
    ensures
        string_views(r@) == words(related@),
{
    let cs = chars_of(related);
    let ws = split_chars(&cs, false);
    let mut out: Vec<String> = Vec::new();
    let mut i: usize = 0;
    while i < ws.len()
        invariant
            i <= ws.len(),
            string_views(out@) == char_views(ws@).take(i as int),
        decreases ws.len() - i,
    {
        let s = string_of(&ws[i]);
        let ghost before = out@;
        out.push(s);
        assert(string_views(out@) =~= string_views(before).push(ws@[i as int]@));
        assert(char_views(ws@).take(i + 1) =~= char_views(ws@).take(i as int).push(ws@[i as int]@));
        i += 1;
    }
    assert(char_views(ws@).take(ws@.len() as int) =~= char_views(ws@));
    out
}

/// A copy of a list of strings.
pub fn clone_strings(v: &Vec<String>) -> (r: Vec<String>)
    ensures
        string_views(r@) == string_views(v@),
{
    let mut out: Vec<String> = Vec::new();
    let mut i: usize = 0;
    while i < v.len()
        invariant
            i <= v.len(),
            string_views(out@) == string_views(v@).take(i as int),
        decreases v.len() - i,
    {
        let s = v[i].clone();
        let ghost before = out@;
        out.push(s);
        assert(string_views(out@) =~= string_views(before).push(v@[i as int]@));
        assert(string_views(v@).take(i + 1) =~= string_views(v@).take(i as int).push(v@[i as int]@));
        i += 1;
    }
    assert(string_views(v@).take(v@.len() as int) =~= string_views(v@));
    out
}

/// The candidates of a map of candidate lists, as character sequences.
pub open spec fn cand_view(m: Map<Seq<char>, Vec<String>>) -> Map<Seq<char>, Seq<Seq<char>>> {
    m.map_values(|v: Vec<String>| string_views(v@))
}

/// What a morphology row contributes: its observed form and its candidates.
pub open spec fn row_view(m: DbMorphology) -> (Seq<char>, Seq<Seq<char>>) {
    (m.obs@, string_views(m.upo@))
}

/// The map of rows taken in order, a later row overwriting an earlier one
/// with the same observed form.
pub open spec fn rows_map(rows: Seq<(Seq<char>, Seq<Seq<char>>)>) -> Map<Seq<char>, Seq<Seq<char>>>
    decreases rows.len(),
{
    if rows.len() == 0 {
        Map::empty()
    } else {
        rows_map(rows.drop_last()).insert(rows.last().0, rows.last().1)
    }
}

/// `m` with each of `words` that it lacks mapped to itself alone.
pub open spec fn with_self(m: Map<Seq<char>, Seq<Seq<char>>>, words: Seq<Seq<char>>) -> Map<
    Seq<char>,
    Seq<Seq<char>>,
>
    decreases words.len(),
{
    if words.len() == 0 {
        m
    } else {
        let prev = with_self(m, words.drop_last());
        if prev.contains_key(words.last()) {
            prev
        } else {
            prev.insert(words.last(), seq![words.last()])
        }
    }
}

/// The resolution map: every row's candidates under its observed form, and
/// every token that no row names mapped to itself.
pub open spec fn resolution(words: Seq<Seq<char>>, rows: Seq<DbMorphology>) -> Map<
    Seq<char>,
    Seq<Seq<char>>,
> {
    with_self(rows_map(rows.map_values(|m: DbMorphology| row_view(m))), words)
}

/// Merges the morphology rows into a map from token to candidate headwords,
/// then maps each token of `words` that no row names to itself alone.
pub fn sv_buildmorphmap(words: &Vec<String>, rows: &Vec<DbMorphology>) -> (r: KeyedMap<Vec<String>>)
    ensures
        r.wf(),
        cand_view(r@) == resolution(string_views(words@), rows@),
{
    let ghost rv = rows@.map_values(|m: DbMorphology| row_view(m));
    let mut m: KeyedMap<Vec<String>> = KeyedMap::new();
    let mut i: usize = 0;
    assert(cand_view(m@) =~= rows_map(rv.take(0)));
    while i < rows.len()
        invariant
            i <= rows.len(),
            rv == rows@.map_values(|m: DbMorphology| row_view(m)),
            m.wf(),
            cand_view(m@) == rows_map(rv.take(i as int)),
        decreases rows.len() - i,
    {
        let key = rows[i].obs.clone();
        let val = clone_strings(&rows[i].upo);
        let ghost before = m@;
        m.insert(key, val);
        assert(rv.take(i + 1).drop_last() =~= rv.take(i as int));
        assert(cand_view(m@) =~= cand_view(before).insert(key@, string_views(val@)));
        i += 1;
    }
    assert(rv.take(rows@.len() as int) =~= rv);
    let ghost base = rows_map(rv);
    let ghost ws = string_views(words@);
    let mut j: usize = 0;
    assert(ws.take(0) =~= Seq::<Seq<char>>::empty());
    while j < words.len()
        invariant
            j <= words.len(),
            ws == string_views(words@),
            m.wf(),
            cand_view(m@) == with_self(base, ws.take(j as int)),
        decreases words.len() - j,
    {
        assert(ws.take(j + 1).drop_last() =~= ws.take(j as int));
        if !m.contains_key(words[j].as_str()) {
            let key = words[j].clone();
            let mut val: Vec<String> = Vec::new();
            val.push(words[j].clone());
            let ghost before = m@;
            m.insert(key, val);
            assert(string_views(val@) =~= seq![ws[j as int]]);
            assert(cand_view(m@) =~= cand_view(before).insert(key@, string_views(val@)));
        }
        j += 1;
    }
    assert(ws.take(words@.len() as int) =~= ws);
    m
}

} // verus!
