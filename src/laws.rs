//! Laws that relate the stages of the pipeline to one another.

use vstd::prelude::*;
use vstd::seq_lib::lemma_sorted_unique;

use crate::assemble::{assembled, key_order, lemma_key_order_total, line_key};
use crate::bagging::{
    bag_of, best, collapse_spaces, composite_bag, flat_bag, replaced_words, winner_of, winners,
    yoked,
};
use crate::stopwords::dropped;
use crate::text::{is_separator, join, split_words, words};
use crate::morphology::{resolution, row_view, rows_map, with_self};
use crate::pipeline::prepared;
use crate::records::{DbMorphology, DBLine};
use crate::store::{bag_record, bag_records};

verus! {

/// The sentences prepared from a set of lines do not depend on the order in
/// which the lines arrive: two line sequences holding the same lines (work
/// id, index and text, with the same multiplicities) give the same sentence
/// map.
pub proof fn lemma_sentences_ignore_line_order(a: Seq<DBLine>, b: Seq<DBLine>, size: nat)
    requires
        a.map_values(|l: DBLine| line_key(l)).to_multiset() == b.map_values(
            |l: DBLine| line_key(l),
        ).to_multiset(),
    ensures
        prepared(a, size) == prepared(b, size),
{
    let ka = a.map_values(|l: DBLine| line_key(l));
    let kb = b.map_values(|l: DBLine| line_key(l));
    lemma_key_order_total();
    ka.lemma_sort_by_ensures(key_order());
    kb.lemma_sort_by_ensures(key_order());
    lemma_sorted_unique(ka.sort_by(key_order()), kb.sort_by(key_order()), key_order());
    assert(assembled(a) == assembled(b));
}

proof fn lemma_with_self(m: Map<Seq<char>, Seq<Seq<char>>>, ws: Seq<Seq<char>>, w: Seq<char>)
    requires
        ws.contains(w),
        !m.contains_key(w),
    ensures
        with_self(m, ws).contains_key(w),
        with_self(m, ws)[w] == seq![w],
    decreases ws.len(),
{
    let prev = with_self(m, ws.drop_last());
    if ws.drop_last().contains(w) {
        lemma_with_self(m, ws.drop_last(), w);
    } else {
        let i = choose|i: int| 0 <= i < ws.len() && ws[i] == w;
        if i < ws.len() - 1 {
            assert(ws.drop_last()[i] == w);
        }
        assert(w == ws.last());
        if prev.contains_key(w) {
            lemma_with_self_keys(m, ws.drop_last(), w);
        }
    }
}

proof fn lemma_with_self_keys(m: Map<Seq<char>, Seq<Seq<char>>>, ws: Seq<Seq<char>>, w: Seq<char>)
    requires
        with_self(m, ws).contains_key(w),
    ensures
        m.contains_key(w) || ws.contains(w),
    decreases ws.len(),
{
    if ws.len() > 0 {
        let prev = with_self(m, ws.drop_last());
        if prev.contains_key(w) {
            lemma_with_self_keys(m, ws.drop_last(), w);
            if ws.drop_last().contains(w) {
                let i = choose|i: int| 0 <= i < ws.drop_last().len() && ws.drop_last()[i] == w;
                assert(ws[i] == w);
            }
        } else {
            assert(ws[ws.len() - 1] == w);
        }
    }
}

/// A token that no morphology row names is kept in the resolution map,
/// mapped to itself alone.
pub proof fn lemma_unresolved_maps_to_itself(words: Seq<Seq<char>>, rows: Seq<DbMorphology>, w: Seq<char>)
    requires
        words.contains(w),
        !rows_map(rows.map_values(|m: DbMorphology| row_view(m))).contains_key(w),
    ensures
        resolution(words, rows).contains_key(w),
        resolution(words, rows)[w] == seq![w],
{
    lemma_with_self(rows_map(rows.map_values(|m: DbMorphology| row_view(m))), words, w);
}

/// Disambiguation is idempotent: run again against the same scores on its
/// own choices, it chooses the same headword for every token.
pub proof fn lemma_winners_idempotent(lc: Map<Seq<char>, Seq<Seq<char>>>, scores: Map<Seq<char>, i32>)
    ensures
        winners(winners(lc, scores), scores) == winners(lc, scores),
{
    let once = winners(lc, scores);
    assert forall|k: Seq<char>| #[trigger] once.contains_key(k) implies winner_of(once[k], scores)
        == once[k] by {
        let c = lc[k];
        match best(c, scores) {
            Some(x) => {
                let s = seq![x];
                assert(s.drop_last() =~= Seq::<Seq<char>>::empty());
                assert(best(s, scores) == Some(x));
            },
            None => {
                assert(best(Seq::<Seq<char>>::empty(), scores) is None);
            },
        }
    }
    assert(winners(once, scores) =~= once);
}

/// No stored record comes from an empty bag: each record is the record of a
/// listed bag that holds text.
pub proof fn lemma_no_empty_bag_stored(locs: Seq<Seq<char>>, bags: Seq<Seq<char>>, r: int)
    requires
        locs.len() == bags.len(),
        0 <= r < bag_records(locs, bags).len(),
    ensures
        exists|i: int|
            0 <= i < locs.len() && i < bags.len() && bags[i].len() > 0
                && #[trigger] bag_records(locs, bags)[r] == bag_record(locs[i], bags[i]),
    decreases locs.len(),
{
    let prev = bag_records(locs.drop_last(), bags.drop_last());
    if r < prev.len() {
        lemma_no_empty_bag_stored(locs.drop_last(), bags.drop_last(), r);
        let i = choose|i: int|
            0 <= i < locs.drop_last().len() && i < bags.drop_last().len()
                && bags.drop_last()[i].len() > 0 && #[trigger] prev[r] == bag_record(
                locs.drop_last()[i],
                bags.drop_last()[i],
            );
        assert(locs[i] == locs.drop_last()[i]);
        assert(bags[i] == bags.drop_last()[i]);
        assert(bag_records(locs, bags)[r] == prev[r]);
    } else {
        let i = locs.len() - 1;
        assert(bags.last().len() > 0);
        assert(bag_records(locs, bags)[r] == bag_record(locs[i], bags[i]));
    }
}


proof fn lemma_words_shape(s: Seq<char>, ascii_only: bool)
    ensures
        forall|i: int|
            0 <= i < split_words(s, ascii_only).len() ==> (#[trigger] split_words(s, ascii_only)[i]).len() > 0,
        forall|i: int, j: int|
            0 <= i < split_words(s, ascii_only).len() && 0 <= j < split_words(s, ascii_only)[i].len()
                ==> !is_separator(#[trigger] split_words(s, ascii_only)[i][j], ascii_only),
        s.len() > 0 && !is_separator(s.last(), ascii_only) ==> split_words(s, ascii_only).len() > 0,
    decreases s.len(),
{
    if s.len() > 0 {
        let p = s.drop_last();
        lemma_words_shape(p, ascii_only);
        let prev = split_words(p, ascii_only);
        let c = s.last();
        let cur = split_words(s, ascii_only);
        if !is_separator(c, ascii_only) {
            if s.len() >= 2 && !is_separator(s[s.len() - 2], ascii_only) {
                assert(p.last() == s[s.len() - 2]);
                assert(prev.len() > 0);
                let w = prev.last().push(c);
                assert forall|i: int, j: int| 0 <= i < cur.len() && 0 <= j < cur[i].len() implies !is_separator(
                    #[trigger] cur[i][j],
                    ascii_only,
                ) by {
                    if i < cur.len() - 1 {
                        assert(cur[i] == prev[i]);
                    } else if j < w.len() - 1 {
                        assert(cur[i][j] == prev[prev.len() - 1][j]);
                    }
                }
                assert forall|i: int| 0 <= i < cur.len() implies (#[trigger] cur[i]).len() > 0 by {
                    if i < cur.len() - 1 {
                        assert(cur[i] == prev[i]);
                    }
                }
            } else {
                assert forall|i: int, j: int| 0 <= i < cur.len() && 0 <= j < cur[i].len() implies !is_separator(
                    #[trigger] cur[i][j],
                    ascii_only,
                ) by {
                    if i < cur.len() - 1 {
                        assert(cur[i] == prev[i]);
                    }
                }
                assert forall|i: int| 0 <= i < cur.len() implies (#[trigger] cur[i]).len() > 0 by {
                    if i < cur.len() - 1 {
                        assert(cur[i] == prev[i]);
                    }
                }
            }
        }
    }
}

proof fn lemma_replaced_identity(ws: Seq<Seq<char>>, repl: Map<Seq<char>, Seq<Seq<char>>>)
    requires
        forall|i: int|
            0 <= i < ws.len() ==> repl.contains_key(#[trigger] ws[i]) && repl[ws[i]] == seq![ws[i]],
    ensures
        replaced_words(ws, repl) == ws,
    decreases ws.len(),
{
    if ws.len() > 0 {
        assert forall|i: int| 0 <= i < ws.drop_last().len() implies repl.contains_key(
            #[trigger] ws.drop_last()[i],
        ) && repl[ws.drop_last()[i]] == seq![ws.drop_last()[i]] by {
            assert(ws.drop_last()[i] == ws[i]);
        }
        lemma_replaced_identity(ws.drop_last(), repl);
        assert(repl.contains_key(ws[ws.len() - 1]));
        assert(ws.drop_last() + seq![ws.last()] =~= ws);
    }
}

/// No two spaces stand side by side in `s`.
pub open spec fn single_spaced(s: Seq<char>) -> bool {
    forall|i: int| 0 <= i < s.len() - 1 ==> !(#[trigger] s[i] == ' ' && s[i + 1] == ' ')
}

proof fn lemma_collapse_identity(s: Seq<char>)
    requires
        single_spaced(s),
    ensures
        collapse_spaces(s) == s,
    decreases s.len(),
{
    if s.len() > 0 {
        let p = s.drop_last();
        assert forall|i: int| 0 <= i < p.len() - 1 implies !(#[trigger] p[i] == ' ' && p[i + 1] == ' ') by {
            assert(p[i] == s[i] && p[i + 1] == s[i + 1]);
        }
        lemma_collapse_identity(p);
        if s.len() >= 2 {
            assert(!(s[s.len() - 2] == ' ' && s[s.len() - 1] == ' '));
        }
        assert(p.push(s.last()) =~= s);
    }
}

proof fn lemma_join_single_spaced(ws: Seq<Seq<char>>)
    requires
        forall|i: int| 0 <= i < ws.len() ==> (#[trigger] ws[i]).len() > 0,
        forall|i: int, j: int| 0 <= i < ws.len() && 0 <= j < ws[i].len() ==> #[trigger] ws[i][j] != ' ',
    ensures
        single_spaced(join(ws, seq![' '])),
        ws.len() > 0 ==> join(ws, seq![' ']).len() > 0 && join(ws, seq![' ']).last() != ' ',
    decreases ws.len(),
{
    if ws.len() == 1 {
        assert(ws[0].last() == ws[0][ws[0].len() - 1]);
    } else if ws.len() > 1 {
        let p = ws.drop_last();
        assert forall|i: int| 0 <= i < p.len() implies (#[trigger] p[i]).len() > 0 by {
            assert(p[i] == ws[i]);
        }
        assert forall|i: int, j: int| 0 <= i < p.len() && 0 <= j < p[i].len() implies #[trigger] p[i][j]
            != ' ' by {
            assert(p[i] == ws[i]);
        }
        lemma_join_single_spaced(p);
        let a = join(p, seq![' ']);
        let l = ws.last();
        let t = join(ws, seq![' ']);
        assert(t == a + seq![' '] + l);
        assert(l.len() > 0);
        assert(l[0] == ws[ws.len() - 1][0]);
        assert(l[l.len() - 1] == ws[ws.len() - 1][l.len() - 1]);
        assert forall|i: int| 0 <= i < t.len() - 1 implies !(#[trigger] t[i] == ' ' && t[i + 1] == ' ') by {
            if i < a.len() - 1 {
                assert(t[i] == a[i] && t[i + 1] == a[i + 1]);
            } else if i == a.len() - 1 {
                assert(t[i] == a.last());
            } else if i == a.len() {
                assert(t[i + 1] == l[0]);
            } else {
                assert(t[i] == l[i - a.len() - 1]);
                assert(t[i + 1] == l[i - a.len()]);
                assert(ws[ws.len() - 1][i - a.len() - 1] != ' ');
            }
        }
        assert(t.last() == l[l.len() - 1]);
    }
}

/// A sentence whose every token maps to itself alone keeps its tokens: its
/// bag is its words joined by single spaces.
pub proof fn lemma_self_mapped_bag(s: Seq<char>, repl: Map<Seq<char>, Seq<Seq<char>>>)
    requires
        forall|i: int|
            0 <= i < words(s).len() ==> repl.contains_key(#[trigger] words(s)[i]) && repl[words(s)[i]]
                == seq![words(s)[i]],
    ensures
        bag_of(s, repl) == join(words(s), seq![' ']),
{
    lemma_replaced_identity(words(s), repl);
    lemma_words_shape(s, false);
    let ws = words(s);
    assert forall|i: int, j: int| 0 <= i < ws.len() && 0 <= j < ws[i].len() implies #[trigger] ws[i][j]
        != ' ' by {
        assert(!is_separator(ws[i][j], false));
    }
    lemma_join_single_spaced(ws);
    lemma_collapse_identity(join(ws, seq![' ']));
}

/// Under Flat, tokens mapped to themselves alone survive as they are.
pub proof fn lemma_self_mapped_flat(s: Seq<char>, cands: Map<Seq<char>, Seq<Seq<char>>>)
    requires
        forall|i: int|
            0 <= i < words(s).len() ==> cands.contains_key(#[trigger] words(s)[i])
                && cands[words(s)[i]] == seq![words(s)[i]],
    ensures
        flat_bag(s, cands) == join(words(s), seq![' ']),
{
    lemma_self_mapped_bag(s, cands);
}

/// Under Composite, tokens mapped to themselves alone survive as they are.
pub proof fn lemma_self_mapped_composite(s: Seq<char>, cands: Map<Seq<char>, Seq<Seq<char>>>)
    requires
        forall|i: int|
            0 <= i < words(s).len() ==> cands.contains_key(#[trigger] words(s)[i])
                && cands[words(s)[i]] == seq![words(s)[i]],
    ensures
        composite_bag(s, cands) == join(words(s), seq![' ']),
{
    let y = cands.map_values(|c: Seq<Seq<char>>| yoked(c));
    assert forall|i: int| 0 <= i < words(s).len() implies y.contains_key(#[trigger] words(s)[i])
        && y[words(s)[i]] == seq![words(s)[i]] by {
        let w = words(s)[i];
        assert(cands[w] == seq![w]);
        assert(join(seq![w], seq!['·']) == w);
    }
    lemma_self_mapped_bag(s, y);
}

/// Under WinnerTakesAll, tokens whose decapitalised candidates are
/// themselves alone survive as they are, whatever the scores.
pub proof fn lemma_self_mapped_winner(
    s: Seq<char>,
    lc: Map<Seq<char>, Seq<Seq<char>>>,
    scores: Map<Seq<char>, i32>,
)
    requires
        forall|i: int|
            0 <= i < words(s).len() ==> lc.contains_key(#[trigger] words(s)[i]) && lc[words(s)[i]]
                == seq![words(s)[i]],
    ensures
        bag_of(s, winners(lc, scores)) == join(words(s), seq![' ']),
{
    let wm = winners(lc, scores);
    assert forall|i: int| 0 <= i < words(s).len() implies wm.contains_key(#[trigger] words(s)[i])
        && wm[words(s)[i]] == seq![words(s)[i]] by {
        let w = words(s)[i];
        let c = seq![w];
        assert(c.drop_last() =~= Seq::<Seq<char>>::empty());
        assert(best(c.drop_last(), scores) is None);
        assert(c.last() == w);
        assert(best(c, scores) == Some(w));
        assert(lc[w] == c);
    }
    lemma_self_mapped_bag(s, wm);
}


/// A word: non-empty and free of whitespace.
pub open spec fn is_word(w: Seq<char>) -> bool {
    w.len() > 0 && forall|j: int| 0 <= j < w.len() ==> !is_separator(#[trigger] w[j], false)
}

proof fn lemma_split_word_suffix(a: Seq<char>, w: Seq<char>, k: int)
    requires
        is_word(w),
        1 <= k <= w.len(),
        a.len() == 0 || is_separator(a.last(), false),
    ensures
        split_words(a + w.take(k), false) == split_words(a, false).push(w.take(k)),
    decreases k,
{
    let t = a + w.take(k);
    assert(t.last() == w[k - 1]);
    if k == 1 {
        assert(t.drop_last() =~= a);
        assert(w.take(1) =~= seq![w[0]]);
        if t.len() >= 2 {
            assert(t[t.len() - 2] == a.last());
        }
    } else {
        lemma_split_word_suffix(a, w, k - 1);
        assert(t.drop_last() =~= a + w.take(k - 1));
        assert(t[t.len() - 2] == w[k - 2]);
        assert(w.take(k - 1).push(w[k - 1]) =~= w.take(k));
    }
}

proof fn lemma_words_of_join(ws: Seq<Seq<char>>)
    requires
        forall|i: int| 0 <= i < ws.len() ==> is_word(#[trigger] ws[i]),
    ensures
        words(join(ws, seq![' '])) == ws,
        ws.len() > 0 ==> !is_separator(join(ws, seq![' ']).last(), false),
        ws.len() > 0 ==> join(ws, seq![' ']).len() > 0,
    decreases ws.len(),
{
    if ws.len() == 0 {
        assert(join(ws, seq![' ']) =~= Seq::<char>::empty());
    } else {
        let l = ws.last();
        assert(is_word(ws[ws.len() - 1]));
        assert(l.take(l.len() as int) =~= l);
        if ws.len() == 1 {
            lemma_split_word_suffix(Seq::<char>::empty(), l, l.len() as int);
            assert(Seq::<char>::empty() + l =~= l);
            assert(split_words(Seq::<char>::empty(), false) =~= Seq::<Seq<char>>::empty());
            assert(Seq::<Seq<char>>::empty().push(l) =~= ws);
        } else {
            let p = ws.drop_last();
            assert forall|i: int| 0 <= i < p.len() implies is_word(#[trigger] p[i]) by {
                assert(p[i] == ws[i]);
            }
            lemma_words_of_join(p);
            let a = join(p, seq![' ']) + seq![' '];
            assert(a.drop_last() =~= join(p, seq![' ']));
            assert(split_words(a, false) == split_words(join(p, seq![' ']), false));
            lemma_split_word_suffix(a, l, l.len() as int);
            assert(join(ws, seq![' ']) =~= a + l);
            assert(p.push(l) =~= ws);
        }
        assert(join(ws, seq![' ']).last() == l[l.len() - 1]);
    }
}

proof fn lemma_filter_words(s: Seq<Seq<char>>, p: spec_fn(Seq<char>) -> bool)
    requires
        forall|i: int| 0 <= i < s.len() ==> is_word(#[trigger] s[i]),
    ensures
        forall|i: int| 0 <= i < s.filter(p).len() ==> is_word(#[trigger] s.filter(p)[i]),
    decreases s.len(),
{
    reveal(Seq::filter);
    if s.len() > 0 {
        let d = s.drop_last();
        assert forall|i: int| 0 <= i < d.len() implies is_word(#[trigger] d[i]) by {
            assert(d[i] == s[i]);
        }
        lemma_filter_words(d, p);
        assert(is_word(s[s.len() - 1]));
        let f = s.filter(p);
        let fd = d.filter(p);
        assert forall|i: int| 0 <= i < f.len() implies is_word(#[trigger] f[i]) by {
            if p(s.last()) {
                assert(f == fd.push(s.last()));
                if i < fd.len() {
                    assert(f[i] == fd[i]);
                } else {
                    assert(f[i] == s.last());
                }
            } else {
                assert(f == fd);
            }
        }
    }
}

proof fn lemma_filter_swap(s: Seq<Seq<char>>, p: spec_fn(Seq<char>) -> bool, q: spec_fn(Seq<char>) -> bool)
    ensures
        s.filter(p).filter(q) == s.filter(q).filter(p),
    decreases s.len(),
{
    reveal(Seq::filter);
    if s.len() > 0 {
        lemma_filter_swap(s.drop_last(), p, q);
        let fp = s.filter(p);
        let fq = s.filter(q);
        if p(s.last()) {
            assert(fp.drop_last() =~= s.drop_last().filter(p));
        } else {
            assert(fp =~= s.drop_last().filter(p));
        }
        if q(s.last()) {
            assert(fq.drop_last() =~= s.drop_last().filter(q));
        } else {
            assert(fq =~= s.drop_last().filter(q));
        }
    }
}

/// The stopword passes commute: each drops exact whitespace tokens, so
/// applying two lists in either order leaves the same bag.
pub proof fn lemma_stopword_passes_commute(bag: Seq<char>, first: Seq<char>, second: Seq<char>)
    ensures
        dropped(dropped(bag, first), second) == dropped(dropped(bag, second), first),
{
    let ws = words(bag);
    let pa = |w: Seq<char>| !words(first).contains(w);
    let pb = |w: Seq<char>| !words(second).contains(w);
    lemma_words_shape(bag, false);
    assert forall|i: int| 0 <= i < ws.len() implies is_word(#[trigger] ws[i]) by {
        assert(ws[i].len() > 0);
    }
    lemma_filter_words(ws, pa);
    lemma_filter_words(ws, pb);
    lemma_words_of_join(ws.filter(pa));
    lemma_words_of_join(ws.filter(pb));
    lemma_filter_swap(ws, pa, pb);
}

} // verus!
