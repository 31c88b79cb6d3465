//! Segmentation of the normalised text into locus-keyed sentences.

use vstd::prelude::*;

use crate::keyed::{text_view, KeyedMap};
use crate::text::{append_chars, chars_of, lower_of, lowercase, string_of, string_views};

verus! {

/// Whether `c` ends a sentence.
pub open spec fn is_terminator(c: char) -> bool {
    c == '.' || c == '?' || c == '!' || c == ';' || c == '·'
}

/// The pieces of `s` between terminators, empty ones included: `n`
/// terminators give `n + 1` pieces.
pub open spec fn split_terminated(s: Seq<char>) -> Seq<Seq<char>>
    decreases s.len(),
{
    if s.len() == 0 {
        seq![Seq::empty()]
    } else {
        let prev = split_terminated(s.drop_last());
        if is_terminator(s.last()) {
            prev.push(Seq::empty())
        } else {
            prev.drop_last().push(prev.last().push(s.last()))
        }
    }
}

proof fn lemma_split_terminated_nonempty(s: Seq<char>)
    ensures
        split_terminated(s).len() >= 1,
    decreases s.len(),
{
    if s.len() > 0 {
        lemma_split_terminated_nonempty(s.drop_last());
    }
}

/// Splits `text` at every sentence terminator (`. ? ! ;` and the middle dot).
pub fn sv_splitsentences(text: &str) -> (r: Vec<String>)
    ensures
        string_views(r@) == split_terminated(text@),
{
    let cs = chars_of(text);
    let mut out: Vec<String> = Vec::new();
    let mut cur: Vec<char> = Vec::new();
    let mut i: usize = 0;
    assert(cs@.take(0) =~= Seq::<char>::empty());
    while i < cs.len()
        invariant
            i <= cs.len(),
            split_terminated(cs@.take(i as int)) == string_views(out@).push(cur@),
        decreases cs.len() - i,
    {
        let c = cs[i];
        assert(cs@.take(i + 1).drop_last() =~= cs@.take(i as int));
        if c == '.' || c == '?' || c == '!' || c == ';' || c == '·' {
            let piece = string_of(&cur);
            let ghost before = out@;
            out.push(piece);
            cur = Vec::new();
            assert(string_views(out@) =~= string_views(before).push(piece@));
        } else {
            cur.push(c);
        }
        i += 1;
    }
    let piece = string_of(&cur);
    let ghost before = out@;
    out.push(piece);
    assert(string_views(out@) =~= string_views(before).push(piece@));
    assert(cs@.take(cs@.len() as int) =~= cs@);
    out
}

/// The characters a cleaned sentence may hold: the space, the Latin and Greek
/// lowercase letters, and the accented and breathing-marked Greek vowels.
pub open spec fn in_alphabet(c: char) -> bool {
    c == '\u{20}'
        || ('\u{61}' <= c && c <= '\u{7a}')
        || c == '\u{390}'
        || ('\u{3ac}' <= c && c <= '\u{3c9}')
        || ('\u{3cb}' <= c && c <= '\u{3ce}')
        || c == '\u{3f2}'
        || c == '\u{3f9}'
        || ('\u{1f00}' <= c && c <= '\u{1f07}')
        || ('\u{1f10}' <= c && c <= '\u{1f15}')
        || ('\u{1f20}' <= c && c <= '\u{1f27}')
        || ('\u{1f30}' <= c && c <= '\u{1f37}')
        || ('\u{1f40}' <= c && c <= '\u{1f45}')
        || ('\u{1f50}' <= c && c <= '\u{1f57}')
        || ('\u{1f60}' <= c && c <= '\u{1f67}')
        || c == '\u{1f70}'
        || c == '\u{1f72}'
        || c == '\u{1f74}'
        || c == '\u{1f76}'
        || c == '\u{1f78}'
        || c == '\u{1f7a}'
        || c == '\u{1f7c}'
        || ('\u{1f80}' <= c && c <= '\u{1f87}')
        || ('\u{1f90}' <= c && c <= '\u{1f97}')
        || ('\u{1fa0}' <= c && c <= '\u{1fa7}')
        || ('\u{1fb0}' <= c && c <= '\u{1fb4}')
        || ('\u{1fb6}' <= c && c <= '\u{1fb7}')
        || ('\u{1fc2}' <= c && c <= '\u{1fc4}')
        || ('\u{1fc6}' <= c && c <= '\u{1fc7}')
        || ('\u{1fd0}' <= c && c <= '\u{1fd2}')
        || ('\u{1fd6}' <= c && c <= '\u{1fd7}')
        || ('\u{1fe0}' <= c && c <= '\u{1fe2}')
        || ('\u{1fe6}' <= c && c <= '\u{1fe7}')
        || ('\u{1ff2}' <= c && c <= '\u{1ff4}')
        || ('\u{1ff6}' <= c && c <= '\u{1ff7}')
}

fn is_alphabet(c: char) -> (r: bool)
    ensures
        r == in_alphabet(c),
{
    c == '\u{20}'
        || ('\u{61}' <= c && c <= '\u{7a}')
        || c == '\u{390}'
        || ('\u{3ac}' <= c && c <= '\u{3c9}')
        || ('\u{3cb}' <= c && c <= '\u{3ce}')
        || c == '\u{3f2}'
        || c == '\u{3f9}'
        || ('\u{1f00}' <= c && c <= '\u{1f07}')
        || ('\u{1f10}' <= c && c <= '\u{1f15}')
        || ('\u{1f20}' <= c && c <= '\u{1f27}')
        || ('\u{1f30}' <= c && c <= '\u{1f37}')
        || ('\u{1f40}' <= c && c <= '\u{1f45}')
        || ('\u{1f50}' <= c && c <= '\u{1f57}')
        || ('\u{1f60}' <= c && c <= '\u{1f67}')
        || c == '\u{1f70}'
        || c == '\u{1f72}'
        || c == '\u{1f74}'
        || c == '\u{1f76}'
        || c == '\u{1f78}'
        || c == '\u{1f7a}'
        || c == '\u{1f7c}'
        || ('\u{1f80}' <= c && c <= '\u{1f87}')
        || ('\u{1f90}' <= c && c <= '\u{1f97}')
        || ('\u{1fa0}' <= c && c <= '\u{1fa7}')
        || ('\u{1fb0}' <= c && c <= '\u{1fb4}')
        || ('\u{1fb6}' <= c && c <= '\u{1fb7}')
        || ('\u{1fc2}' <= c && c <= '\u{1fc4}')
        || ('\u{1fc6}' <= c && c <= '\u{1fc7}')
        || ('\u{1fd0}' <= c && c <= '\u{1fd2}')
        || ('\u{1fd6}' <= c && c <= '\u{1fd7}')
        || ('\u{1fe0}' <= c && c <= '\u{1fe2}')
        || ('\u{1fe6}' <= c && c <= '\u{1fe7}')
        || ('\u{1ff2}' <= c && c <= '\u{1ff4}')
        || ('\u{1ff6}' <= c && c <= '\u{1ff7}')
}

/// The index of the first `c` in `s`, or `s.len()` where there is none.
pub open spec fn first_index(s: Seq<char>, c: char) -> int
    decreases s.len(),
{
    if s.len() == 0 {
        0
    } else if s[0] == c {
        0
    } else {
        1 + first_index(s.drop_first(), c)
    }
}

proof fn lemma_first_index(s: Seq<char>, c: char)
    ensures
        0 <= first_index(s, c) <= s.len(),
        forall|j: int| 0 <= j < first_index(s, c) ==> s[j] != c,
        first_index(s, c) < s.len() ==> s[first_index(s, c)] == c,
    decreases s.len(),
{
    if s.len() > 0 && s[0] != c {
        lemma_first_index(s.drop_first(), c);
        assert forall|j: int| 0 <= j < first_index(s, c) implies s[j] != c by {
            if j > 0 {
                assert(s[j] == s.drop_first()[j - 1]);
            }
        }
    }
}

/// `s` with every locus marker removed: an opening bracket `⊏`, through the
/// first closing bracket `⊐` after it. An opening bracket that is never
/// closed stays.
pub open spec fn strip_markers(s: Seq<char>) -> Seq<char>
    decreases s.len(),
{
    if s.len() == 0 {
        s
    } else {
        let rest = s.drop_first();
        let k = first_index(rest, '⊐');
        if s[0] == '⊏' && 0 <= k < rest.len() {
            strip_markers(rest.skip(k + 1))
        } else {
            seq![s[0]] + strip_markers(rest)
        }
    }
}

/// What the first locus marker of `s` holds between its brackets; empty
/// where `s` has no complete marker.
pub open spec fn first_locus(s: Seq<char>) -> Seq<char> {
    let i = first_index(s, '⊏');
    let rest = s.skip(i + 1);
    let j = first_index(rest, '⊐');
    if i < s.len() && j < rest.len() {
        rest.take(j)
    } else {
        Seq::empty()
    }
}

/// A parcel's sentence text: markers stripped, then every character outside
/// the alphabet dropped.
pub open spec fn cleaned(s: Seq<char>) -> Seq<char> {
    strip_markers(s).filter(|c: char| in_alphabet(c))
}

/// The pieces of `segs` concatenated.
pub open spec fn concat_all(segs: Seq<Seq<char>>) -> Seq<char>
    decreases segs.len(),
{
    if segs.len() == 0 {
        Seq::empty()
    } else {
        concat_all(segs.drop_last()) + segs.last()
    }
}

/// `segs` taken `size` at a time, each group concatenated; the last group
/// may be shorter.
pub open spec fn parcels(segs: Seq<Seq<char>>, size: nat) -> Seq<Seq<char>>
    decreases segs.len(),
{
    if segs.len() == 0 || size == 0 {
        Seq::empty()
    } else if segs.len() <= size {
        seq![concat_all(segs)]
    } else {
        seq![concat_all(segs.take(size as int))] + parcels(segs.skip(size as int), size)
    }
}

/// The sentence map of parcels taken in order: each parcel, lowercased, is
/// filed under its first locus with its cleaned text; a later parcel with the
/// same locus overwrites an earlier one.
pub open spec fn sentences_of(ps: Seq<Seq<char>>) -> Map<Seq<char>, Seq<char>>
    decreases ps.len(),
{
    if ps.len() == 0 {
        Map::empty()
    } else {
        let lc = lower_of(ps.last());
        sentences_of(ps.drop_last()).insert(first_locus(lc), cleaned(lc))
    }
}

/// The sentence map of `segs` grouped `size` at a time.
pub open spec fn sentence_map(segs: Seq<Seq<char>>, size: nat) -> Map<Seq<char>, Seq<char>> {
    sentences_of(parcels(segs, size))
}

fn strip_markers_exec(s: &Vec<char>) -> (r: Vec<char>)
    ensures
        r@ == strip_markers(s@),
{
    let mut out: Vec<char> = Vec::new();
    let mut i: usize = 0;
    assert(s@.skip(0) =~= s@);
    while i < s.len()
        invariant
            i <= s.len(),
            strip_markers(s@) == out@ + strip_markers(s@.skip(i as int)),
        decreases s.len() - i,
    {
        let ghost t = s@.skip(i as int);
        let ghost rest = t.drop_first();
        assert(rest =~= s@.skip(i + 1));
        proof {
            lemma_first_index(rest, '⊐');
        }
        let mut j: usize = i + 1;
        if s[i] == '⊏' {
            while j < s.len() && s[j] != '⊐'
                invariant
                    i + 1 <= j <= s.len(),
                    rest == s@.skip(i + 1),
                    forall|m: int| i + 1 <= m < j ==> s@[m] != '⊐',
                decreases s.len() - j,
            {
                j += 1;
            }
            proof {
                assert forall|m: int| 0 <= m < j - (i + 1) implies rest[m] != '⊐' by {
                    assert(rest[m] == s@[m + i + 1]);
                }
                if j < s.len() {
                    assert(rest[j - (i + 1)] == '⊐');
                }
                assert(first_index(rest, '⊐') == j - (i + 1)) by {
                    let k = first_index(rest, '⊐');
                    if k < j - (i + 1) {
                        assert(rest[k] != '⊐');
                    } else if k > j - (i + 1) {
                        assert(rest[j - (i + 1)] != '⊐');
                    }
                }
            }
        }
        if s[i] == '⊏' && j < s.len() {
            assert(rest.skip(j - i) =~= s@.skip(j + 1));
            i = j + 1;
        } else {
            let ghost before = out@;
            out.push(s[i]);
            assert(out@ + strip_markers(s@.skip(i + 1)) =~= before + (seq![t[0]] + strip_markers(rest)));
            i += 1;
        }
    }
    assert(s@.skip(i as int) =~= Seq::<char>::empty());
    assert(out@ + Seq::<char>::empty() =~= out@);
    out
}

fn first_locus_exec(s: &Vec<char>) -> (r: Vec<char>)
    ensures
        r@ == first_locus(s@),
{
    proof {
        lemma_first_index(s@, '⊏');
    }
    let mut i: usize = 0;
    while i < s.len() && s[i] != '⊏'
        invariant
            i <= s.len(),
            forall|m: int| 0 <= m < i ==> s@[m] != '⊏',
        decreases s.len() - i,
    {
        i += 1;
    }
    proof {
        let k = first_index(s@, '⊏');
        if k < i {
            assert(s@[k] != '⊏');
        } else if k > i {
            assert(s@[i as int] != '⊏');
        }
    }
    if i == s.len() {
        return Vec::new();
    }
    let ghost rest = s@.skip(i + 1);
    proof {
        lemma_first_index(rest, '⊐');
    }
    let mut j: usize = i + 1;
    while j < s.len() && s[j] != '⊐'
        invariant
            i + 1 <= j <= s.len(),
            rest == s@.skip(i + 1),
            forall|m: int| i + 1 <= m < j ==> s@[m] != '⊐',
        decreases s.len() - j,
    {
        j += 1;
    }
    proof {
        let k = first_index(rest, '⊐');
        if k < j - (i + 1) {
            assert(rest[k] == s@[k + i + 1]);
        } else if k > j - (i + 1) {
            assert(rest[j - (i + 1)] == s@[j as int]);
        }
    }
    if j == s.len() {
        return Vec::new();
    }
    let mut out: Vec<char> = Vec::new();
    let mut m: usize = i + 1;
    while m < j
        invariant
            i + 1 <= m <= j,
            j < s.len(),
            out@ == s@.subrange(i + 1, m as int),
        decreases j - m,
    {
        out.push(s[m]);
        assert(s@.subrange(i + 1, m + 1) =~= s@.subrange(i + 1, m as int).push(s@[m as int]));
        m += 1;
    }
    assert(rest.take(j - (i + 1)) =~= s@.subrange(i + 1, j as int));
    out
}

fn keep_alphabet(s: &Vec<char>) -> (r: Vec<char>)
    ensures
        r@ == s@.filter(|c: char| in_alphabet(c)),
{
    let mut out: Vec<char> = Vec::new();
    let mut i: usize = 0;
    proof {
        reveal(Seq::filter);
        assert(s@.take(0) =~= Seq::<char>::empty());
    }
    while i < s.len()
        invariant
            i <= s.len(),
            out@ == s@.take(i as int).filter(|c: char| in_alphabet(c)),
        decreases s.len() - i,
    {
        let c = s[i];
        assert(s@.take(i + 1).drop_last() =~= s@.take(i as int));
        proof {
            reveal(Seq::filter);
        }
        if is_alphabet(c) {
            out.push(c);
        }
        i += 1;
    }
    assert(s@.take(s@.len() as int) =~= s@);
    out
}

/// Groups `splittext` into parcels of `bagsize` consecutive pieces (the last
/// may be shorter), and files each parcel, lowercased, under the first locus
/// it names with its cleaned text. A later parcel with the same locus
/// overwrites an earlier one.
pub fn sv_buildsentences(splittext: &Vec<String>, bagsize: i32) -> (r: KeyedMap<String>)
    requires
        bagsize >= 1,
    ensures
        r.wf(),
        text_view(r@) == sentence_map(string_views(splittext@), bagsize as nat),
{
    let ghost segs = string_views(splittext@);
    let size = bagsize as usize;
    let mut m: KeyedMap<String> = KeyedMap::new();
    let ghost mut done: Seq<Seq<char>> = Seq::empty();
    let mut i: usize = 0;
    assert(segs.skip(0) =~= segs);
    assert(text_view(m@) =~= sentences_of(done));
    while i < splittext.len()
        invariant
            i <= splittext.len(),
            size == bagsize as nat,
            size >= 1,
            segs == string_views(splittext@),
            m.wf(),
            parcels(segs, size as nat) == done + parcels(segs.skip(i as int), size as nat),
            text_view(m@) == sentences_of(done),
        decreases splittext.len() - i,
    {
        let end: usize = if splittext.len() - i <= size { splittext.len() } else { i + size };
        let mut parcel: Vec<char> = Vec::new();
        let mut k: usize = i;
        assert(segs.subrange(i as int, i as int) =~= Seq::<Seq<char>>::empty());
        while k < end
            invariant
                i <= k <= end,
                end <= splittext.len(),
                segs == string_views(splittext@),
                parcel@ == concat_all(segs.subrange(i as int, k as int)),
            decreases end - k,
        {
            let piece = chars_of(splittext[k].as_str());
            append_chars(&mut parcel, &piece);
            assert(segs.subrange(i as int, k + 1).drop_last() =~= segs.subrange(i as int, k as int));
            k += 1;
        }
        let ghost p = parcel@;
        proof {
            let rest = segs.skip(i as int);
            if splittext.len() - i <= size {
                assert(rest =~= segs.subrange(i as int, end as int));
                assert(parcels(rest, size as nat) == seq![p]);
                assert(segs.skip(end as int) =~= Seq::<Seq<char>>::empty());
            } else {
                assert(rest.take(size as int) =~= segs.subrange(i as int, end as int));
                assert(rest.skip(size as int) =~= segs.skip(end as int));
            }
            assert(done + parcels(rest, size as nat) =~= done.push(p) + parcels(
                segs.skip(end as int),
                size as nat,
            ));
        }
        let ps = string_of(&parcel);
        let lc = lowercase(ps.as_str());
        let lcs = chars_of(lc.as_str());
        let locus = first_locus_exec(&lcs);
        let stripped = strip_markers_exec(&lcs);
        let text = keep_alphabet(&stripped);
        let key = string_of(&locus);
        let val = string_of(&text);
        let ghost old_map = m@;
        m.insert(key, val);
        proof {
            assert(done.push(p).drop_last() =~= done);
            assert(text_view(m@) =~= text_view(old_map).insert(key@, val@));
            done = done.push(p);
        }
        i = end;
    }
    proof {
        assert(segs.skip(i as int) =~= Seq::<Seq<char>>::empty());
        assert(done + Seq::<Seq<char>>::empty() =~= done);
    }
    m
}

} // verus!
