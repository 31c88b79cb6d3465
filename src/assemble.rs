//! Assembly of fetched lines into one locus-tagged text. Lines are put in
//! order of work id, line index and text first, so the text does not depend
//! on the order in which storage returned them.

use vstd::multiset::*;
use vstd::prelude::*;
use vstd::relations::{sorted_by, total_ordering};
use vstd::seq_lib::*;

use crate::records::DBLine;
use crate::text::{append_chars, chars_of, decimal_of, join, push_decimal, string_of};

verus! {

/// What of a line reaches the text: its work id, its index and its marked-up text.
pub open spec fn line_key(l: DBLine) -> (Seq<char>, int, Seq<char>) {
    (l.uid@, l.idx as int, l.mu@)
}

/// Lexicographic order on character sequences, by code point.
pub open spec fn chars_leq(a: Seq<char>, b: Seq<char>) -> bool
    decreases a.len(),
{
    if a.len() == 0 {
        true
    } else if b.len() == 0 {
        false
    } else if a[0] != b[0] {
        a[0] < b[0]
    } else {
        chars_leq(a.drop_first(), b.drop_first())
    }
}

/// The order of lines: by work id, then index, then text.
pub open spec fn key_leq(a: (Seq<char>, int, Seq<char>), b: (Seq<char>, int, Seq<char>)) -> bool {
    if a.0 != b.0 {
        chars_leq(a.0, b.0)
    } else if a.1 != b.1 {
        a.1 < b.1
    } else {
        chars_leq(a.2, b.2)
    }
}

pub open spec fn key_order() -> spec_fn((Seq<char>, int, Seq<char>), (Seq<char>, int, Seq<char>)) -> bool {
    |a: (Seq<char>, int, Seq<char>), b: (Seq<char>, int, Seq<char>)| key_leq(a, b)
}

proof fn lemma_chars_leq_refl(a: Seq<char>)
    ensures
        chars_leq(a, a),
    decreases a.len(),
{
    if a.len() > 0 {
        lemma_chars_leq_refl(a.drop_first());
    }
}

proof fn lemma_chars_leq_antisym(a: Seq<char>, b: Seq<char>)
    requires
        chars_leq(a, b),
        chars_leq(b, a),
    ensures
        a == b,
    decreases a.len(),
{
    if a.len() > 0 && b.len() > 0 {
        lemma_chars_leq_antisym(a.drop_first(), b.drop_first());
        assert(a =~= seq![a[0]] + a.drop_first());
        assert(b =~= seq![b[0]] + b.drop_first());
    }
}

proof fn lemma_chars_leq_trans(a: Seq<char>, b: Seq<char>, c: Seq<char>)
    requires
        chars_leq(a, b),
        chars_leq(b, c),
    ensures
        chars_leq(a, c),
    decreases a.len(),
{
    if a.len() > 0 && b.len() > 0 && c.len() > 0 {
        if a[0] == b[0] && b[0] == c[0] {
            lemma_chars_leq_trans(a.drop_first(), b.drop_first(), c.drop_first());
        }
    }
}

proof fn lemma_chars_leq_total(a: Seq<char>, b: Seq<char>)
    ensures
        chars_leq(a, b) || chars_leq(b, a),
    decreases a.len(),
{
    if a.len() > 0 && b.len() > 0 {
        if a[0] == b[0] {
            lemma_chars_leq_total(a.drop_first(), b.drop_first());
        } else {
        }
    }
}

/// The order of lines is a total order.
pub proof fn lemma_key_order_total()
    ensures
        total_ordering(key_order()),
{
    assert forall|a: (Seq<char>, int, Seq<char>)| #[trigger] key_order()(a, a) by {
        lemma_chars_leq_refl(a.2);
    }
    assert forall|a: (Seq<char>, int, Seq<char>), b: (Seq<char>, int, Seq<char>)|
        #[trigger] key_order()(a, b) && #[trigger] key_order()(b, a) implies a == b by {
        if a.0 != b.0 {
            lemma_chars_leq_antisym(a.0, b.0);
        } else if a.1 == b.1 {
            lemma_chars_leq_antisym(a.2, b.2);
        }
    }
    assert forall|a: (Seq<char>, int, Seq<char>), b: (Seq<char>, int, Seq<char>), c: (Seq<char>, int, Seq<char>)|
        #[trigger] key_order()(a, b) && #[trigger] key_order()(b, c) implies key_order()(a, c) by {
        if a.0 != b.0 && b.0 != c.0 {
            lemma_chars_leq_trans(a.0, b.0, c.0);
            if a.0 == c.0 {
                lemma_chars_leq_antisym(a.0, b.0);
            }
        } else if a.0 == b.0 && b.0 == c.0 && a.1 == b.1 && b.1 == c.1 {
            lemma_chars_leq_trans(a.2, b.2, c.2);
        }
    }
    assert forall|a: (Seq<char>, int, Seq<char>), b: (Seq<char>, int, Seq<char>)|
        #[trigger] key_order()(a, b) || #[trigger] key_order()(b, a) by {
        lemma_chars_leq_total(a.0, b.0);
        lemma_chars_leq_total(a.2, b.2);
    }
}

/// The locus marker of a line: work id and index between the marker brackets.
pub open spec fn locus_marker(uid: Seq<char>, idx: int) -> Seq<char> {
    seq!['⊏'] + uid + seq!['/'] + decimal_of(idx) + seq!['⊐']
}

/// One line as it stands in the text: its marker, then its marked-up text.
pub open spec fn tagged(k: (Seq<char>, int, Seq<char>)) -> Seq<char> {
    locus_marker(k.0, k.1) + k.2
}

/// The text of lines already in order: each tagged, joined by spaces.
pub open spec fn tagged_text(keys: Seq<(Seq<char>, int, Seq<char>)>) -> Seq<char> {
    join(keys.map_values(|k: (Seq<char>, int, Seq<char>)| tagged(k)), seq![' '])
}

/// The text assembled from `lines`, taken in line order.
pub open spec fn assembled(lines: Seq<DBLine>) -> Seq<char> {
    tagged_text(lines.map_values(|l: DBLine| line_key(l)).sort_by(key_order()))
}

proof fn lemma_insert_multiset<A>(s: Seq<A>, i: int, x: A)
    requires
        0 <= i <= s.len(),
    ensures
        s.insert(i, x).to_multiset() == s.to_multiset().insert(x),
{
    broadcast use group_to_multiset_ensures, group_multiset_axioms;

    let a = s.take(i);
    let b = s.skip(i);
    assert(s.insert(i, x) =~= a.push(x) + b);
    assert(s =~= a + b);
    lemma_multiset_commutative(a.push(x), b);
    lemma_multiset_commutative(a, b);
    assert(s.insert(i, x).to_multiset() =~= s.to_multiset().insert(x));
}

fn chars_le(a: &Vec<char>, b: &Vec<char>) -> (r: bool)
    ensures
        r == chars_leq(a@, b@),
{
    let mut i: usize = 0;
    assert(a@.skip(0) =~= a@);
    assert(b@.skip(0) =~= b@);
    while i < a.len() && i < b.len()
        invariant
            i <= a.len(),
            i <= b.len(),
            chars_leq(a@, b@) == chars_leq(a@.skip(i as int), b@.skip(i as int)),
        decreases a.len() - i,
    {
        assert(a@.skip(i as int).drop_first() =~= a@.skip(i + 1));
        assert(b@.skip(i as int).drop_first() =~= b@.skip(i + 1));
        if a[i] != b[i] {
            return a[i] < b[i];
        }
        i += 1;
    }
    i == a.len()
}

/// The views of line keys as held in exec form.
pub open spec fn key_views(v: Seq<(Vec<char>, i32, Vec<char>)>) -> Seq<(Seq<char>, int, Seq<char>)> {
    v.map_values(|k: (Vec<char>, i32, Vec<char>)| (k.0@, k.1 as int, k.2@))
}

fn key_le(a: &(Vec<char>, i32, Vec<char>), b: &(Vec<char>, i32, Vec<char>)) -> (r: bool)
    ensures
        r == key_leq((a.0@, a.1 as int, a.2@), (b.0@, b.1 as int, b.2@)),
{
    let le0 = chars_le(&a.0, &b.0);
    let ge0 = chars_le(&b.0, &a.0);
    if !(le0 && ge0) {
        proof {
            lemma_chars_leq_refl(a.0@);
        }
        le0
    } else {
        proof {
            lemma_chars_leq_antisym(a.0@, b.0@);
        }
        if a.1 != b.1 {
            a.1 < b.1
        } else {
            chars_le(&a.2, &b.2)
        }
    }
}

/// The keys of `lines`, in line order.
fn sorted_keys(lines: &Vec<DBLine>) -> (r: Vec<(Vec<char>, i32, Vec<char>)>)
    ensures
        key_views(r@) == lines@.map_values(|l: DBLine| line_key(l)).sort_by(key_order()),
{
    let ghost input = lines@.map_values(|l: DBLine| line_key(l));
    let mut r: Vec<(Vec<char>, i32, Vec<char>)> = Vec::new();
    proof {
        lemma_key_order_total();
    }
    let mut i: usize = 0;
    proof {
        broadcast use group_to_multiset_ensures;

        assert(key_views(r@) =~= Seq::<(Seq<char>, int, Seq<char>)>::empty());
        assert(input.take(0) =~= Seq::<(Seq<char>, int, Seq<char>)>::empty());
    }
    while i < lines.len()
        invariant
            i <= lines.len(),
            input == lines@.map_values(|l: DBLine| line_key(l)),
            total_ordering(key_order()),
            sorted_by(key_views(r@), key_order()),
            key_views(r@).to_multiset() == input.take(i as int).to_multiset(),
        decreases lines.len() - i,
    {
        let x = (chars_of(lines[i].uid.as_str()), lines[i].idx, chars_of(lines[i].mu.as_str()));
        let ghost xv = (x.0@, x.1 as int, x.2@);
        let ghost rv = key_views(r@);
        let mut pos: usize = r.len();
        while pos > 0 && !key_le(&r[pos - 1], &x)
            invariant
                pos <= r.len(),
                rv == key_views(r@),
                total_ordering(key_order()),
                sorted_by(rv, key_order()),
                xv == (x.0@, x.1 as int, x.2@),
                forall|j: int| pos <= j < rv.len() ==> key_leq(xv, #[trigger] rv[j]),
            decreases pos,
        {
            assert(!key_order()(rv[pos - 1], xv));
            assert(key_order()(xv, rv[pos - 1]));
            pos -= 1;
        }
        proof {
            if pos > 0 {
                assert(key_order()(rv[pos - 1], xv));
                assert forall|j: int| 0 <= j < pos implies key_leq(#[trigger] rv[j], xv) by {
                    if j < pos - 1 {
                        assert(key_order()(rv[j], rv[pos - 1]));
                        assert(key_order()(rv[j], xv));
                    }
                }
            }
        }
        r.insert(pos, x);
        proof {
            let nv = key_views(r@);
            assert(nv =~= rv.insert(pos as int, xv));
            assert forall|a: int, b: int| 0 <= a < b < nv.len() implies #[trigger] key_order()(
                nv[a],
                nv[b],
            ) by {
                if b < pos {
                } else if a < pos && b == pos {
                } else if a < pos {
                    assert(nv[b] == rv[b - 1]);
                } else if a == pos {
                    assert(nv[b] == rv[b - 1]);
                } else {
                    assert(nv[a] == rv[a - 1]);
                    assert(nv[b] == rv[b - 1]);
                }
            }
            lemma_insert_multiset(rv, pos as int, xv);
            assert(input.take(i + 1) =~= input.take(i as int).push(xv));
            broadcast use group_to_multiset_ensures;
        }
        i += 1;
    }
    proof {
        assert(input.take(lines@.len() as int) =~= input);
        input.lemma_sort_by_ensures(key_order());
        lemma_sorted_unique(key_views(r@), input.sort_by(key_order()), key_order());
    }
    r
}


/// Concatenates the lines into one text: in line order, each line's marked-up
/// text behind its locus marker, lines separated by a space. No lines give
/// the empty text.
pub fn sv_assembletext(lines: &Vec<DBLine>) -> (r: String)
    ensures
        r@ == assembled(lines@),
{
    let keys = sorted_keys(lines);
    let ghost kv = key_views(keys@);
    let mut pieces: Vec<Vec<char>> = Vec::new();
    let mut i: usize = 0;
    while i < keys.len()
        invariant
            i <= keys.len(),
            kv == key_views(keys@),
            crate::text::char_views(pieces@) == kv.take(i as int).map_values(
                |k: (Seq<char>, int, Seq<char>)| tagged(k),
            ),
        decreases keys.len() - i,
    {
        let mut piece: Vec<char> = Vec::new();
        piece.push('⊏');
        append_chars(&mut piece, &keys[i].0);
        piece.push('/');
        push_decimal(&mut piece, keys[i].1);
        piece.push('⊐');
        append_chars(&mut piece, &keys[i].2);
        let ghost before = pieces@;
        let ghost pv = piece@;
        assert(pv =~= tagged(kv[i as int]));
        pieces.push(piece);
        assert(crate::text::char_views(pieces@) =~= crate::text::char_views(before).push(pv));
        assert(kv.take(i + 1) =~= kv.take(i as int).push(kv[i as int]));
        assert(kv.take(i + 1).map_values(|k: (Seq<char>, int, Seq<char>)| tagged(k)) =~= kv.take(
            i as int,
        ).map_values(|k: (Seq<char>, int, Seq<char>)| tagged(k)).push(pv));
        i += 1;
    }
    assert(kv.take(keys@.len() as int) =~= kv);
    let text = crate::text::join_chars(&pieces, ' ');
    string_of(&text)
}

} // verus!
