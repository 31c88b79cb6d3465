//! Framing of the bags for storage: one JSON record `{"Loc": .., "Bag": ..}`
//! per bag that holds any text. Bags left empty are never written.

use vstd::prelude::*;

use crate::keyed::KeyedMap;
use crate::text::string_views;

verus! {

/// A lowercase hexadecimal digit.
pub open spec fn hex_digit(d: u32) -> char {
    if d == 0 { '0' } else if d == 1 { '1' } else if d == 2 { '2' } else if d == 3 { '3' }
    else if d == 4 { '4' } else if d == 5 { '5' } else if d == 6 { '6' } else if d == 7 { '7' }
    else if d == 8 { '8' } else if d == 9 { '9' } else if d == 10 { 'a' } else if d == 11 { 'b' }
    else if d == 12 { 'c' } else if d == 13 { 'd' } else if d == 14 { 'e' } else { 'f' }
}

/// How one character is written inside a JSON string literal.
pub open spec fn json_escaped(c: char) -> Seq<char> {
    if c == '"' {
        seq!['\\', '"']
    } else if c == '\\' {
        seq!['\\', '\\']
    } else if c == '\u{8}' {
        seq!['\\', 'b']
    } else if c == '\t' {
        seq!['\\', 't']
    } else if c == '\n' {
        seq!['\\', 'n']
    } else if c == '\u{c}' {
        seq!['\\', 'f']
    } else if c == '\r' {
        seq!['\\', 'r']
    } else if ' ' > c {
        seq!['\\', 'u', '0', '0', hex_digit((c as u32) / 16), hex_digit((c as u32) % 16)]
    } else {
        seq![c]
    }
}

/// The characters of `s`, each escaped.
pub open spec fn json_body(s: Seq<char>) -> Seq<char>
    decreases s.len(),
{
    if s.len() == 0 {
        Seq::empty()
    } else {
        json_body(s.drop_last()) + json_escaped(s.last())
    }
}

/// `s` as a JSON string literal.
pub open spec fn json_quoted(s: Seq<char>) -> Seq<char> {
    seq!['"'] + json_body(s) + seq!['"']
}

/// Relies on `json::stringify` of a string slice: the string between double
/// quotes, with `"` and `\` escaped by a backslash, backspace, tab, line feed,
/// form feed and carriage return by their short escapes, any other character
/// below U+0020 as `\u00` and two lowercase hex digits, all else as it is.
#[verifier::external_body]
fn json_string(s: &str) -> (r: String)
    ensures
        r@ == json_quoted(s@),
{
    json::stringify(s)
}

/// The stored record of one bag.
pub open spec fn bag_record(loc: Seq<char>, bag: Seq<char>) -> Seq<char> {
    "{\"Loc\":"@ + json_quoted(loc) + ",\"Bag\":"@ + json_quoted(bag) + "}"@
}

/// The records of the listed bags, in order, leaving out every empty bag.
pub open spec fn bag_records(locs: Seq<Seq<char>>, bags: Seq<Seq<char>>) -> Seq<Seq<char>>
    decreases locs.len(),
{
    if locs.len() == 0 || bags.len() == 0 {
        Seq::empty()
    } else {
        let prev = bag_records(locs.drop_last(), bags.drop_last());
        if bags.last().len() > 0 {
            prev.push(bag_record(locs.last(), bags.last()))
        } else {
            prev
        }
    }
}

/// The JSON record of one bag.
pub fn sv_bagrecord(loc: &str, bag: &str) -> (r: String)
    ensures
        r@ == bag_record(loc@, bag@),
{
    let l = json_string(loc);
    let b = json_string(bag);
    let mut out = String::from_str("{\"Loc\":");
    out.append(l.as_str());
    out.append(",\"Bag\":");
    out.append(b.as_str());
    out.append("}");
    out
}

/// The records to add to the result set: one per bag with text, in the bags'
/// order; empty bags are left out.
pub fn sv_bagrecords(bags: &KeyedMap<String>) -> (r: Vec<String>)
    requires
        bags.wf(),
    ensures
        string_views(r@) == bag_records(bags.key_seq(), string_views(bags.val_seq())),
{
    let ghost ks = bags.key_seq();
    let ghost vs = string_views(bags.val_seq());
    let mut out: Vec<String> = Vec::new();
    let n = bags.len();
    let mut i: usize = 0;
    proof {
        bags.lemma_entries();
        assert(ks.take(0) =~= Seq::<Seq<char>>::empty());
    }
    while i < n
        invariant
            i <= n,
            n == ks.len(),
            ks.len() == vs.len(),
            bags.wf(),
            ks == bags.key_seq(),
            vs == string_views(bags.val_seq()),
            string_views(out@) == bag_records(ks.take(i as int), vs.take(i as int)),
        decreases n - i,
    {
        let loc = bags.key_at(i);
        let bag = bags.value_at(i);
        assert(ks.take(i + 1).drop_last() =~= ks.take(i as int));
        assert(vs.take(i + 1).drop_last() =~= vs.take(i as int));
        if !bag.as_str().is_empty() {
            let rec = sv_bagrecord(loc.as_str(), bag.as_str());
            let ghost before = out@;
            out.push(rec);
            assert(string_views(out@) =~= string_views(before).push(rec@));
        }
        i += 1;
    }
    assert(ks.take(n as int) =~= ks);
    assert(vs.take(n as int) =~= vs);
    out
}

} // verus!
