//! The stages that run before any storage lookup, put together: lines to
//! locus-keyed sentences.

use vstd::prelude::*;

use crate::assemble::{assembled, sv_assembletext};
use crate::keyed::{text_view, KeyedMap};
use crate::normalize::{normalized, sv_normalize};
use crate::records::DBLine;
use crate::segment::{sentence_map, split_terminated, sv_buildsentences, sv_splitsentences};
use crate::text::string_views;

verus! {

/// The sentence map of `lines`: assembled, normalised, split at terminators
/// and grouped `size` pieces at a time; `None` where normalisation fails.
pub open spec fn prepared(lines: Seq<DBLine>, size: nat) -> Option<Map<Seq<char>, Seq<char>>> {
    match normalized(assembled(lines)) {
        Some(n) => Some(sentence_map(split_terminated(n), size)),
        None => None,
    }
}

/// Assembles, normalises and segments `lines` into locus-keyed sentences of
/// `bagsize` pieces each.
pub fn sv_sentencesfromlines(lines: &Vec<DBLine>, bagsize: i32) -> (r: Option<KeyedMap<String>>)
    requires
        bagsize >= 1,
    ensures
        match r {
            Some(m) => m.wf() && prepared(lines@, bagsize as nat) == Some(text_view(m@)),
            None => prepared(lines@, bagsize as nat) is None,
        },
{
    let text = sv_assembletext(lines);
    match sv_normalize(text.as_str()) {
        Some(n) => {
            let pieces = sv_splitsentences(n.as_str());
            Some(sv_buildsentences(&pieces, bagsize))
        },
        None => None,
    }
}

/// The sentence texts of `m`, in the order of its loci.
pub fn sv_sentencetexts(m: &KeyedMap<String>) -> (r: Vec<String>)
    requires
        m.wf(),
    ensures
        string_views(r@) == string_views(m.val_seq()),
{
    let mut out: Vec<String> = Vec::new();
    let n = m.len();
    let mut i: usize = 0;
    proof {
        m.lemma_entries();
    }
    while i < n
        invariant
            i <= n,
            m.wf(),
            n == m.val_seq().len(),
            n == m.key_seq().len(),
            string_views(out@) == string_views(m.val_seq()).take(i as int),
        decreases n - i,
    {
        let s = m.value_at(i).clone();
        let ghost before = out@;
        out.push(s);
        assert(string_views(out@) =~= string_views(before).push(m.val_seq()[i as int]@));
        assert(string_views(m.val_seq()).take(i + 1) =~= string_views(m.val_seq()).take(
            i as int,
        ).push(m.val_seq()[i as int]@));
        i += 1;
    }
    assert(string_views(m.val_seq()).take(n as int) =~= string_views(m.val_seq()));
    out
}

} // verus!
