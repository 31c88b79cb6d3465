//! The text of the SQL statements that fetch lines, morphology rows and
//! headword counts. Each batch of terms goes into one temporary table, so
//! that a language's lookup is a single round trip.

use vstd::prelude::*;

use crate::text::{decimal_of, join, push_decimal, string_of, string_views};

verus! {

/// `terms` as the items of an SQL array: each quoted, separated by commas.
pub open spec fn quoted_list(terms: Seq<Seq<char>>) -> Seq<char> {
    seq!['\''] + join(terms, seq!['\'', ',', ' ', '\'']) + seq!['\'']
}

fn quoted_list_exec(terms: &Vec<String>) -> (r: String)
    ensures
        r@ == quoted_list(string_views(terms@)),
{
    let ghost ts = string_views(terms@);
    let mut out = String::from_str("'");
    let mut i: usize = 0;
    proof {
        reveal_strlit("'");
        reveal_strlit("', '");
    }
    assert(out@ =~= seq!['\''] + join(ts.take(0), seq!['\'', ',', ' ', '\'']));
    while i < terms.len()
        invariant
            i <= terms.len(),
            ts == string_views(terms@),
            out@ == seq!['\''] + join(ts.take(i as int), seq!['\'', ',', ' ', '\'']),
            "', '"@ == seq!['\'', ',', ' ', '\''],
            "'"@ == seq!['\''],
        decreases terms.len() - i,
    {
        let ghost before = out@;
        if i > 0 {
            out.append("', '");
        }
        out.append(terms[i].as_str());
        proof {
            let t = ts.take(i + 1);
            assert(t.drop_last() =~= ts.take(i as int));
            if i > 0 {
                assert(out@ =~= seq!['\''] + join(t, seq!['\'', ',', ' ', '\'']));
            } else {
                assert(out@ =~= seq!['\''] + join(t, seq!['\'', ',', ' ', '\'']));
            }
        }
        i += 1;
    }
    out.append("'");
    assert(ts.take(terms@.len() as int) =~= ts);
    out
}

/// The statement that loads `terms` into the temporary table `ttw_<id>`.
pub open spec fn temp_table_sql(id: Seq<char>, terms: Seq<Seq<char>>) -> Seq<char> {
    "CREATE TEMPORARY TABLE ttw_"@ + id + " AS SELECT words AS w FROM unnest(ARRAY["@
        + quoted_list(terms) + "]) words"@
}

/// The statement that creates the temporary table `ttw_<id>` holding `terms`.
pub fn sv_temptablesql(id: &str, terms: &Vec<String>) -> (r: String)
    ensures
        r@ == temp_table_sql(id@, string_views(terms@)),
{
    let list = quoted_list_exec(terms);
    let mut q = String::from_str("CREATE TEMPORARY TABLE ttw_");
    q.append(id);
    q.append(" AS SELECT words AS w FROM unnest(ARRAY[");
    q.append(list.as_str());
    q.append("]) words");
    q
}

/// The query for the morphology rows of `lang` whose observed form is in
/// the temporary table `ttw_<id>`.
pub open spec fn morphology_sql(lang: Seq<char>, id: Seq<char>) -> Seq<char> {
    "SELECT observed_form, xrefs, prefixrefs, related_headwords FROM "@ + lang
        + "_morphology WHERE EXISTS (SELECT 1 FROM ttw_"@ + id
        + " temptable WHERE temptable.w = "@ + lang + "_morphology.observed_form)"@
}

/// The morphology query of a language against a temporary table of forms.
pub fn sv_morphologyquery(lang: &str, id: &str) -> (r: String)
    ensures
        r@ == morphology_sql(lang@, id@),
{
    let mut q = String::from_str("SELECT observed_form, xrefs, prefixrefs, related_headwords FROM ");
    q.append(lang);
    q.append("_morphology WHERE EXISTS (SELECT 1 FROM ttw_");
    q.append(id);
    q.append(" temptable WHERE temptable.w = ");
    q.append(lang);
    q.append("_morphology.observed_form)");
    q
}

/// The query for the counts of the headwords in the temporary table `ttw_<id>`.
pub open spec fn headword_count_sql(id: Seq<char>) -> Seq<char> {
    "SELECT entry_name, total_count FROM dictionary_headword_wordcounts WHERE EXISTS (SELECT 1 FROM ttw_"@
        + id
        + " temptable WHERE temptable.w = dictionary_headword_wordcounts.entry_name)"@
}

/// The headword-count query against a temporary table of headwords.
pub fn sv_headwordcountquery(id: &str) -> (r: String)
    ensures
        r@ == headword_count_sql(id@),
{
    let mut q = String::from_str(
        "SELECT entry_name, total_count FROM dictionary_headword_wordcounts WHERE EXISTS (SELECT 1 FROM ttw_",
    );
    q.append(id);
    q.append(" temptable WHERE temptable.w = dictionary_headword_wordcounts.entry_name)");
    q
}

/// The query for the lines of `table` whose index lies between `start` and
/// `end`, both included.
pub open spec fn direct_fetch_sql(table: Seq<char>, start: int, end: int) -> Seq<char> {
    "SELECT * FROM "@ + table + " WHERE index BETWEEN "@ + decimal_of(start) + " and "@
        + decimal_of(end)
}

/// The range query of a direct line fetch.
pub fn sv_directfetchquery(table: &str, start: i32, end: i32) -> (r: String)
    ensures
        r@ == direct_fetch_sql(table@, start as int, end as int),
{
    let mut q = String::from_str("SELECT * FROM ");
    q.append(table);
    q.append(" WHERE index BETWEEN ");
    let mut digits: Vec<char> = Vec::new();
    push_decimal(&mut digits, start);
    let s = string_of(&digits);
    q.append(s.as_str());
    q.append(" and ");
    let mut digits2: Vec<char> = Vec::new();
    push_decimal(&mut digits2, end);
    let e = string_of(&digits2);
    q.append(e.as_str());
    assert(digits@ =~= decimal_of(start as int));
    assert(digits2@ =~= decimal_of(end as int));
    q
}

} // verus!
