use hipparchia_rust_dbhelper::queries::{
    sv_directfetchquery, sv_headwordcountquery, sv_morphologyquery, sv_temptablesql,
};
use hipparchia_rust_dbhelper::records::{db_fields, ws_fields};
use hipparchia_rust_dbhelper::text::{make_ascii_title_case, str_cap, str_lcs};

#[test]
fn first_letter_case() {
    assert_eq!(str_cap("ϲωκράτηϲ"), "Ϲωκράτηϲ");
    assert_eq!(str_cap("ß"), "SS");
    assert_eq!(str_cap(""), "");
    assert_eq!(str_lcs("Sum"), "sum");
    assert_eq!(str_lcs("ΣΩ"), "σΩ");
    assert_eq!(str_lcs(""), "");
}

#[test]
fn ascii_title_case() {
    let mut a = "active".to_string();
    make_ascii_title_case(&mut a);
    assert_eq!(a, "Active");
    let mut b = "ϲω".to_string();
    make_ascii_title_case(&mut b);
    assert_eq!(b, "ϲω");
    let mut c = String::new();
    make_ascii_title_case(&mut c);
    assert_eq!(c, "");
}

#[test]
fn field_lists() {
    assert_eq!(db_fields().len(), 13);
    assert_eq!(db_fields()[1], "TbIndex");
    assert_eq!(ws_fields(), vec!["launchtime", "active", "statusmessage", "remaining", "poolofwork", "hitcount", "portnumber", "notes"]);
}

#[test]
fn query_texts() {
    let terms = vec!["Roma".to_string(), "roma".to_string()];
    assert_eq!(
        sv_temptablesql("abc", &terms),
        "CREATE TEMPORARY TABLE ttw_abc AS SELECT words AS w FROM unnest(ARRAY['Roma', 'roma']) words"
    );
    assert_eq!(
        sv_morphologyquery("latin", "abc"),
        "SELECT observed_form, xrefs, prefixrefs, related_headwords FROM latin_morphology WHERE EXISTS (SELECT 1 FROM ttw_abc temptable WHERE temptable.w = latin_morphology.observed_form)"
    );
    assert_eq!(
        sv_headwordcountquery("abc"),
        "SELECT entry_name, total_count FROM dictionary_headword_wordcounts WHERE EXISTS (SELECT 1 FROM ttw_abc temptable WHERE temptable.w = dictionary_headword_wordcounts.entry_name)"
    );
    assert_eq!(sv_directfetchquery("lt0448", 1, 26), "SELECT * FROM lt0448 WHERE index BETWEEN 1 and 26");
    assert_eq!(sv_directfetchquery("t", -5, 0), "SELECT * FROM t WHERE index BETWEEN -5 and 0");
}
