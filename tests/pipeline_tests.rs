use hipparchia_rust_dbhelper::assemble::sv_assembletext;
use hipparchia_rust_dbhelper::bagging::{
    sv_allheadwords, sv_baggingmethod, sv_buildbags, sv_buildcompositebags, sv_buildflatbags,
    sv_buildwinnertakesallbags, sv_headwordscores, Bagging,
};
use hipparchia_rust_dbhelper::keyed::KeyedMap;
use hipparchia_rust_dbhelper::morphology::{
    sv_buildmorphmap, sv_findallwords, sv_islatin, sv_parsepossibilities, sv_partitionbylanguage,
    sv_searchterms,
};
use hipparchia_rust_dbhelper::normalize::{sv_acuteforgrave, sv_normalize, sv_stripper, sv_swapper};
use hipparchia_rust_dbhelper::pipeline::{sv_sentencesfromlines, sv_sentencetexts};
use hipparchia_rust_dbhelper::records::{DBLine, DbMorphology, WeightedHeadword};
use hipparchia_rust_dbhelper::segment::{sv_buildsentences, sv_splitsentences};
use hipparchia_rust_dbhelper::stopwords::{sv_dropstopwords, sv_purgestopwords};
use hipparchia_rust_dbhelper::store::{sv_bagrecord, sv_bagrecords};

fn line(uid: &str, idx: i32, mu: &str) -> DBLine {
    DBLine {
        idx,
        uid: uid.to_string(),
        l5: String::new(),
        l4: String::new(),
        l3: String::new(),
        l2: String::new(),
        l1: String::new(),
        l0: String::new(),
        mu: mu.to_string(),
        ac: String::new(),
        st: String::new(),
        hy: String::new(),
        an: String::new(),
    }
}

fn texts(pairs: &[(&str, &str)]) -> KeyedMap<String> {
    let mut m = KeyedMap::new();
    for (k, v) in pairs {
        m.insert(k.to_string(), v.to_string());
    }
    m
}

fn cands(pairs: &[(&str, &[&str])]) -> KeyedMap<Vec<String>> {
    let mut m = KeyedMap::new();
    for (k, v) in pairs {
        m.insert(k.to_string(), v.iter().map(|s| s.to_string()).collect());
    }
    m
}

fn strings(v: &[&str]) -> Vec<String> {
    v.iter().map(|s| s.to_string()).collect()
}

fn entries(m: &KeyedMap<String>) -> Vec<(String, String)> {
    (0..m.len()).map(|i| (m.key_at(i).clone(), m.value_at(i).clone())).collect()
}

#[test]
fn single_line_flat_keeps_unresolved_words() {
    let lines = vec![line("lt0448", 1, "Gallia est omnis divisa")];
    let text = sv_assembletext(&lines);
    assert_eq!(text, "⊏lt0448/1⊐Gallia est omnis divisa");
    let pieces = sv_splitsentences(&text);
    let sentences = sv_buildsentences(&pieces, 1);
    assert_eq!(entries(&sentences), vec![("lt0448/1".to_string(), "gallia est omnis divisa".to_string())]);
    let words = sv_findallwords(&sv_sentencetexts(&sentences));
    let mm = sv_buildmorphmap(&words, &Vec::new());
    let bags = sv_buildflatbags(&sentences, &mm);
    assert_eq!(entries(&bags), vec![("lt0448/1".to_string(), "gallia est omnis divisa".to_string())]);
}

#[test]
fn single_line_through_normalizer_canonicalizes_v() {
    let lines = vec![line("lt0448", 1, "Gallia est omnis divisa")];
    let sentences = sv_sentencesfromlines(&lines, 1).unwrap();
    assert_eq!(entries(&sentences), vec![("lt0448/1".to_string(), "gallia est omnis diuisa".to_string())]);
}

#[test]
fn praenomen_is_expanded() {
    assert_eq!(sv_normalize("M. Tullius").unwrap(), "Marcus Tullius");
    assert_eq!(sv_swapper("M. Tullius"), "Marcus Tullius");
}

#[test]
fn abbreviation_expansion_is_whole_token_and_case_sensitive() {
    assert_eq!(sv_swapper("m. Tullius  Kal.   Ian."), "m. Tullius Kalendas Ianuarias");
    assert_eq!(sv_swapper("XM. M.’ Ti."), "XM. Manius Tiberius");
    assert_eq!(sv_swapper(""), "");
}

#[test]
fn winner_takes_the_most_frequent_headword() {
    let sentences = texts(&[("a/1", "esse")]);
    let parsemap = cands(&[("esse", &["sum", "edo"])]);
    let rows = vec![
        WeightedHeadword { wd: "sum".to_string(), ct: 1000 },
        WeightedHeadword { wd: "edo".to_string(), ct: 3 },
    ];
    let scores = sv_headwordscores(&sv_allheadwords(&parsemap), &rows);
    let bags = sv_buildwinnertakesallbags(&sentences, &parsemap, &scores);
    assert_eq!(bags.get("a/1").unwrap(), "sum");
}

#[test]
fn winner_ties_go_to_the_last_listed_and_case_is_folded() {
    let sentences = texts(&[("a/1", "roma esse")]);
    let parsemap = cands(&[("Roma", &["Roma"]), ("esse", &["sum", "edo"])]);
    let mut scores = KeyedMap::new();
    scores.insert("Sum".to_string(), 5);
    scores.insert("edo".to_string(), 5);
    let bags = sv_buildwinnertakesallbags(&sentences, &parsemap, &scores);
    assert_eq!(bags.get("a/1").unwrap(), "roma edo");
}

#[test]
fn winner_choice_is_stable_on_rerun() {
    let sentences = texts(&[("a/1", "esse est")]);
    let parsemap = cands(&[("esse", &["sum", "edo"]), ("est", &["edo", "sum"])]);
    let mut scores = KeyedMap::new();
    scores.insert("sum".to_string(), 10);
    scores.insert("edo".to_string(), 2);
    let first = sv_buildwinnertakesallbags(&sentences, &parsemap, &scores);
    let second = sv_buildwinnertakesallbags(&sentences, &parsemap, &scores);
    assert_eq!(entries(&first), entries(&second));
    let chosen = cands(&[("esse", &["sum"]), ("est", &["sum"])]);
    let third = sv_buildwinnertakesallbags(&sentences, &chosen, &scores);
    assert_eq!(entries(&third), entries(&first));
    assert_eq!(first.get("a/1").unwrap(), "sum sum");
}

#[test]
fn unscored_headwords_score_zero() {
    let hw = strings(&["sum", "edo", "ego"]);
    let rows = vec![WeightedHeadword { wd: "edo".to_string(), ct: 7 }];
    let scores = sv_headwordscores(&hw, &rows);
    assert_eq!(scores.len(), 3);
    assert_eq!(*scores.get("edo").unwrap(), 7);
    assert_eq!(*scores.get("sum").unwrap(), 0);
    assert_eq!(*scores.get("ego").unwrap(), 0);
}

#[test]
fn sentences_without_locus_overwrite_each_other() {
    let pieces = strings(&["prima pars", "secunda pars"]);
    let sentences = sv_buildsentences(&pieces, 1);
    assert_eq!(sentences.len(), 1);
    assert_eq!(sentences.get("").unwrap(), "secunda pars");
}

#[test]
fn stopword_is_dropped() {
    let bags = texts(&[("l", "gallia est omnis divisa")]);
    let out = sv_dropstopwords("est", &bags);
    assert_eq!(out.get("l").unwrap(), "gallia omnis divisa");
}

#[test]
fn stopword_passes_keep_empty_bags() {
    let bags = texts(&[("l", "et in"), ("m", "gallia et")]);
    let out = sv_purgestopwords(&bags);
    assert_eq!(out.get("l").unwrap(), "");
    assert_eq!(out.get("m").unwrap(), "gallia");
}

#[test]
fn line_order_does_not_change_sentences() {
    let a = vec![line("lt0448", 1, "Gallia est omnis"), line("lt0448", 2, "divisa in partes tres.")];
    let b = vec![line("lt0448", 2, "divisa in partes tres."), line("lt0448", 1, "Gallia est omnis")];
    let sa = sv_sentencesfromlines(&a, 1).unwrap();
    let sb = sv_sentencesfromlines(&b, 1).unwrap();
    assert_eq!(entries(&sa), entries(&sb));
    assert_eq!(sa.get("lt0448/1").unwrap(), "gallia est omnis diuisa in partes tres");
}

#[test]
fn lines_sort_by_work_then_index() {
    let lines = vec![line("lt0449", 1, "c"), line("lt0448", 10, "b"), line("lt0448", 9, "a")];
    assert_eq!(sv_assembletext(&lines), "⊏lt0448/9⊐a ⊏lt0448/10⊐b ⊏lt0449/1⊐c");
    assert_eq!(sv_assembletext(&Vec::new()), "");
    assert_eq!(sv_assembletext(&vec![line("x", -3, "y")]), "⊏x/-3⊐y");
}

#[test]
fn unresolved_tokens_survive_every_strategy() {
    let sentences = texts(&[("a/1", "gallia sum")]);
    let words = sv_findallwords(&sv_sentencetexts(&sentences));
    let rows = vec![DbMorphology {
        obs: "sum".to_string(),
        xrf: String::new(),
        pxr: String::new(),
        rpo: "sum edo".to_string(),
        upo: sv_parsepossibilities("sum edo"),
    }];
    let mm = sv_buildmorphmap(&words, &rows);
    assert_eq!(mm.get("gallia").unwrap(), &strings(&["gallia"]));
    let flat = sv_buildflatbags(&sentences, &mm);
    assert_eq!(flat.get("a/1").unwrap(), "gallia sum edo");
    let comp = sv_buildcompositebags(&sentences, &mm);
    assert_eq!(comp.get("a/1").unwrap(), "gallia sum·edo");
    let scores = sv_headwordscores(&sv_allheadwords(&mm), &Vec::new());
    let wta = sv_buildwinnertakesallbags(&sentences, &mm, &scores);
    assert_eq!(wta.get("a/1").unwrap(), "gallia edo");
}

#[test]
fn composite_collapses_runs_of_spaces() {
    let sentences = texts(&[("a", "x y z")]);
    let mm = cands(&[("x", &[]), ("y", &[]), ("z", &["p", "q"])]);
    let comp = sv_buildcompositebags(&sentences, &mm);
    assert_eq!(comp.get("a").unwrap(), " p·q");
}

#[test]
fn tokens_without_entry_are_dropped() {
    let sentences = texts(&[("a", "x y")]);
    let mm = cands(&[("y", &["q"])]);
    assert_eq!(sv_buildflatbags(&sentences, &mm).get("a").unwrap(), "q");
}

#[test]
fn unknown_strategy_passes_sentences_through() {
    assert_eq!(sv_baggingmethod("flat"), Bagging::Flat);
    assert_eq!(sv_baggingmethod("alternates"), Bagging::Composite);
    assert_eq!(sv_baggingmethod("winnertakesall"), Bagging::WinnerTakesAll);
    assert_eq!(sv_baggingmethod("unlemmatized"), Bagging::Unchanged);
    let sentences = texts(&[("a", "x  y")]);
    let out = sv_buildbags(Bagging::Unchanged, &sentences, &KeyedMap::new(), &KeyedMap::new());
    assert_eq!(entries(&out), entries(&sentences));
}

#[test]
fn empty_bags_are_not_stored() {
    let bags = texts(&[("a", "gallia"), ("b", ""), ("c", "omnis")]);
    let recs = sv_bagrecords(&bags);
    assert_eq!(recs, strings(&["{\"Loc\":\"a\",\"Bag\":\"gallia\"}", "{\"Loc\":\"c\",\"Bag\":\"omnis\"}"]));
}

#[test]
fn bag_record_escapes_json() {
    assert_eq!(sv_bagrecord("a\"b", "c\\d\n\u{1}"), "{\"Loc\":\"a\\\"b\",\"Bag\":\"c\\\\d\\n\\u0001\"}");
}

#[test]
fn markup_is_purged() {
    let pats = strings(&["&nbsp;", "- ", "<.*?>"]);
    assert_eq!(sv_stripper("<hmu_a>Gal- lia</hmu_a>&nbsp;est", &pats).unwrap(), "Galliaest");
    assert_eq!(sv_normalize("<i>vjσς</i>").unwrap(), "uiϲϲ");
}

#[test]
fn invalid_purge_pattern_is_reported() {
    assert!(sv_stripper("text", &strings(&["("])).is_none());
}

#[test]
fn sentences_are_split_and_grouped() {
    let pieces = sv_splitsentences("⊏a/1⊐Una. Duo? ⊏a/2⊐Tres! quattuor; quinque·");
    assert_eq!(pieces, strings(&["⊏a/1⊐Una", " Duo", " ⊏a/2⊐Tres", " quattuor", " quinque", ""]));
    let grouped = sv_buildsentences(&pieces, 2);
    assert_eq!(
        entries(&grouped),
        vec![
            ("a/1".to_string(), "una duo".to_string()),
            ("a/2".to_string(), " tres quattuor".to_string()),
            ("".to_string(), " quinque".to_string()),
        ]
    );
}

#[test]
fn sentence_cleaning_keeps_only_the_alphabet() {
    let pieces = strings(&["⊏x/1⊐ΛΌΓΟΣ 12 Ἀρχή, καὶ"]);
    let s = sv_buildsentences(&pieces, 1);
    assert_eq!(s.get("x/1").unwrap(), "λόγος  ἀρχή καὶ");
}

#[test]
fn words_are_collected_once_in_order() {
    let ws = sv_findallwords(&strings(&["b a b", " c  a"]));
    assert_eq!(ws, strings(&["b", "a", "c"]));
}

#[test]
fn words_are_split_by_language() {
    assert!(sv_islatin("gallia"));
    assert!(!sv_islatin("λόγοϲ"));
    let (latin, greek) = sv_partitionbylanguage(&strings(&["gallia", "λόγοϲ", "est"]));
    assert_eq!(latin, strings(&["gallia", "est"]));
    assert_eq!(greek, strings(&["λόγοϲ"]));
}

#[test]
fn search_terms_include_capitalised_forms() {
    let terms = sv_searchterms(&strings(&["ϲωκράτηϲ", "roma"]));
    assert_eq!(terms, strings(&["Ϲωκράτηϲ", "Roma", "ϲωκράτηϲ", "roma"]));
}

#[test]
fn later_morphology_rows_overwrite_earlier() {
    let row = |o: &str, r: &str| DbMorphology {
        obs: o.to_string(),
        xrf: String::new(),
        pxr: String::new(),
        rpo: r.to_string(),
        upo: sv_parsepossibilities(r),
    };
    let mm = sv_buildmorphmap(&strings(&["est"]), &vec![row("est", "edo"), row("est", " sum  edo ")]);
    assert_eq!(mm.len(), 1);
    assert_eq!(mm.get("est").unwrap(), &strings(&["sum", "edo"]));
}

#[test]
fn all_headwords_are_distinct() {
    let mm = cands(&[("esse", &["sum", "edo"]), ("est", &["sum"]), ("ego", &["ego"])]);
    assert_eq!(sv_allheadwords(&mm), strings(&["sum", "edo", "ego"]));
}

#[test]
fn grave_accents_become_acute() {
    assert_eq!(sv_acuteforgrave("καὶ τὸν ᾂ".to_string()), "καί τόν ᾄ");
}

#[test]
fn stopword_lists_commute() {
    let bags = texts(&[("l", "gallia est omnis divisa est")]);
    let ab = sv_dropstopwords("omnis", &sv_dropstopwords("est", &bags));
    let ba = sv_dropstopwords("est", &sv_dropstopwords("omnis", &bags));
    assert_eq!(ab.get("l").unwrap(), "gallia divisa");
    assert_eq!(entries(&ab), entries(&ba));
}
