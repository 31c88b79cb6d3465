//! Normalisation of the assembled text: markup purge, orthographic
//! canonicalisation and abbreviation expansion, in that order.

use vstd::prelude::*;

use crate::text::{
    append_chars, chars_eq, chars_of, char_views, join, join_chars, split_chars, split_words,
    string_of,
};

verus! {

/// What removing every match of a regular expression leaves of a text, or
/// `None` where the expression does not compile.
pub uninterp spec fn regex_erased(pattern: Seq<char>, text: Seq<char>) -> Option<Seq<char>>;

/// Relies on `regex::Regex::new` and `Regex::replace_all` with an empty
/// replacement: `None` where the pattern is rejected, else the text with each
/// successive non-overlapping match removed.
#[verifier::external_body]
fn erase_matches(pattern: &str, text: &str) -> (r: Option<String>)
    ensures
        match r {
            Some(t) => regex_erased(pattern@, text@) == Some(t@),
            None => regex_erased(pattern@, text@) is None,
        },
{
    match regex::Regex::new(pattern) {
        Ok(re) => Some(re.replace_all(text, "").into_owned()),
        Err(_) => None,
    }
}

/// `text` after erasing the matches of each pattern in turn; `None` as soon
/// as one pattern does not compile.
pub open spec fn purged(text: Seq<char>, patterns: Seq<Seq<char>>) -> Option<Seq<char>>
    decreases patterns.len(),
{
    if patterns.len() == 0 {
        Some(text)
    } else {
        match regex_erased(patterns[0], text) {
            Some(t) => purged(t, patterns.drop_first()),
            None => None,
        }
    }
}

/// Erases the matches of each pattern of `topurge` from `text`, in order.
pub fn sv_stripper(text: &str, topurge: &Vec<String>) -> (r: Option<String>)
    ensures
        match r {
            Some(t) => purged(text@, crate::text::string_views(topurge@)) == Some(t@),
            None => purged(text@, crate::text::string_views(topurge@)) is None,
        },
{
    let ghost pats = crate::text::string_views(topurge@);
    let mut cur = String::from_str(text);
    let mut i: usize = 0;
    assert(pats.skip(0) =~= pats);
    while i < topurge.len()
        invariant
            i <= topurge.len(),
            pats == crate::text::string_views(topurge@),
            purged(text@, pats) == purged(cur@, pats.skip(i as int)),
        decreases topurge.len() - i,
    {
        proof {
            assert(pats.skip(i as int).drop_first() =~= pats.skip(i + 1));
        }
        match erase_matches(topurge[i].as_str(), cur.as_str()) {
            Some(t) => {
                cur = t;
            },
            None => {
                return None;
            },
        }
        i += 1;
    }
    proof {
        assert(pats.skip(i as int) =~= Seq::<Seq<char>>::empty());
    }
    Some(cur)
}

/// The markup purged before anything else: non-breaking-space entities,
/// hyphenation breaks, then any tag.
pub fn purge_patterns() -> (r: Vec<String>)
    ensures
        crate::text::string_views(r@) == seq!["&nbsp;"@, "- "@, "<.*?>"@],
{
    let r = vec![String::from_str("&nbsp;"), String::from_str("- "), String::from_str("<.*?>")];
    assert(crate::text::string_views(r@) =~= seq!["&nbsp;"@, "- "@, "<.*?>"@]);
    r
}

/// One spelling for letters written two ways: `v` as `u`, `j` as `i`, and
/// both sigmas as the lunate sigma.
pub open spec fn canonical_char(c: char) -> char {
    if c == 'v' {
        'u'
    } else if c == 'j' {
        'i'
    } else if c == 'σ' || c == 'ς' {
        'ϲ'
    } else {
        c
    }
}

/// `text` with every character in its canonical spelling.
pub fn canonicalize(text: &Vec<char>) -> (r: Vec<char>)
    ensures
        r@ == text@.map_values(|c: char| canonical_char(c)),
{
    let mut out: Vec<char> = Vec::new();
    let mut i: usize = 0;
    while i < text.len()
        invariant
            i <= text.len(),
            out@ == text@.take(i as int).map_values(|c: char| canonical_char(c)),
        decreases text.len() - i,
    {
        let c = text[i];
        let d = if c == 'v' {
            'u'
        } else if c == 'j' {
            'i'
        } else if c == 'σ' || c == 'ς' {
            'ϲ'
        } else {
            c
        };
        out.push(d);
        proof {
            assert(text@.take(i + 1).map_values(|c: char| canonical_char(c)) =~= text@.take(
                i as int,
            ).map_values(|c: char| canonical_char(c)).push(d));
        }
        i += 1;
    }
    proof {
        assert(text@.take(text@.len() as int) =~= text@);
    }
    out
}

/// The acute-accented counterpart of a grave-accented Greek vowel; any other
/// character is itself.
pub open spec fn acute_for_grave(c: char) -> char {
    if c == 'ὰ' { 'ά' } else if c == 'ὲ' { 'έ' } else if c == 'ὶ' { 'ί' } else if c == 'ὸ' { 'ό' }
    else if c == 'ὺ' { 'ύ' } else if c == 'ὴ' { 'ή' } else if c == 'ὼ' { 'ώ' }
    else if c == 'ἂ' { 'ἄ' } else if c == 'ἒ' { 'ἔ' } else if c == 'ἲ' { 'ἴ' }
    else if c == 'ὂ' { 'ὄ' } else if c == 'ὒ' { 'ὔ' } else if c == 'ἢ' { 'ἤ' }
    else if c == 'ὢ' { 'ὤ' } else if c == 'ᾃ' { 'ᾅ' } else if c == 'ᾓ' { 'ᾕ' }
    else if c == 'ᾣ' { 'ᾥ' } else if c == 'ᾂ' { 'ᾄ' } else if c == 'ᾒ' { 'ᾔ' }
    else if c == 'ᾢ' { 'ᾤ' } else { c }
}

fn acute_char(c: char) -> (r: char)
    ensures
        r == acute_for_grave(c),
{
    if c == 'ὰ' { 'ά' } else if c == 'ὲ' { 'έ' } else if c == 'ὶ' { 'ί' } else if c == 'ὸ' { 'ό' }
    else if c == 'ὺ' { 'ύ' } else if c == 'ὴ' { 'ή' } else if c == 'ὼ' { 'ώ' }
    else if c == 'ἂ' { 'ἄ' } else if c == 'ἒ' { 'ἔ' } else if c == 'ἲ' { 'ἴ' }
    else if c == 'ὂ' { 'ὄ' } else if c == 'ὒ' { 'ὔ' } else if c == 'ἢ' { 'ἤ' }
    else if c == 'ὢ' { 'ὤ' } else if c == 'ᾃ' { 'ᾅ' } else if c == 'ᾓ' { 'ᾕ' }
    else if c == 'ᾣ' { 'ᾥ' } else if c == 'ᾂ' { 'ᾄ' } else if c == 'ᾒ' { 'ᾔ' }
    else if c == 'ᾢ' { 'ᾤ' } else { c }
}

/// Replaces each grave accent on a Greek vowel by the acute.
pub fn sv_acuteforgrave(text: String) -> (r: String)
    ensures
        r@ == text@.map_values(|c: char| acute_for_grave(c)),
{
    let cs = chars_of(text.as_str());
    let mut out: Vec<char> = Vec::new();
    let mut i: usize = 0;
    while i < cs.len()
        invariant
            i <= cs.len(),
            out@ == cs@.take(i as int).map_values(|c: char| acute_for_grave(c)),
        decreases cs.len() - i,
    {
        let d = acute_char(cs[i]);
        out.push(d);
        proof {
            assert(cs@.take(i + 1).map_values(|c: char| acute_for_grave(c)) =~= cs@.take(
                i as int,
            ).map_values(|c: char| acute_for_grave(c)).push(d));
        }
        i += 1;
    }
    proof {
        assert(cs@.take(cs@.len() as int) =~= cs@);
    }
    string_of(&out)
}


/// The views of a table of string pairs.
pub open spec fn pair_views(t: Seq<(&str, &str)>) -> Seq<(Seq<char>, Seq<char>)> {
    t.map_values(|p: (&str, &str)| (p.0@, p.1@))
}

/// The abbreviations that are written out in full, each with its expansion.
pub open spec fn abbreviations() -> Seq<(Seq<char>, Seq<char>)> {
    seq![
        ("A."@, "Aulus"@),
        ("App."@, "Appius"@),
        ("C."@, "Caius"@),
        ("G."@, "Gaius"@),
        ("Cn."@, "Cnaius"@),
        ("D."@, "Decimus"@),
        ("L."@, "Lucius"@),
        ("M."@, "Marcus"@),
        ("M.’"@, "Manius"@),
        ("N."@, "Numerius"@),
        ("P."@, "Publius"@),
        ("Q."@, "Quintus"@),
        ("S."@, "Spurius"@),
        ("Sp."@, "Spurius"@),
        ("Ser."@, "Servius"@),
        ("Sex."@, "Sextus"@),
        ("T."@, "Titus"@),
        ("Ti."@, "Tiberius"@),
        ("V."@, "Vibius"@),
        ("a."@, "ante"@),
        ("d."@, "dies"@),
        ("Id."@, "Idibus"@),
        ("Kal."@, "Kalendas"@),
        ("Non."@, "Nonas"@),
        ("prid."@, "pridie"@),
        ("Ian."@, "Ianuarias"@),
        ("Feb."@, "Februarias"@),
        ("Mart."@, "Martias"@),
        ("Apr."@, "Aprilis"@),
        ("Mai."@, "Maias"@),
        ("Iun."@, "Iunias"@),
        ("Quint."@, "Quintilis"@),
        ("Sext."@, "Sextilis"@),
        ("Sept."@, "Septembris"@),
        ("Oct."@, "Octobris"@),
        ("Nov."@, "Novembris"@),
        ("Dec."@, "Decembris"@),
    ]
}

/// The abbreviation table as string slices.
pub fn abbreviation_table() -> (r: Vec<(&'static str, &'static str)>)
    ensures
        pair_views(r@) == abbreviations(),
{
    let r = vec![
        ("A.", "Aulus"),
        ("App.", "Appius"),
        ("C.", "Caius"),
        ("G.", "Gaius"),
        ("Cn.", "Cnaius"),
        ("D.", "Decimus"),
        ("L.", "Lucius"),
        ("M.", "Marcus"),
        ("M.’", "Manius"),
        ("N.", "Numerius"),
        ("P.", "Publius"),
        ("Q.", "Quintus"),
        ("S.", "Spurius"),
        ("Sp.", "Spurius"),
        ("Ser.", "Servius"),
        ("Sex.", "Sextus"),
        ("T.", "Titus"),
        ("Ti.", "Tiberius"),
        ("V.", "Vibius"),
        ("a.", "ante"),
        ("d.", "dies"),
        ("Id.", "Idibus"),
        ("Kal.", "Kalendas"),
        ("Non.", "Nonas"),
        ("prid.", "pridie"),
        ("Ian.", "Ianuarias"),
        ("Feb.", "Februarias"),
        ("Mart.", "Martias"),
        ("Apr.", "Aprilis"),
        ("Mai.", "Maias"),
        ("Iun.", "Iunias"),
        ("Quint.", "Quintilis"),
        ("Sext.", "Sextilis"),
        ("Sept.", "Septembris"),
        ("Oct.", "Octobris"),
        ("Nov.", "Novembris"),
        ("Dec.", "Decembris"),
    ];
    assert(pair_views(r@) =~= abbreviations());
    r
}

/// The expansion of the first entry of `table` whose abbreviation is `w`.
pub open spec fn lookup(table: Seq<(Seq<char>, Seq<char>)>, w: Seq<char>) -> Option<Seq<char>>
    decreases table.len(),
{
    if table.len() == 0 {
        None
    } else if table[0].0 == w {
        Some(table[0].1)
    } else {
        lookup(table.drop_first(), w)
    }
}

/// A word with its expansion where it is a listed abbreviation.
pub open spec fn expanded(w: Seq<char>) -> Seq<char> {
    match lookup(abbreviations(), w) {
        Some(full) => full,
        None => w,
    }
}

/// The text after abbreviation expansion: its words, split on ASCII
/// whitespace, each expanded, joined by single spaces.
pub open spec fn swapped(text: Seq<char>) -> Seq<char> {
    join(split_words(text, true).map_values(|w: Seq<char>| expanded(w)), seq![' '])
}

fn expand_word(table: &Vec<(Vec<char>, Vec<char>)>, w: &Vec<char>) -> (r: Vec<char>)
    requires
        table@.map_values(|p: (Vec<char>, Vec<char>)| (p.0@, p.1@)) == abbreviations(),
    ensures
        r@ == expanded(w@),
{
    let ghost tv = table@.map_values(|p: (Vec<char>, Vec<char>)| (p.0@, p.1@));
    let mut i: usize = 0;
    assert(tv.skip(0) =~= tv);
    while i < table.len()
        invariant
            i <= table.len(),
            tv == table@.map_values(|p: (Vec<char>, Vec<char>)| (p.0@, p.1@)),
            tv == abbreviations(),
            lookup(tv, w@) == lookup(tv.skip(i as int), w@),
        decreases table.len() - i,
    {
        assert(tv.skip(i as int).drop_first() =~= tv.skip(i + 1));
        assert(tv.skip(i as int)[0] == (table@[i as int].0@, table@[i as int].1@));
        if chars_eq(&table[i].0, w) {
            let mut out: Vec<char> = Vec::new();
            append_chars(&mut out, &table[i].1);
            assert(out@ =~= table@[i as int].1@);
            return out;
        }
        i += 1;
    }
    let mut out: Vec<char> = Vec::new();
    append_chars(&mut out, w);
    assert(out@ =~= w@);
    assert(tv.skip(i as int) =~= Seq::<(Seq<char>, Seq<char>)>::empty());
    out
}

/// Writes out in full every whole word that is a listed abbreviation; words
/// are split on ASCII whitespace and joined again by single spaces.
pub fn sv_swapper(text: &str) -> (r: String)
    ensures
        r@ == swapped(text@),
{
    let strs = abbreviation_table();
    let mut table: Vec<(Vec<char>, Vec<char>)> = Vec::new();
    let mut k: usize = 0;
    while k < strs.len()
        invariant
            k <= strs.len(),
            pair_views(strs@) == abbreviations(),
            table@.map_values(|p: (Vec<char>, Vec<char>)| (p.0@, p.1@)) == pair_views(strs@).take(k as int),
        decreases strs.len() - k,
    {
        let a = chars_of(strs[k].0);
        let b = chars_of(strs[k].1);
        let ghost before = table@;
        table.push((a, b));
        assert(table@ == before.push((a, b)));
        assert(table@.map_values(|p: (Vec<char>, Vec<char>)| (p.0@, p.1@)) =~= before.map_values(
            |p: (Vec<char>, Vec<char>)| (p.0@, p.1@),
        ).push((a@, b@)));
        assert(pair_views(strs@).take(k + 1) =~= pair_views(strs@).take(k as int).push((a@, b@)));
        k += 1;
    }
    assert(pair_views(strs@).take(strs@.len() as int) =~= pair_views(strs@));
    let cs = chars_of(text);
    let ws = split_chars(&cs, true);
    let mut out: Vec<Vec<char>> = Vec::new();
    let mut i: usize = 0;
    while i < ws.len()
        invariant
            i <= ws.len(),
            table@.map_values(|p: (Vec<char>, Vec<char>)| (p.0@, p.1@)) == abbreviations(),
            char_views(out@) == char_views(ws@).take(i as int).map_values(|w: Seq<char>| expanded(w)),
        decreases ws.len() - i,
    {
        let e = expand_word(&table, &ws[i]);
        let ghost before = out@;
        let ghost ev = e@;
        out.push(e);
        assert(char_views(out@) =~= char_views(before).push(ev));
        assert(char_views(ws@).take(i + 1) =~= char_views(ws@).take(i as int).push(ws@[i as int]@));
        assert(char_views(out@) =~= char_views(ws@).take(i + 1).map_values(|w: Seq<char>| expanded(w)));
        i += 1;
    }
    assert(char_views(ws@).take(ws@.len() as int) =~= char_views(ws@));
    let joined = join_chars(&out, ' ');
    string_of(&joined)
}


/// The normalised text: markup purged, spelling canonicalised, abbreviations
/// expanded; `None` where a purge pattern does not compile.
pub open spec fn normalized(text: Seq<char>) -> Option<Seq<char>> {
    match purged(text, seq!["&nbsp;"@, "- "@, "<.*?>"@]) {
        Some(p) => Some(swapped(p.map_values(|c: char| canonical_char(c)))),
        None => None,
    }
}

/// Purges markup, canonicalises spelling and expands abbreviations, in that order.
pub fn sv_normalize(text: &str) -> (r: Option<String>)
    ensures
        match r {
            Some(t) => normalized(text@) == Some(t@),
            None => normalized(text@) is None,
        },
{
    let patterns = purge_patterns();
    match sv_stripper(text, &patterns) {
        Some(p) => {
            let cs = chars_of(p.as_str());
            let canon = canonicalize(&cs);
            let cstr = string_of(&canon);
            Some(sv_swapper(cstr.as_str()))
        },
        None => None,
    }
}

} // verus!
