//! The two fixed stopword passes: headword-level first, then
//! inflected-surface-level. Each drops every whitespace token that is on its
//! list exactly; bags left empty are kept at this stage.

use vstd::hash_set::StringHashSet;
use vstd::prelude::*;

use crate::keyed::{lemma_aligned, lemma_fresh, text_view, KeyedMap};
use crate::text::{char_views, chars_of, join, join_chars, split_chars, string_of, words};

verus! {

/// Headwords that carry no topical weight.
pub const SKIPHEADWORDS: &'static str = "unus verum omne sum¹ ab δύο πρότεροϲ ἄνθρωποϲ τίϲ δέω¹ ὅϲτιϲ homo πᾶϲ οὖν εἶπον ἠμί ἄν² tantus μένω μέγαϲ οὐ verus neque eo¹ nam μέν ἡμόϲ aut Sue διό reor ut ἐγώ is πωϲ ἐκάϲ enim ὅτι² παρά ἐν Ἔχιϲ sed ἐμόϲ οὐδόϲ ad de ita πηρόϲ οὗτοϲ an ἐπεί a γάρ αὐτοῦ ἐκεῖνοϲ ἀνά ἑαυτοῦ quam αὐτόϲε et ὑπό quidem Alius¹ οἷοϲ noster γίγνομαι ἄνα προϲάμβ ἄν¹ οὕτωϲ pro² tamen ἐάν atque τε qui² si multus idem οὐδέ ἐκ omnes γε causa δεῖ πολύϲ in ἔδω ὅτι¹ μή Ios ἕτεροϲ cum meus ὅλοξ suus omnis ὡϲ sua μετά Ἀλλά ne¹ jam εἰϲ ἤ² ἄναξ ἕ ὅϲοϲ dies ipse ὁ hic οὐδείϲ suo ἔτι ἄνω¹ ὅϲ νῦν ὁμοῖοϲ edo¹ εἰ qui¹ πάλιν ὥϲπερ ne³ ἵνα τιϲ διά φύω per τοιοῦτοϲ for eo² huc locum neo¹ sui non ἤ¹ χάω ex κατά δή ἁμόϲ dico² ὅμοιοϲ αὐτόϲ etiam vaco πρόϲ Ζεύϲ ϲύ quis¹ tuus b εἷϲ Eos οὔτε τῇ καθά ego tu ille pro¹ ἀπό suum εἰμί ἄλλοϲ δέ alius² pars vel ὥϲτε χέω res ἡμέρα quo δέομαι modus ὑπέρ ϲόϲ ito τῷ περί Τήιοϲ ἕκαϲτοϲ autem καί ἐπί nos θεάω γάρον γάροϲ Cos²";

/// Inflected forms that carry no topical weight.
pub const SKIPINFLECTED: &'static str = "ita a inquit ego die nunc nos quid πάντων ἤ με θεόν δεῖ for igitur ϲύν b uers p ϲου τῷ εἰϲ ergo ἐπ ὥϲτε sua me πρό sic aut nisi rem πάλιν ἡμῶν φηϲί παρά ἔϲτι αὐτῆϲ τότε eos αὐτούϲ λέγει cum τόν quidem ἐϲτιν posse αὐτόϲ post αὐτῶν libro m hanc οὐδέ fr πρῶτον μέν res ἐϲτι αὐτῷ οὐχ non ἐϲτί modo αὐτοῦ sine ad uero fuit τοῦ ἀπό ea ὅτι parte ἔχει οὔτε ὅταν αὐτήν esse sub τοῦτο i omnes break μή ἤδη ϲοι sibi at mihi τήν in de τούτου ab omnia ὃ ἦν γάρ οὐδέν quam per α autem eius item ὡϲ sint length οὗ λόγον eum ἀντί ex uel ἐπειδή re ei quo ἐξ δραχμαί αὐτό ἄρα ἔτουϲ ἀλλ οὐκ τά ὑπέρ τάϲ μάλιϲτα etiam haec nihil οὕτω siue nobis si itaque uac erat uestig εἶπεν ἔϲτιν tantum tam nec unde qua hoc quis iii ὥϲπερ semper εἶναι e ½ is quem τῆϲ ἐγώ καθ his θεοῦ tibi ubi pro ἄν πολλά τῇ πρόϲ l ἔϲται οὕτωϲ τό ἐφ ἡμῖν οἷϲ inter idem illa n se εἰ μόνον ac ἵνα ipse erit μετά μοι δι γε enim ille an sunt esset γίνεται omnibus ne ἐπί τούτοιϲ ὁμοίωϲ παρ causa neque cr ἐάν quos ταῦτα h ante ἐϲτίν ἣν αὐτόν eo ὧν ἐπεί οἷον sed ἀλλά ii ἡ t te ταῖϲ est sit cuius καί quasi ἀεί o τούτων ἐϲ quae τούϲ minus quia tamen iam d διά primum r τιϲ νῦν illud u apud c ἐκ δ quod f quoque tr τί ipsa rei hic οἱ illi et πῶϲ φηϲίν τοίνυν s magis unknown οὖν dum text μᾶλλον λόγοϲ habet τοῖϲ qui αὐτοῖϲ suo πάντα uacat τίϲ pace ἔχειν οὐ κατά contra δύο ἔτι αἱ uet οὗτοϲ deinde id ut ὑπό τι lin ἄλλων τε tu ὁ cf δή potest ἐν eam tum μου nam θεόϲ κατ ὦ cui nomine περί atque δέ quibus ἡμᾶϲ τῶν eorum";

/// The bag `b` without the tokens that are words of `todrop`.
pub open spec fn dropped(b: Seq<char>, todrop: Seq<char>) -> Seq<char> {
    join(words(b).filter(|w: Seq<char>| !words(todrop).contains(w)), seq![' '])
}

fn drop_in_text(b: &String, stop: &StringHashSet, todrop: Ghost<Seq<char>>) -> (r: String)
    requires
        forall|x: Seq<char>| stop@.contains(x) <==> words(todrop@).contains(x),
    ensures
        r@ == dropped(b@, todrop@),
{
    let cs = chars_of(b.as_str());
    let ws = split_chars(&cs, false);
    let ghost wv = char_views(ws@);
    let ghost keep = |w: Seq<char>| !words(todrop@).contains(w);
    let mut out: Vec<Vec<char>> = Vec::new();
    let mut i: usize = 0;
    proof {
        reveal(Seq::filter);
        assert(wv.take(0) =~= Seq::<Seq<char>>::empty());
    }
    while i < ws.len()
        invariant
            i <= ws.len(),
            wv == char_views(ws@),
            keep == (|w: Seq<char>| !words(todrop@).contains(w)),
            forall|x: Seq<char>| stop@.contains(x) <==> words(todrop@).contains(x),
            char_views(out@) == wv.take(i as int).filter(keep),
        decreases ws.len() - i,
    {
        proof {
            reveal(Seq::filter);
            assert(wv.take(i + 1).drop_last() =~= wv.take(i as int));
        }
        let w = string_of(&ws[i]);
        if !stop.contains(w.as_str()) {
            let mut c: Vec<char> = Vec::new();
            crate::text::append_chars(&mut c, &ws[i]);
            let ghost before = out@;
            out.push(c);
            assert(char_views(out@) =~= char_views(before).push(wv[i as int]));
        }
        i += 1;
    }
    assert(wv.take(ws@.len() as int) =~= wv);
    let joined = join_chars(&out, ' ');
    string_of(&joined)
}

/// Drops from every bag each token that is one of the whitespace-separated
/// words of `todrop`; bags left empty stay.
pub fn sv_dropstopwords(todrop: &str, bags: &KeyedMap<String>) -> (r: KeyedMap<String>)
    requires
        bags.wf(),
    ensures
        r.wf(),
        text_view(r@) == text_view(bags@).map_values(|b: Seq<char>| dropped(b, todrop@)),
{
    let tcs = chars_of(todrop);
    let tws = split_chars(&tcs, false);
    let mut stop = StringHashSet::new();
    let mut k: usize = 0;
    while k < tws.len()
        invariant
            k <= tws.len(),
            char_views(tws@) == words(todrop@),
            forall|x: Seq<char>| stop@.contains(x) <==> char_views(tws@).take(k as int).contains(x),
        decreases tws.len() - k,
    {
        let w = string_of(&tws[k]);
        stop.insert(w);
        proof {
            let t1 = char_views(tws@).take(k + 1);
            let t0 = char_views(tws@).take(k as int);
            assert(t1 =~= t0.push(tws@[k as int]@));
            assert forall|x: Seq<char>| stop@.contains(x) <==> t1.contains(x) by {
                if t1.contains(x) && x != tws@[k as int]@ {
                    let m = choose|m: int| 0 <= m < t1.len() && t1[m] == x;
                    assert(t0[m] == x);
                }
                if t0.contains(x) {
                    let m = choose|m: int| 0 <= m < t0.len() && t0[m] == x;
                    assert(t1[m] == x);
                }
                if x == tws@[k as int]@ {
                    assert(t1[k as int] == x);
                }
            }
        }
        k += 1;
    }
    assert(char_views(tws@).take(tws@.len() as int) =~= char_views(tws@));
    let ghost ks = bags.key_seq();
    let mut out: KeyedMap<String> = KeyedMap::new();
    let n = bags.len();
    let mut i: usize = 0;
    assert(ks.take(0) =~= Seq::<Seq<char>>::empty());
    while i < n
        invariant
            i <= n,
            n == ks.len(),
            bags.wf(),
            out.wf(),
            ks == bags.key_seq(),
            forall|x: Seq<char>| stop@.contains(x) <==> words(todrop@).contains(x),
            out.key_seq() == ks.take(i as int),
            out.val_seq().len() == i,
            forall|j: int|
                0 <= j < i ==> (#[trigger] out.val_seq()[j])@ == dropped(bags.val_seq()[j]@, todrop@),
        decreases n - i,
    {
        proof {
            bags.lemma_entries();
            lemma_fresh(bags, &out, i as int);
        }
        let key = bags.key_at(i).clone();
        let val = drop_in_text(bags.value_at(i), &stop, Ghost(todrop@));
        let ghost old_vals = out.val_seq();
        out.insert(key, val);
        proof {
            assert(ks.take(i + 1) =~= ks.take(i as int).push(ks[i as int]));
            assert forall|j: int| 0 <= j < i + 1 implies (#[trigger] out.val_seq()[j])@ == dropped(
                bags.val_seq()[j]@,
                todrop@,
            ) by {
                if j < i {
                    assert(out.val_seq()[j] == old_vals[j]);
                }
            }
        }
        i += 1;
    }
    proof {
        assert(ks.take(n as int) =~= ks);
        let rel = |a: String, b: String| b@ == dropped(a@, todrop@);
        assert forall|j: int| 0 <= j < bags.val_seq().len() implies #[trigger] rel(
            bags.val_seq()[j],
            out.val_seq()[j],
        ) by {
            bags.lemma_entries();
        }
        lemma_aligned(bags, &out, rel);
        assert(text_view(out@) =~= text_view(bags@).map_values(|b: Seq<char>| dropped(b, todrop@)));
    }
    out
}

/// A bag after both stopword passes, headwords first.
pub open spec fn without_stopwords(b: Seq<char>) -> Seq<char> {
    dropped(dropped(b, SKIPHEADWORDS@), SKIPINFLECTED@)
}

/// Applies the headword list, then the inflected-form list, to every bag.
pub fn sv_purgestopwords(bags: &KeyedMap<String>) -> (r: KeyedMap<String>)
    requires
        bags.wf(),
    ensures
        r.wf(),
        text_view(r@) == text_view(bags@).map_values(|b: Seq<char>| without_stopwords(b)),
{
    let first = sv_dropstopwords(SKIPHEADWORDS, bags);
    let second = sv_dropstopwords(SKIPINFLECTED, &first);
    assert(text_view(second@) =~= text_view(bags@).map_values(|b: Seq<char>| without_stopwords(b)));
    second
}

} // verus!
