//! Character-level primitives on which the pipeline is built.

use vstd::prelude::*;

verus! {

broadcast use vstd::string::group_string_axioms;

/// Relies on `String::push`: the character is appended at the end.
#[verifier::external_body]
pub(crate) fn push_char(s: &mut String, c: char)
    ensures
        final(s)@ == old(s)@.push(c),
{
    s.push(c);
}

/// The characters of `s`, in order.
pub fn chars_of(s: &str) -> (r: Vec<char>)
    ensures
        r@ == s@,
{
    let mut r: Vec<char> = Vec::new();
    for c in it: s.chars()
        invariant
            r@ == it.seq().take(it.index() as int),
            it.seq() == s@,
    {
        r.push(c);
    }
    r
}

/// A `String` holding the characters of `cs`, in order.
pub fn string_of(cs: &Vec<char>) -> (r: String)
    ensures
        r@ == cs@,
{
    let mut r = String::new();
    let mut i: usize = 0;
    while i < cs.len()
        invariant
            i <= cs.len(),
            r@ == cs@.take(i as int),
        decreases cs.len() - i,
    {
        push_char(&mut r, cs[i]);
        proof {
            assert(cs@.take(i + 1) =~= cs@.take(i as int).push(cs@[i as int]));
        }
        i += 1;
    }
    proof {
        assert(cs@.take(cs@.len() as int) =~= cs@);
    }
    r
}


/// The characters that Unicode gives the White_Space property.
pub open spec fn is_white(c: char) -> bool {
    ('\u{9}' <= c && c <= '\u{d}') || c == ' ' || c == '\u{85}' || c == '\u{a0}'
        || c == '\u{1680}' || ('\u{2000}' <= c && c <= '\u{200a}') || c == '\u{2028}'
        || c == '\u{2029}' || c == '\u{202f}' || c == '\u{205f}' || c == '\u{3000}'
}

/// The ASCII whitespace characters: tab, line feed, form feed, carriage return, space.
pub open spec fn is_ascii_white(c: char) -> bool {
    c == '\t' || c == '\n' || c == '\u{c}' || c == '\r' || c == ' '
}

/// Whether `c` separates words; `ascii_only` restricts separators to ASCII whitespace.
pub open spec fn is_separator(c: char, ascii_only: bool) -> bool {
    if ascii_only {
        is_ascii_white(c)
    } else {
        is_white(c)
    }
}

pub fn separates(c: char, ascii_only: bool) -> (r: bool)
    ensures
        r == is_separator(c, ascii_only),
{
    if ascii_only {
        c == '\t' || c == '\n' || c == '\u{c}' || c == '\r' || c == ' '
    } else {
        ('\u{9}' <= c && c <= '\u{d}') || c == ' ' || c == '\u{85}' || c == '\u{a0}'
            || c == '\u{1680}' || ('\u{2000}' <= c && c <= '\u{200a}') || c == '\u{2028}'
            || c == '\u{2029}' || c == '\u{202f}' || c == '\u{205f}' || c == '\u{3000}'
    }
}

/// The words of `s`: its maximal runs of non-separator characters, in order.
pub open spec fn split_words(s: Seq<char>, ascii_only: bool) -> Seq<Seq<char>>
    decreases s.len(),
{
    if s.len() == 0 {
        Seq::empty()
    } else {
        let prev = split_words(s.drop_last(), ascii_only);
        let c = s.last();
        if is_separator(c, ascii_only) {
            prev
        } else if s.len() >= 2 && !is_separator(s[s.len() - 2], ascii_only) {
            prev.drop_last().push(prev.last().push(c))
        } else {
            prev.push(seq![c])
        }
    }
}

/// The words of `s` split on Unicode whitespace.
pub open spec fn words(s: Seq<char>) -> Seq<Seq<char>> {
    split_words(s, false)
}

/// The views of a sequence of character vectors.
pub open spec fn char_views(v: Seq<Vec<char>>) -> Seq<Seq<char>> {
    v.map_values(|w: Vec<char>| w@)
}

/// The views of a sequence of strings.
pub open spec fn string_views(v: Seq<String>) -> Seq<Seq<char>> {
    v.map_values(|w: String| w@)
}

/// The words of `s`, each as a vector of characters.
pub fn split_chars(s: &Vec<char>, ascii_only: bool) -> (r: Vec<Vec<char>>)
    ensures
        char_views(r@) == split_words(s@, ascii_only),
{
    let mut out: Vec<Vec<char>> = Vec::new();
    let mut cur: Vec<char> = Vec::new();
    let mut i: usize = 0;
    while i < s.len()
        invariant
            i <= s.len(),
            cur@.len() > 0 <==> (i > 0 && !is_separator(s@[i - 1], ascii_only)),
            split_words(s@.take(i as int), ascii_only) == if cur@.len() > 0 {
                char_views(out@).push(cur@)
            } else {
                char_views(out@)
            },
        decreases s.len() - i,
    {
        let c = s[i];
        proof {
            assert(s@.take(i + 1).drop_last() =~= s@.take(i as int));
        }
        if separates(c, ascii_only) {
            if cur.len() > 0 {
                let ghost before = out@;
                let w = cur;
                cur = Vec::new();
                out.push(w);
                proof {
                    assert(char_views(out@) =~= char_views(before).push(w@));
                }
            }
        } else {
            let ghost prev = cur@;
            cur.push(c);
            proof {
                if prev.len() > 0 {
                    let pw = char_views(out@).push(prev);
                    assert(pw.drop_last().push(pw.last().push(c)) =~= char_views(out@).push(cur@));
                } else {
                    assert(cur@ =~= seq![c]);
                }
            }
        }
        i += 1;
    }
    if cur.len() > 0 {
        let ghost before = out@;
        let ghost last = cur@;
        out.push(cur);
        proof {
            assert(char_views(out@) =~= char_views(before).push(last));
        }
    }
    proof {
        assert(s@.take(s@.len() as int) =~= s@);
    }
    out
}


/// `ws` joined with `sep` between consecutive items.
pub open spec fn join(ws: Seq<Seq<char>>, sep: Seq<char>) -> Seq<char>
    decreases ws.len(),
{
    if ws.len() == 0 {
        Seq::empty()
    } else if ws.len() == 1 {
        ws[0]
    } else {
        join(ws.drop_last(), sep) + sep + ws.last()
    }
}

/// Appends the characters of `w` to `out`.
pub fn append_chars(out: &mut Vec<char>, w: &Vec<char>)
    ensures
        final(out)@ == old(out)@ + w@,
{
    let ghost start = out@;
    let mut i: usize = 0;
    while i < w.len()
        invariant
            i <= w.len(),
            out@ == start + w@.take(i as int),
        decreases w.len() - i,
    {
        out.push(w[i]);
        proof {
            assert(w@.take(i + 1) =~= w@.take(i as int).push(w@[i as int]));
        }
        i += 1;
    }
    proof {
        assert(w@.take(w@.len() as int) =~= w@);
    }
}

/// The items of `ws` joined with the single character `sep`.
pub fn join_chars(ws: &Vec<Vec<char>>, sep: char) -> (r: Vec<char>)
    ensures
        r@ == join(char_views(ws@), seq![sep]),
{
    let mut out: Vec<char> = Vec::new();
    let mut i: usize = 0;
    while i < ws.len()
        invariant
            i <= ws.len(),
            out@ == join(char_views(ws@).take(i as int), seq![sep]),
        decreases ws.len() - i,
    {
        let ghost before = out@;
        if i > 0 {
            out.push(sep);
        }
        append_chars(&mut out, &ws[i]);
        proof {
            let t = char_views(ws@).take(i + 1);
            assert(t.drop_last() =~= char_views(ws@).take(i as int));
            if i > 0 {
                assert(out@ =~= before + seq![sep] + t.last());
            } else {
                assert(out@ =~= t[0]);
            }
        }
        i += 1;
    }
    proof {
        assert(char_views(ws@).take(ws@.len() as int) =~= char_views(ws@));
    }
    out
}

/// The Unicode lowercase mapping of a whole string.
pub uninterp spec fn lower_of(s: Seq<char>) -> Seq<char>;

/// Relies on `str::to_lowercase`: the Unicode lowercase mapping of `s`, which
/// depends on its characters alone.
#[verifier::external_body]
pub(crate) fn lowercase(s: &str) -> (r: String)
    ensures
        r@ == lower_of(s@),
{
    s.to_lowercase()
}

/// The Unicode uppercase mapping of one character.
pub uninterp spec fn char_upper_of(c: char) -> Seq<char>;

/// Relies on `char::to_uppercase`: the characters of the uppercase mapping of `c`.
#[verifier::external_body]
fn char_uppercase(c: char) -> (r: String)
    ensures
        r@ == char_upper_of(c),
{
    c.to_uppercase().to_string()
}

/// The Unicode lowercase mapping of one character.
pub uninterp spec fn char_lower_of(c: char) -> Seq<char>;

/// Relies on `char::to_lowercase`: the characters of the lowercase mapping of `c`.
#[verifier::external_body]
fn char_lowercase(c: char) -> (r: String)
    ensures
        r@ == char_lower_of(c),
{
    c.to_lowercase().to_string()
}

/// `s` with its first character uppercased; empty stays empty.
pub open spec fn capitalized(s: Seq<char>) -> Seq<char> {
    if s.len() == 0 {
        s
    } else {
        char_upper_of(s[0]) + s.drop_first()
    }
}

/// `s` with its first character lowercased; empty stays empty.
pub open spec fn decapitalized(s: Seq<char>) -> Seq<char> {
    if s.len() == 0 {
        s
    } else {
        char_lower_of(s[0]) + s.drop_first()
    }
}

/// Uppercases the first character of `s`, leaving the rest as it is.
pub fn str_cap(s: &str) -> (r: String)
    ensures
        r@ == capitalized(s@),
{
    let cs = chars_of(s);
    if cs.len() == 0 {
        return String::new();
    }
    let head = char_uppercase(cs[0]);
    let mut out = chars_of(head.as_str());
    let mut i: usize = 1;
    while i < cs.len()
        invariant
            1 <= i <= cs.len(),
            out@ == char_upper_of(cs@[0]) + cs@.subrange(1, i as int),
        decreases cs.len() - i,
    {
        out.push(cs[i]);
        proof {
            assert(cs@.subrange(1, i + 1) =~= cs@.subrange(1, i as int).push(cs@[i as int]));
        }
        i += 1;
    }
    proof {
        assert(cs@.subrange(1, cs@.len() as int) =~= s@.drop_first());
    }
    string_of(&out)
}

/// Lowercases the first character of `s`, leaving the rest as it is.
pub fn str_lcs(s: &str) -> (r: String)
    ensures
        r@ == decapitalized(s@),
{
    let cs = chars_of(s);
    if cs.len() == 0 {
        return String::new();
    }
    let head = char_lowercase(cs[0]);
    let mut out = chars_of(head.as_str());
    let mut i: usize = 1;
    while i < cs.len()
        invariant
            1 <= i <= cs.len(),
            out@ == char_lower_of(cs@[0]) + cs@.subrange(1, i as int),
        decreases cs.len() - i,
    {
        out.push(cs[i]);
        proof {
            assert(cs@.subrange(1, i + 1) =~= cs@.subrange(1, i as int).push(cs@[i as int]));
        }
        i += 1;
    }
    proof {
        assert(cs@.subrange(1, cs@.len() as int) =~= s@.drop_first());
    }
    string_of(&out)
}

/// `s` with a leading ASCII lowercase letter made uppercase; otherwise unchanged.
pub open spec fn ascii_title_cased(s: Seq<char>) -> Seq<char> {
    if s.len() > 0 && 'a' <= s[0] && s[0] <= 'z' {
        s.update(0, ((s[0] as u8) - 32) as u8 as char)
    } else {
        s
    }
}

/// Uppercases the first character of `s` in place when it is an ASCII lowercase letter.
pub fn make_ascii_title_case(s: &mut String)
    ensures
        final(s)@ == ascii_title_cased(old(s)@),
{
    let mut cs = chars_of(s.as_str());
    if cs.len() > 0 && 'a' <= cs[0] && cs[0] <= 'z' {
        let c = cs[0];
        let up = ((c as u8) - 32) as char;
        cs.set(0, up);
        *s = string_of(&cs);
    }
}

/// The decimal digit for `d`, which is below ten.
pub open spec fn digit_char(d: nat) -> char {
    if d == 0 { '0' } else if d == 1 { '1' } else if d == 2 { '2' } else if d == 3 { '3' }
    else if d == 4 { '4' } else if d == 5 { '5' } else if d == 6 { '6' } else if d == 7 { '7' }
    else if d == 8 { '8' } else { '9' }
}

/// The decimal digits of `n`, most significant first.
pub open spec fn digits_of(n: nat) -> Seq<char>
    decreases n,
{
    if n < 10 {
        seq![digit_char(n)]
    } else {
        digits_of(n / 10).push(digit_char(n % 10))
    }
}

/// The decimal writing of `n`, with a leading minus sign when negative.
pub open spec fn decimal_of(n: int) -> Seq<char> {
    if n < 0 {
        seq!['-'] + digits_of((-n) as nat)
    } else {
        digits_of(n as nat)
    }
}

fn push_digits(out: &mut Vec<char>, n: u64)
    ensures
        final(out)@ == old(out)@ + digits_of(n as nat),
    decreases n,
{
    if n >= 10 {
        push_digits(out, n / 10);
    }
    let d = n % 10;
    let c = if d == 0 { '0' } else if d == 1 { '1' } else if d == 2 { '2' } else if d == 3 { '3' }
    else if d == 4 { '4' } else if d == 5 { '5' } else if d == 6 { '6' } else if d == 7 { '7' }
    else if d == 8 { '8' } else { '9' };
    out.push(c);
}

/// Appends the decimal writing of `n` to `out`.
pub fn push_decimal(out: &mut Vec<char>, n: i32)
    ensures
        final(out)@ == old(out)@ + decimal_of(n as int),
{
    if n < 0 {
        out.push('-');
        let m: u64 = (0 - (n as i64)) as u64;
        push_digits(out, m);
        proof {
            assert(old(out)@ + decimal_of(n as int) =~= old(out)@.push('-') + digits_of(m as nat));
        }
    } else {
        push_digits(out, n as u64);
    }
}


/// Whether two character vectors hold the same characters.
pub fn chars_eq(a: &Vec<char>, b: &Vec<char>) -> (r: bool)
    ensures
        r == (a@ == b@),
{
    if a.len() != b.len() {
        return false;
    }
    let mut i: usize = 0;
    while i < a.len()
        invariant
            a@.len() == b@.len(),
            i <= a.len(),
            forall|j: int| 0 <= j < i ==> a@[j] == b@[j],
        decreases a.len() - i,
    {
        if a[i] != b[i] {
            return false;
        }
        i += 1;
    }
    assert(a@ =~= b@);
    true
}

} // verus!
