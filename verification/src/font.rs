//! Font selection: the `-f "Family [style] [size]"` spec, and the on-disk
//! cache of the system font chain.
use vstd::prelude::*;

use crate::num::{dec_digits, dec_ok, dec_string, dec_value, is_digit};
use crate::text::{
    ascii_lower_seq, chars_of, eq_chars, first_index, has_suffix, join_spaced, joined,
    lemma_first_index, lines, no_newline, split_whitespace, with_newlines, string_of, to_ascii_lowercase, trim, trimmed, views,
    words,
};

verus! {

/// Every character of `s` is a decimal digit.
pub open spec fn all_digits(s: Seq<char>) -> bool {
    forall|i: int| 0 <= i < s.len() ==> is_digit(#[trigger] s[i])
}

/// `s` without one leading sign.
pub open spec fn unsign(s: Seq<char>) -> Seq<char> {
    if s.len() > 0 && (s[0] == '+' || s[0] == '-') {
        s.drop_first()
    } else {
        s
    }
}

/// `Digit+ | Digit+ '.' Digit* | Digit* '.' Digit+`.
pub open spec fn is_mantissa(m: Seq<char>) -> bool {
    let d = first_index(m, '.', 0);
    if d < 0 {
        m.len() > 0 && all_digits(m)
    } else {
        m.len() > 1 && all_digits(m.take(d)) && all_digits(m.skip(d + 1))
    }
}

/// `Sign? Digit+` (after the `e`).
pub open spec fn is_exponent(e: Seq<char>) -> bool {
    unsign(e).len() > 0 && all_digits(unsign(e))
}

/// A decimal number: a mantissa, then optionally `e` (either case) and an
/// exponent.
pub open spec fn is_float_number(u: Seq<char>) -> bool {
    let k = first_index(ascii_lower_seq(u), 'e', 0);
    if k < 0 {
        is_mantissa(u)
    } else {
        is_mantissa(u.take(k)) && is_exponent(u.skip(k + 1))
    }
}

/// What `f32::from_str` accepts: an optional sign, then `inf`, `infinity`,
/// `nan` (any case) or a decimal number.
pub open spec fn is_float_literal(s: Seq<char>) -> bool {
    let u = unsign(s);
    let l = ascii_lower_seq(u);
    l == "inf"@ || l == "infinity"@ || l == "nan"@ || is_float_number(u)
}

/// Whether all of `s[a..b]` are digits.
fn digits_in(s: &[char], a: usize, b: usize) -> (r: bool)
    requires
        a <= b <= s@.len(),
    ensures
        r == all_digits(s@.subrange(a as int, b as int)),
{
    let mut i = a;
    while i < b
        invariant
            a <= i <= b <= s@.len(),
            forall|j: int| a <= j < i ==> is_digit(#[trigger] s@[j]),
        decreases b - i,
    {
        if s[i] < '0' || s[i] > '9' {
            assert(s@.subrange(a as int, b as int)[i - a] == s@[i as int]);
            return false;
        }
        i += 1;
    }
    assert forall|j: int| 0 <= j < b - a implies is_digit(#[trigger] s@.subrange(a as int, b as int)[j]) by {
        assert(s@.subrange(a as int, b as int)[j] == s@[a + j]);
    }
    true
}

/// Position of the first `c` in `s[a..b]`, relative to `a`.
fn find_in(s: &[char], c: char, a: usize, b: usize) -> (k: Option<usize>)
    requires
        a <= b <= s@.len(),
    ensures
        match k {
            Some(k) => first_index(s@.subrange(a as int, b as int), c, 0) == k && k < b - a,
            None => first_index(s@.subrange(a as int, b as int), c, 0) == -1,
        },
{
    let ghost t = s@.subrange(a as int, b as int);
    let mut i = a;
    while i < b
        invariant
            a <= i <= b <= s@.len(),
            t == s@.subrange(a as int, b as int),
            forall|j: int| 0 <= j < i - a ==> t[j] != c,
        decreases b - i,
    {
        if s[i] == c {
            proof {
                lemma_first_index(t, c, 0, i - a);
            }
            return Some(i - a);
        }
        i += 1;
    }
    proof {
        lemma_first_index(t, c, 0, b - a);
    }
    None
}

/// Mantissa test on `s[a..b]`.
fn mantissa_in(s: &[char], a: usize, b: usize) -> (r: bool)
    requires
        a <= b <= s@.len(),
    ensures
        r == is_mantissa(s@.subrange(a as int, b as int)),
{
    let ghost m = s@.subrange(a as int, b as int);
    match find_in(s, '.', a, b) {
        None => b > a && digits_in(s, a, b),
        Some(d) => {
            assert(m.take(d as int) =~= s@.subrange(a as int, a + d));
            assert(m.skip(d + 1) =~= s@.subrange(a + d + 1, b as int));
            b - a > 1 && digits_in(s, a, a + d) && digits_in(s, a + d + 1, b)
        },
    }
}

/// Whether `s` is what `f32::from_str` accepts.
pub fn float_literal(s: &[char]) -> (r: bool)
    ensures
        r == is_float_literal(s@),
{
    let a: usize = if s.len() > 0 && (s[0] == '+' || s[0] == '-') {
        1
    } else {
        0
    };
    let ghost u = unsign(s@);
    assert(u =~= s@.subrange(a as int, s@.len() as int));
    let mut rest: Vec<char> = Vec::new();
    let mut i = a;
    while i < s.len()
        invariant
            a <= i <= s@.len(),
            rest@ == s@.subrange(a as int, i as int),
        decreases s@.len() - i,
    {
        rest.push(s[i]);
        assert(rest@ =~= s@.subrange(a as int, i + 1));
        i += 1;
    }
    let l = to_ascii_lowercase(rest.as_slice());
    if eq_chars(l.as_slice(), chars_of("inf").as_slice()) || eq_chars(
        l.as_slice(),
        chars_of("infinity").as_slice(),
    ) || eq_chars(l.as_slice(), chars_of("nan").as_slice()) {
        return true;
    }
    let n = rest.len();
    match find_in(l.as_slice(), 'e', 0, n) {
        None => {
            assert(l@.subrange(0, n as int) =~= l@);
            assert(rest@.subrange(0, n as int) =~= u);
            mantissa_in(rest.as_slice(), 0, n)
        },
        Some(k) => {
            assert(l@.subrange(0, n as int) =~= l@);
            assert(u.take(k as int) =~= rest@.subrange(0, k as int));
            let m = mantissa_in(rest.as_slice(), 0, k);
            if !m {
                return false;
            }
            let e0 = k + 1;
            let e1: usize = if e0 < n && (rest[e0] == '+' || rest[e0] == '-') {
                e0 + 1
            } else {
                e0
            };
            assert(unsign(u.skip(k + 1)) =~= rest@.subrange(e1 as int, n as int));
            e1 < n && digits_in(rest.as_slice(), e1, n)
        },
    }
}

/// A size in a font spec: the number as written, and whether it is in
/// pixels (`px` suffix) rather than points.
pub struct SizeSpec {
    pub number: String,
    pub px: bool,
}

/// The size a token gives, as (number text, is pixels): `Npx` (any case)
/// is absolute pixels, a bare number is points; anything else is no size.
pub open spec fn size_spec(tok: Seq<char>) -> Option<(Seq<char>, bool)> {
    let l = ascii_lower_seq(tok);
    if has_suffix(l, "px"@) {
        let n = trimmed(l.take(l.len() - 2));
        if is_float_literal(n) {
            Some((n, true))
        } else {
            None
        }
    } else if is_float_literal(tok) {
        Some((tok, false))
    } else {
        None
    }
}

/// The size `tok` gives, if it is one.
pub fn size_in_px(tok: &[char]) -> (r: Option<SizeSpec>)
    ensures
        match r {
            Some(z) => size_spec(tok@) == Some((z.number@, z.px)),
            None => size_spec(tok@) is None,
        },
{
    proof {
        reveal_strlit("px");
    }
    let l = to_ascii_lowercase(tok);
    let suffix = chars_of("px");
    if crate::text::ends_with_seq(l.as_slice(), suffix.as_slice()) {
        let mut head: Vec<char> = Vec::new();
        let mut i: usize = 0;
        while i < l.len() - 2
            invariant
                l@.len() >= 2,
                i <= l@.len() - 2,
                head@ == l@.take(i as int),
            decreases l@.len() - 2 - i,
        {
            head.push(l[i]);
            assert(head@ =~= l@.take(i + 1));
            i += 1;
        }
        let n = trim(head.as_slice());
        if float_literal(n.as_slice()) {
            Some(SizeSpec { number: string_of(n.as_slice()), px: true })
        } else {
            None
        }
    } else if float_literal(tok) {
        Some(SizeSpec { number: string_of(tok), px: false })
    } else {
        None
    }
}

/// The font weight a style word names (CSS/fontdb numbering), if any.
pub open spec fn weight_spec(word: Seq<char>) -> Option<u16> {
    let l = ascii_lower_seq(word);
    if l == "thin"@ {
        Some(100)
    } else if l == "light"@ {
        Some(300)
    } else if l == "normal"@ || l == "regular"@ || l == "book"@ || l == "roman"@ {
        Some(400)
    } else if l == "medium"@ {
        Some(500)
    } else if l == "semibold"@ || l == "demibold"@ {
        Some(600)
    } else if l == "bold"@ {
        Some(700)
    } else if l == "extrabold"@ || l == "ultrabold"@ || l == "heavy"@ {
        Some(800)
    } else if l == "black"@ {
        Some(900)
    } else {
        None
    }
}

/// Law: each CSS style word (any ASCII case) names its weight: thin 100,
/// light 300, normal/regular/book/roman 400, medium 500,
/// semibold/demibold 600, bold 700, extrabold/ultrabold/heavy 800, black 900.
pub proof fn style_words_name_their_weights(word: Seq<char>)
    ensures
        ascii_lower_seq(word) == "thin"@ ==> weight_spec(word) == Some(100u16),
        ascii_lower_seq(word) == "light"@ ==> weight_spec(word) == Some(300u16),
        ascii_lower_seq(word) == "normal"@ ==> weight_spec(word) == Some(400u16),
        ascii_lower_seq(word) == "regular"@ ==> weight_spec(word) == Some(400u16),
        ascii_lower_seq(word) == "book"@ ==> weight_spec(word) == Some(400u16),
        ascii_lower_seq(word) == "roman"@ ==> weight_spec(word) == Some(400u16),
        ascii_lower_seq(word) == "medium"@ ==> weight_spec(word) == Some(500u16),
        ascii_lower_seq(word) == "semibold"@ ==> weight_spec(word) == Some(600u16),
        ascii_lower_seq(word) == "demibold"@ ==> weight_spec(word) == Some(600u16),
        ascii_lower_seq(word) == "bold"@ ==> weight_spec(word) == Some(700u16),
        ascii_lower_seq(word) == "extrabold"@ ==> weight_spec(word) == Some(800u16),
        ascii_lower_seq(word) == "ultrabold"@ ==> weight_spec(word) == Some(800u16),
        ascii_lower_seq(word) == "heavy"@ ==> weight_spec(word) == Some(800u16),
        ascii_lower_seq(word) == "black"@ ==> weight_spec(word) == Some(900u16),
{
    reveal_strlit("thin");
    reveal_strlit("light");
    reveal_strlit("normal");
    reveal_strlit("regular");
    reveal_strlit("book");
    reveal_strlit("roman");
    reveal_strlit("medium");
    reveal_strlit("semibold");
    reveal_strlit("demibold");
    reveal_strlit("bold");
    reveal_strlit("extrabold");
    reveal_strlit("ultrabold");
    reveal_strlit("heavy");
    reveal_strlit("black");
    let l = ascii_lower_seq(word);
    if l == "thin"@ {
        assert(l.len() == 4);
    }
    if l == "light"@ {
        assert(l.len() == 5);
    }
    if l == "normal"@ {
        assert(l.len() == 6);
    }
    if l == "regular"@ {
        assert(l.len() == 7);
    }
    if l == "book"@ {
        assert(l.len() == 4);
        assert(l[0] != "thin"@[0]);
    }
    if l == "roman"@ {
        assert(l.len() == 5);
        assert(l[0] != "light"@[0]);
    }
    if l == "medium"@ {
        assert(l.len() == 6);
        assert(l[0] != "normal"@[0]);
    }
    if l == "semibold"@ {
        assert(l.len() == 8);
    }
    if l == "demibold"@ {
        assert(l.len() == 8);
        assert(l[0] != "semibold"@[0]);
    }
    if l == "bold"@ {
        assert(l.len() == 4);
        assert(l[0] != "thin"@[0]);
        assert(l[2] != "book"@[2]);
    }
    if l == "extrabold"@ {
        assert(l.len() == 9);
    }
    if l == "ultrabold"@ {
        assert(l.len() == 9);
        assert(l[0] != "extrabold"@[0]);
    }
    if l == "heavy"@ {
        assert(l.len() == 5);
        assert(l[0] != "light"@[0]);
        assert(l[0] != "roman"@[0]);
    }
    if l == "black"@ {
        assert(l.len() == 5);
        assert(l[0] != "light"@[0]);
        assert(l[0] != "roman"@[0]);
        assert(l[0] != "heavy"@[0]);
    }
}

/// Law: a recognised style word never becomes part of the family: every
/// family word a spec's tokens give names no weight.
pub proof fn style_words_stay_out_of_the_family(toks: Seq<Seq<char>>)
    ensures
        forall|k: int|
            0 <= k < spec_tokens(toks).0.len() ==> weight_spec(#[trigger] spec_tokens(toks).0[k])
                is None,
    decreases toks.len(),
{
    if toks.len() > 0 {
        style_words_stay_out_of_the_family(toks.drop_last());
        let (fam, w, size) = spec_tokens(toks.drop_last());
        let tok = toks.last();
        if !(size is None && size_spec(tok) is Some) && weight_spec(tok) is None {
            let f2 = fam.push(tok);
            assert forall|k: int| 0 <= k < f2.len() implies weight_spec(#[trigger] f2[k]) is None by {
                if k < fam.len() {
                    assert(f2[k] == fam[k]);
                }
            }
        }
    }
}

/// The weight a style word names.
pub fn weight_of(word: &[char]) -> (r: Option<u16>)
    ensures
        r == weight_spec(word@),
{
    let l = to_ascii_lowercase(word);
    let is = |w: &str| -> (b: bool)
        ensures
            b == (l@ == w@),
        { eq_chars(l.as_slice(), chars_of(w).as_slice()) };
    if is("thin") {
        Some(100)
    } else if is("light") {
        Some(300)
    } else if is("normal") || is("regular") || is("book") || is("roman") {
        Some(400)
    } else if is("medium") {
        Some(500)
    } else if is("semibold") || is("demibold") {
        Some(600)
    } else if is("bold") {
        Some(700)
    } else if is("extrabold") || is("ultrabold") || is("heavy") {
        Some(800)
    } else if is("black") {
        Some(900)
    } else {
        None
    }
}

/// The normal weight.
pub const NORMAL_WEIGHT: u16 = 400;

/// A parsed `-f` family spec.
pub struct FontSpec {
    pub family: String,
    pub weight: u16,
    pub size: Option<SizeSpec>,
}

/// What the tokens of a spec have given so far: family words, weight, size.
pub open spec fn spec_tokens(toks: Seq<Seq<char>>) -> (Seq<Seq<char>>, u16, Option<(Seq<char>, bool)>)
    decreases toks.len(),
{
    if toks.len() == 0 {
        (seq![], NORMAL_WEIGHT, None)
    } else {
        let (fam, w, size) = spec_tokens(toks.drop_last());
        let tok = toks.last();
        if size is None && size_spec(tok) is Some {
            (fam, w, size_spec(tok))
        } else if weight_spec(tok) is Some {
            (fam, weight_spec(tok)->0, size)
        } else {
            (fam.push(tok), w, size)
        }
    }
}

/// Split "Family [style] [size]": the first numeric token is the size;
/// recognized style words pick the weight (the last one wins); everything
/// else, joined by single spaces, is the family.
pub fn parse_spec(spec: &str) -> (r: FontSpec)
    ensures
        ({
            let (fam, w, size) = spec_tokens(words(spec@));
            &&& r.family@ == joined(fam)
            &&& r.weight == w
            &&& match r.size {
                Some(z) => size == Some((z.number@, z.px)),
                None => size is None,
            }
        }),
{
    let toks = split_whitespace(chars_of(spec).as_slice());
    let ghost ts = views(toks@);
    let mut family: Vec<Vec<char>> = Vec::new();
    let mut weight: u16 = NORMAL_WEIGHT;
    let mut size: Option<SizeSpec> = None;
    assert(ts.take(0) =~= seq![]);
    for i in 0..toks.len()
        invariant
            ts == views(toks@),
            ({
                let (fam, w, sz) = spec_tokens(ts.take(i as int));
                &&& views(family@) == fam
                &&& weight == w
                &&& match size {
                    Some(z) => sz == Some((z.number@, z.px)),
                    None => sz is None,
                }
            }),
    {
        let tok = &toks[i];
        proof {
            let t = ts.take(i + 1);
            assert(t.drop_last() =~= ts.take(i as int));
            assert(t.last() == tok@);
        }
        let mut used = false;
        if size.is_none() {
            if let Some(z) = size_in_px(tok.as_slice()) {
                size = Some(z);
                used = true;
            }
        }
        if !used {
            if let Some(w) = weight_of(tok.as_slice()) {
                weight = w;
            } else {
                let ghost before = views(family@);
                family.push(tok.clone());
                assert(views(family@) =~= before.push(tok@));
            }
        }
    }
    assert(ts.take(toks.len() as int) =~= ts);
    let fam = join_spaced(&family);
    FontSpec { family: string_of(fam.as_slice()), weight, size }
}

/// First line of the font chain cache.
pub open spec fn cache_header() -> Seq<char> {
    "rmenu-font-cache v1"@
}

/// A key line: a font directory and its modification time.
pub open spec fn d_line(k: (Seq<char>, u64, u32)) -> Seq<char> {
    seq!['d', '\t'] + k.0 + seq!['\t'] + dec_string(k.1 as nat) + seq!['\t'] + dec_string(k.2 as nat)
}

/// A chain line: face index and font file path.
pub open spec fn f_line(e: (Seq<char>, u32)) -> Seq<char> {
    seq!['f', '\t'] + dec_string(e.1 as nat) + seq!['\t'] + e.0
}

/// The lines of the cache for `key` and `chain`.
pub open spec fn cache_lines(key: Seq<(Seq<char>, u64, u32)>, chain: Seq<(Seq<char>, u32)>) -> Seq<
    Seq<char>,
> {
    seq![cache_header()] + key.map_values(|k: (Seq<char>, u64, u32)| d_line(k)) + chain.map_values(
        |e: (Seq<char>, u32)| f_line(e),
    )
}

/// What `cache_text` writes: nothing for an empty chain or a path with a
/// newline (the cache could not be read back), else the lines.
pub open spec fn cache_text_spec(key: Seq<(Seq<char>, u64, u32)>, chain: Seq<(Seq<char>, u32)>) -> Option<
    Seq<char>,
> {
    if chain.len() == 0 || exists|i: int| 0 <= i < chain.len() && !no_newline(#[trigger] chain[i].0) {
        None
    } else {
        Some(with_newlines(cache_lines(key, chain)))
    }
}

/// `str::splitn(n, sep)`: at most `n` parts, the last one the unsplit rest.
pub open spec fn splitn_spec(s: Seq<char>, n: nat, sep: char) -> Seq<Seq<char>>
    decreases n,
{
    if n <= 1 {
        seq![s]
    } else {
        let k = first_index(s, sep, 0);
        if k < 0 {
            seq![s]
        } else {
            seq![s.take(k)] + splitn_spec(s.skip(k + 1), (n - 1) as nat, sep)
        }
    }
}

/// `u64::from_str`.
pub open spec fn u64_of(s: Seq<char>) -> Option<u64> {
    if dec_ok(s) && dec_value(dec_digits(s)) <= u64::MAX {
        Some(dec_value(dec_digits(s)) as u64)
    } else {
        None
    }
}

/// `u32::from_str`.
pub open spec fn u32_of(s: Seq<char>) -> Option<u32> {
    if dec_ok(s) && dec_value(dec_digits(s)) <= u32::MAX {
        Some(dec_value(dec_digits(s)) as u32)
    } else {
        None
    }
}

/// A key line matches the key entry `k`.
pub open spec fn d_line_matches(line: Seq<char>, k: (Seq<char>, u64, u32)) -> bool {
    let p = splitn_spec(line, 4, '\t');
    &&& p.len() == 4
    &&& p[0] == seq!['d']
    &&& p[1] == k.0
    &&& u64_of(p[2]) == Some(k.1)
    &&& u32_of(p[3]) == Some(k.2)
}

/// The chain entry a chain line holds.
pub open spec fn f_entry(line: Seq<char>) -> Option<(Seq<char>, u32)> {
    let p = splitn_spec(line, 3, '\t');
    if p.len() == 3 && p[0] == seq!['f'] && u32_of(p[1]) is Some {
        Some((p[2], u32_of(p[1])->0))
    } else {
        None
    }
}

/// What `read_cache_text` finds: the chain when the text has the header,
/// then one line matching each key entry, then one or more chain lines;
/// none when anything is missing, unparsable, or keyed differently.
pub open spec fn read_cache_spec(text: Seq<char>, key: Seq<(Seq<char>, u64, u32)>) -> Option<
    Seq<(Seq<char>, u32)>,
> {
    let ls = lines(text);
    let rest = ls.skip(1 + key.len() as int);
    if ls.len() < 1 + key.len() || ls[0] != cache_header() {
        None
    } else if exists|k: int| 0 <= k < key.len() && !d_line_matches(#[trigger] ls[1 + k], key[k]) {
        None
    } else if rest.len() == 0 || exists|j: int| 0 <= j < rest.len() && #[trigger] f_entry(rest[j]) is None {
        None
    } else {
        Some(rest.map_values(|l: Seq<char>| f_entry(l)->0))
    }
}

/// `str::splitn` on characters.
fn splitn(s: &[char], n: usize, sep: char) -> (parts: Vec<Vec<char>>)
    requires
        n >= 1,
    ensures
        views(parts@) == splitn_spec(s@, n as nat, sep),
{
    let mut parts: Vec<Vec<char>> = Vec::new();
    let mut start: usize = 0;
    let mut left = n;
    let mut more = true;
    assert(s@.skip(0) =~= s@);
    assert(views(parts@) + splitn_spec(s@, n as nat, sep) =~= splitn_spec(s@, n as nat, sep));
    while more && left > 1
        invariant
            start <= s@.len(),
            1 <= left <= n,
            views(parts@) + splitn_spec(s@.skip(start as int), left as nat, sep) == splitn_spec(
                s@,
                n as nat,
                sep,
            ),
            !more ==> first_index(s@.skip(start as int), sep, 0) < 0,
        decreases left, (if more { 1int } else { 0int }),
    {
        let ghost rest = s@.skip(start as int);
        let mut k = start;
        while k < s.len() && s[k] != sep
            invariant
                start <= k <= s@.len(),
                rest == s@.skip(start as int),
                forall|j: int| start <= j < k ==> s@[j] != sep,
            decreases s@.len() - k,
        {
            k += 1;
        }
        proof {
            lemma_first_index(rest, sep, 0, k - start);
        }
        if k == s.len() {
            more = false;
        } else {
            let mut piece: Vec<char> = Vec::new();
            let mut i = start;
            while i < k
                invariant
                    start <= i <= k <= s@.len(),
                    piece@ == s@.subrange(start as int, i as int),
                decreases k - i,
            {
                piece.push(s[i]);
                assert(piece@ =~= s@.subrange(start as int, i + 1));
                i += 1;
            }
            let ghost before = views(parts@);
            parts.push(piece);
            proof {
                assert(rest.take(k - start) =~= s@.subrange(start as int, k as int));
                assert(views(parts@) =~= before.push(rest.take(k - start)));
                assert(rest.skip(k - start + 1) =~= s@.skip(k + 1));
                assert(before + splitn_spec(rest, left as nat, sep) =~= before.push(rest.take(k - start))
                    + splitn_spec(s@.skip(k + 1), (left - 1) as nat, sep));
            }
            start = k + 1;
            left = left - 1;
        }
    }
    let mut last: Vec<char> = Vec::new();
    let mut i = start;
    while i < s.len()
        invariant
            start <= i <= s@.len(),
            last@ == s@.subrange(start as int, i as int),
        decreases s@.len() - i,
    {
        last.push(s[i]);
        assert(last@ =~= s@.subrange(start as int, i + 1));
        i += 1;
    }
    let ghost before = views(parts@);
    parts.push(last);
    proof {
        assert(last@ =~= s@.skip(start as int));
        assert(splitn_spec(s@.skip(start as int), left as nat, sep) =~= seq![s@.skip(start as int)]);
        assert(views(parts@) =~= before.push(last@));
    }
    parts
}

/// A cache key as plain values.
pub open spec fn key_view(key: Seq<(String, u64, u32)>) -> Seq<(Seq<char>, u64, u32)> {
    key.map_values(|k: (String, u64, u32)| (k.0@, k.1, k.2))
}

/// A font chain as plain values.
pub open spec fn chain_view(chain: Seq<(String, u32)>) -> Seq<(Seq<char>, u32)> {
    chain.map_values(|e: (String, u32)| (e.0@, e.1))
}

/// `u32::from_str`.
fn parse_u32(s: &[char]) -> (r: Option<u32>)
    ensures
        r == u32_of(s@),
{
    match crate::num::parse_u64(string_of(s).as_str()) {
        Some(v) => if v <= 0xffff_ffff {
            Some(v as u32)
        } else {
            None
        },
        None => None,
    }
}

/// Appends `l` and a newline.
fn push_line(out: &mut Vec<char>, l: &[char])
    ensures
        final(out)@ == old(out)@ + l@ + seq!['\n'],
{
    let mut i: usize = 0;
    let ghost start = out@;
    while i < l.len()
        invariant
            i <= l@.len(),
            out@ == start + l@.take(i as int),
        decreases l@.len() - i,
    {
        out.push(l[i]);
        assert(out@ =~= start + l@.take(i + 1));
        i += 1;
    }
    out.push('\n');
    assert(out@ =~= start + l@ + seq!['\n']);
}

/// Appends the characters of `s`.
fn push_all(out: &mut Vec<char>, s: &[char])
    ensures
        final(out)@ == old(out)@ + s@,
{
    let mut i: usize = 0;
    let ghost start = out@;
    while i < s.len()
        invariant
            i <= s@.len(),
            out@ == start + s@.take(i as int),
        decreases s@.len() - i,
    {
        out.push(s[i]);
        assert(out@ =~= start + s@.take(i + 1));
        i += 1;
    }
    assert(s@.take(s@.len() as int) =~= s@);
}

/// The cache line of a key entry.
fn key_line(dir: &str, secs: u64, nanos: u32) -> (line: Vec<char>)
    ensures
        line@ == d_line((dir@, secs, nanos)),
{
    let mut line: Vec<char> = Vec::new();
    line.push('d');
    line.push('\t');
    push_all(&mut line, chars_of(dir).as_slice());
    line.push('\t');
    push_all(&mut line, chars_of(crate::num::format_u64(secs).as_str()).as_slice());
    line.push('\t');
    push_all(&mut line, chars_of(crate::num::format_u64(nanos as u64).as_str()).as_slice());
    assert(line@ =~= d_line((dir@, secs, nanos)));
    line
}

/// The cache line of a chain entry.
fn chain_line(path: &str, index: u32) -> (line: Vec<char>)
    ensures
        line@ == f_line((path@, index)),
{
    let mut line: Vec<char> = Vec::new();
    line.push('f');
    line.push('\t');
    push_all(&mut line, chars_of(crate::num::format_u64(index as u64).as_str()).as_slice());
    line.push('\t');
    push_all(&mut line, chars_of(path).as_slice());
    assert(line@ =~= f_line((path@, index)));
    line
}

/// The text of the font chain cache for `key` (font directories and their
/// modification times) and `chain` (font files and face indices); none
/// when there is nothing worth caching or a path could not be read back.
pub fn cache_text(key: &Vec<(String, u64, u32)>, chain: &Vec<(String, u32)>) -> (r: Option<String>)
    ensures
        match r {
            Some(t) => cache_text_spec(key_view(key@), chain_view(chain@)) == Some(t@),
            None => cache_text_spec(key_view(key@), chain_view(chain@)) is None,
        },
{
    let ghost kv = key_view(key@);
    let ghost cv = chain_view(chain@);
    if chain.len() == 0 {
        return None;
    }
    for i in 0..chain.len()
        invariant
            cv == chain_view(chain@),
            forall|j: int| 0 <= j < i ==> no_newline(#[trigger] cv[j].0),
    {
        let p = chars_of(chain[i].0.as_str());
        let mut k: usize = 0;
        while k < p.len()
            invariant
                cv == chain_view(chain@),
                i < chain@.len(),
                k <= p@.len(),
                p@ == cv[i as int].0,
                forall|j: int| 0 <= j < k ==> p@[j] != '\n',
            decreases p@.len() - k,
        {
            if p[k] == '\n' {
                assert(!no_newline(cv[i as int].0));
                return None;
            }
            k += 1;
        }
    }
    let ghost ls = cache_lines(kv, cv);
    let mut out: Vec<char> = Vec::new();
    let header = chars_of("rmenu-font-cache v1");
    push_line(&mut out, header.as_slice());
    proof {
        assert(ls.take(1).drop_last() =~= Seq::<Seq<char>>::empty());
        assert(with_newlines(ls.take(1).drop_last()) =~= seq![]);
        assert(ls.take(1).last() == cache_header());
        assert(out@ =~= with_newlines(ls.take(1)));
    }
    for i in 0..key.len()
        invariant
            kv == key_view(key@),
            cv == chain_view(chain@),
            ls == cache_lines(kv, cv),
            out@ == with_newlines(ls.take(1 + i)),
    {
        let line = key_line(key[i].0.as_str(), key[i].1, key[i].2);
        assert(line@ =~= d_line(kv[i as int]));
        push_line(&mut out, line.as_slice());
        proof {
            let t = ls.take(1 + i + 1);
            assert(t.drop_last() =~= ls.take(1 + i));
            assert(t.last() == d_line(kv[i as int]));
        }
    }
    let nk = key.len();
    for i in 0..chain.len()
        invariant
            kv == key_view(key@),
            cv == chain_view(chain@),
            ls == cache_lines(kv, cv),
            nk == kv.len(),
            out@ == with_newlines(ls.take(1 + nk + i)),
    {
        let line = chain_line(chain[i].0.as_str(), chain[i].1);
        assert(line@ =~= f_line(cv[i as int]));
        push_line(&mut out, line.as_slice());
        proof {
            let t = ls.take(1 + nk + i + 1);
            assert(t.drop_last() =~= ls.take(1 + nk + i));
            assert(t.last() == f_line(cv[i as int]));
        }
    }
    assert(ls.take(1 + nk + chain.len()) =~= ls);
    Some(string_of(out.as_slice()))
}

/// Whether a line is the cache line of key entry `k`.
fn d_line_is(line: &[char], dir: &str, secs: u64, nanos: u32) -> (b: bool)
    ensures
        b == d_line_matches(line@, (dir@, secs, nanos)),
{
    let parts = splitn(line, 4, '\t');
    if parts.len() != 4 {
        return false;
    }
    assert(views(parts@)[0] == parts@[0]@);
    assert(views(parts@)[1] == parts@[1]@);
    assert(views(parts@)[2] == parts@[2]@);
    assert(views(parts@)[3] == parts@[3]@);
    if !(parts[0].len() == 1 && parts[0][0] == 'd') {
        assert(parts@[0]@ != seq!['d']) by {
            if parts@[0]@ == seq!['d'] {
                assert(parts@[0]@.len() == 1);
            }
        };
        return false;
    }
    assert(parts@[0]@ =~= seq!['d']);
    if !eq_chars(parts[1].as_slice(), chars_of(dir).as_slice()) {
        return false;
    }
    let s = crate::num::parse_u64(string_of(parts[2].as_slice()).as_str());
    if s != Some(secs) {
        return false;
    }
    parse_u32(parts[3].as_slice()) == Some(nanos)
}

/// The chain entry of a cache line, if it is one.
fn f_entry_of(line: &[char]) -> (r: Option<(String, u32)>)
    ensures
        match r {
            Some(e) => f_entry(line@) == Some((e.0@, e.1)),
            None => f_entry(line@) is None,
        },
{
    let parts = splitn(line, 3, '\t');
    if parts.len() != 3 {
        return None;
    }
    assert(views(parts@)[0] == parts@[0]@);
    assert(views(parts@)[1] == parts@[1]@);
    assert(views(parts@)[2] == parts@[2]@);
    if !(parts[0].len() == 1 && parts[0][0] == 'f') {
        assert(parts@[0]@ != seq!['f']) by {
            if parts@[0]@ == seq!['f'] {
                assert(parts@[0]@.len() == 1);
            }
        };
        return None;
    }
    assert(parts@[0]@ =~= seq!['f']);
    match parse_u32(parts[1].as_slice()) {
        Some(i) => Some((string_of(parts[2].as_slice()), i)),
        None => None,
    }
}

/// Read the font chain back from cache `text`, if it was written for `key`.
pub fn read_cache_text(text: &str, key: &Vec<(String, u64, u32)>) -> (r: Option<Vec<(String, u32)>>)
    ensures
        match r {
            Some(c) => read_cache_spec(text@, key_view(key@)) == Some(chain_view(c@)),
            None => read_cache_spec(text@, key_view(key@)) is None,
        },
{
    let ghost kv = key_view(key@);
    let ls = crate::text::split_lines(chars_of(text).as_slice());
    let ghost lv = views(ls@);
    let nk = key.len();
    if ls.len() <= nk {
        return None;
    }
    let header = chars_of("rmenu-font-cache v1");
    assert(lv[0] == ls@[0]@);
    if !eq_chars(ls[0].as_slice(), header.as_slice()) {
        return None;
    }
    for k in 0..nk
        invariant
            kv == key_view(key@),
            lv == views(ls@),
            lv == lines(text@),
            nk == kv.len(),
            nk < ls@.len(),
            forall|j: int| 0 <= j < k ==> d_line_matches(#[trigger] lv[1 + j], kv[j]),
    {
        assert(lv[1 + k] == ls@[1 + k as int]@);
        if !d_line_is(ls[1 + k].as_slice(), key[k].0.as_str(), key[k].1, key[k].2) {
            assert(!d_line_matches(lv[1 + k as int], kv[k as int]));
            return None;
        }
    }
    let ghost rest = lv.skip(1 + nk as int);
    let mut chain: Vec<(String, u32)> = Vec::new();
    for j in (1 + nk)..ls.len()
        invariant
            kv == key_view(key@),
            nk == kv.len(),
            lv == views(ls@),
            lv == lines(text@),
            lv[0] == cache_header(),
            forall|k: int| 0 <= k < nk ==> d_line_matches(#[trigger] lv[1 + k], kv[k]),
            rest == lv.skip(1 + nk as int),
            1 + nk <= ls@.len(),
            chain_view(chain@) == rest.take(j - 1 - nk).map_values(|l: Seq<char>| f_entry(l)->0),
            forall|t: int| 0 <= t < j - 1 - nk ==> #[trigger] f_entry(rest[t]) is Some,
    {
        assert(rest[j - 1 - nk] == ls@[j as int]@);
        match f_entry_of(ls[j].as_slice()) {
            None => {
                assert(f_entry(rest[j - 1 - nk]) is None);
                return None;
            },
            Some(e) => {
                let ghost before = chain_view(chain@);
                chain.push(e);
                assert(chain_view(chain@) =~= before.push((e.0@, e.1)));
                assert(rest.take(j - nk).map_values(|l: Seq<char>| f_entry(l)->0) =~= rest.take(
                    j - 1 - nk,
                ).map_values(|l: Seq<char>| f_entry(l)->0).push(f_entry(rest[j - 1 - nk])->0));
            },
        }
    }
    assert(rest.take(ls@.len() - 1 - nk) =~= rest);
    if chain.len() == 0 {
        return None;
    }
    Some(chain)
}

/// `x` holds neither a tab nor a newline.
pub open spec fn plain_field(x: Seq<char>) -> bool {
    forall|i: int| 0 <= i < x.len() ==> x[i] != '\t' && x[i] != '\n'
}

proof fn lemma_digits_plain(n: nat)
    ensures
        plain_field(dec_string(n)),
        dec_string(n).len() > 0,
        u64_of(dec_string(n)) == (if n <= u64::MAX {
            Some(n as u64)
        } else {
            None
        }),
        u32_of(dec_string(n)) == (if n <= u32::MAX {
            Some(n as u32)
        } else {
            None
        }),
        is_digit(dec_string(n).last()),
{
    crate::num::dec_string_reads_back(n);
    let d = dec_string(n);
    assert forall|i: int| 0 <= i < d.len() implies d[i] != '\t' && d[i] != '\n' by {
        assert(is_digit(d[i]));
    }
    assert(is_digit(d[d.len() - 1]));
}

proof fn lemma_split_at_tab(a: Seq<char>, b: Seq<char>)
    requires
        forall|i: int| 0 <= i < a.len() ==> a[i] != '\t',
    ensures
        first_index(a + seq!['\t'] + b, '\t', 0) == a.len(),
        (a + seq!['\t'] + b).take(a.len() as int) == a,
        (a + seq!['\t'] + b).skip(a.len() as int + 1) == b,
{
    let s = a + seq!['\t'] + b;
    assert forall|j: int| 0 <= j < a.len() implies s[j] != '\t' by {
        assert(s[j] == a[j]);
    }
    assert(s[a.len() as int] == '\t');
    lemma_first_index(s, '\t', 0, a.len() as int);
    assert(s.take(a.len() as int) =~= a);
    assert(s.skip(a.len() as int + 1) =~= b);
}

#[verifier::spinoff_prover]
#[verifier::rlimit(40)]
proof fn lemma_d_line_parts(k: (Seq<char>, u64, u32))
    requires
        plain_field(k.0),
    ensures
        splitn_spec(d_line(k), 4, '\t') == seq![seq!['d'], k.0, dec_string(k.1 as nat), dec_string(k.2 as nat)],
        splitn_spec(d_line(k), 3, '\t')[0] == seq!['d'],
{
    let d1 = dec_string(k.1 as nat);
    let d2 = dec_string(k.2 as nat);
    lemma_digits_plain(k.1 as nat);
    lemma_digits_plain(k.2 as nat);
    let r1 = d1 + seq!['\t'] + d2;
    let r0 = k.0 + seq!['\t'] + r1;
    assert(d_line(k) =~= seq!['d'] + seq!['\t'] + r0);
    lemma_split_at_tab(seq!['d'], r0);
    lemma_split_at_tab(k.0, r1);
    lemma_split_at_tab(d1, d2);
    assert(splitn_spec(d2, 1, '\t') == seq![d2]);
    assert(splitn_spec(r1, 2, '\t') =~= seq![d1, d2]);
    assert(splitn_spec(r0, 3, '\t') =~= seq![k.0, d1, d2]);
    assert(splitn_spec(d_line(k), 4, '\t') =~= seq![seq!['d'], k.0, d1, d2]);
    assert(splitn_spec(d_line(k), 3, '\t') =~= seq![seq!['d']] + splitn_spec(r0, 2, '\t'));
}

#[verifier::spinoff_prover]
proof fn lemma_f_line_parts(e: (Seq<char>, u32))
    ensures
        splitn_spec(f_line(e), 3, '\t') == seq![seq!['f'], dec_string(e.1 as nat), e.0],
        splitn_spec(f_line(e), 4, '\t')[0] == seq!['f'],
{
    let d = dec_string(e.1 as nat);
    lemma_digits_plain(e.1 as nat);
    let r0 = d + seq!['\t'] + e.0;
    assert(f_line(e) =~= seq!['f'] + seq!['\t'] + r0);
    lemma_split_at_tab(seq!['f'], r0);
    lemma_split_at_tab(d, e.0);
    assert(splitn_spec(e.0, 1, '\t') == seq![e.0]);
    assert(splitn_spec(r0, 2, '\t') =~= seq![d, e.0]);
    assert(splitn_spec(f_line(e), 3, '\t') =~= seq![seq!['f'], d, e.0]);
    assert(splitn_spec(f_line(e), 4, '\t') =~= seq![seq!['f']] + splitn_spec(r0, 3, '\t'));
}

/// The cache can be written and read back as written (see the laws).
spec fn cache_writable(key: Seq<(Seq<char>, u64, u32)>, chain: Seq<(Seq<char>, u32)>) -> bool {
    &&& chain.len() > 0
    &&& forall|i: int| 0 <= i < chain.len() ==> no_newline(#[trigger] chain[i].0) && !(chain[i].0.len()
        > 0 && chain[i].0.last() == '\r')
    &&& forall|k: int| 0 <= k < key.len() ==> plain_field(#[trigger] key[k].0)
}

/// What the text written for `key` and `chain` reads back as, line by line.
proof fn lemma_cache_lines_read(key: Seq<(Seq<char>, u64, u32)>, chain: Seq<(Seq<char>, u32)>)
    requires
        cache_writable(key, chain),
    ensures
        cache_text_spec(key, chain) == Some(with_newlines(cache_lines(key, chain))),
        lines(with_newlines(cache_lines(key, chain))) == cache_lines(key, chain),
{
    let ls = cache_lines(key, chain);
    reveal_strlit("rmenu-font-cache v1");
    assert forall|i: int| 0 <= i < ls.len() implies no_newline(#[trigger] ls[i]) && crate::text::strip_cr(
        ls[i],
    ) == ls[i] by {
        if i == 0 {
            assert(ls[0] == cache_header());
        } else if i < 1 + key.len() {
            let k = key[i - 1];
            assert(ls[i] == d_line(k));
            lemma_digits_plain(k.1 as nat);
            lemma_digits_plain(k.2 as nat);
            let d1 = dec_string(k.1 as nat);
            let d2 = dec_string(k.2 as nat);
            assert(plain_field(k.0));
            assert forall|j: int| 0 <= j < ls[i].len() implies ls[i][j] != '\n' by {
                let l = d_line(k);
                if j < 2 {
                } else if j < 2 + k.0.len() {
                    assert(l[j] == k.0[j - 2]);
                } else if j == 2 + k.0.len() {
                } else if j < 3 + k.0.len() + d1.len() {
                    assert(l[j] == d1[j - 3 - k.0.len()]);
                } else if j == 3 + k.0.len() + d1.len() {
                } else {
                    assert(l[j] == d2[j - 4 - k.0.len() - d1.len()]);
                }
            }
            assert(ls[i].last() == d2.last());
        } else {
            let e = chain[i - 1 - key.len()];
            assert(ls[i] == f_line(e));
            lemma_digits_plain(e.1 as nat);
            let d = dec_string(e.1 as nat);
            assert(no_newline(e.0));
            assert forall|j: int| 0 <= j < ls[i].len() implies ls[i][j] != '\n' by {
                let l = f_line(e);
                if j < 2 {
                } else if j < 2 + d.len() {
                    assert(l[j] == d[j - 2]);
                } else if j == 2 + d.len() {
                } else {
                    assert(l[j] == e.0[j - 3 - d.len()]);
                }
            }
            if e.0.len() > 0 {
                assert(ls[i].last() == e.0.last());
            }
        }
    }
    crate::text::lines_of_written_lines(ls);
    assert(ls.map_values(|l: Seq<char>| crate::text::strip_cr(l)) =~= ls);
}

/// Law: the font chain cache reads back exactly what was written for the
/// same key (font directories without tabs or newlines, font paths without
/// newlines and not ending in a carriage return).
pub proof fn font_cache_round_trips(key: Seq<(Seq<char>, u64, u32)>, chain: Seq<(Seq<char>, u32)>)
    requires
        chain.len() > 0,
        forall|i: int| 0 <= i < chain.len() ==> no_newline(#[trigger] chain[i].0) && !(chain[i].0.len()
            > 0 && chain[i].0.last() == '\r'),
        forall|k: int| 0 <= k < key.len() ==> plain_field(#[trigger] key[k].0),
    ensures
        cache_text_spec(key, chain) is Some,
        read_cache_spec(cache_text_spec(key, chain)->0, key) == Some(chain),
{
    lemma_cache_lines_read(key, chain);
    let ls = cache_lines(key, chain);
    let t = with_newlines(ls);
    assert(lines(t) == ls);
    assert forall|k: int| 0 <= k < key.len() implies d_line_matches(#[trigger] ls[1 + k], key[k]) by {
        assert(ls[1 + k] == d_line(key[k]));
        lemma_d_line_parts(key[k]);
        lemma_digits_plain(key[k].1 as nat);
        lemma_digits_plain(key[k].2 as nat);
    }
    let rest = ls.skip(1 + key.len() as int);
    assert forall|j: int| 0 <= j < rest.len() implies #[trigger] f_entry(rest[j]) == Some(chain[j]) by {
        assert(rest[j] == f_line(chain[j]));
        lemma_f_line_parts(chain[j]);
        lemma_digits_plain(chain[j].1 as nat);
    }
    assert(rest.map_values(|l: Seq<char>| f_entry(l)->0) =~= chain);
}

/// Law: text written for one key is refused for any other key (a font
/// added or removed changes a directory's time, which invalidates the cache).
pub proof fn font_cache_rejects_other_keys(
    key: Seq<(Seq<char>, u64, u32)>,
    other: Seq<(Seq<char>, u64, u32)>,
    chain: Seq<(Seq<char>, u32)>,
)
    requires
        chain.len() > 0,
        forall|i: int| 0 <= i < chain.len() ==> no_newline(#[trigger] chain[i].0) && !(chain[i].0.len()
            > 0 && chain[i].0.last() == '\r'),
        forall|k: int| 0 <= k < key.len() ==> plain_field(#[trigger] key[k].0),
        other != key,
    ensures
        read_cache_spec(cache_text_spec(key, chain)->0, other) is None,
{
    lemma_cache_lines_read(key, chain);
    let ls = cache_lines(key, chain);
    let t = with_newlines(ls);
    let n = key.len() as int;
    let m = other.len() as int;
    if ls.len() < 1 + m || ls[0] != cache_header() {
    } else if exists|k: int| 0 <= k < m && k < n && other[k] != key[k] {
        let k = choose|k: int| 0 <= k < m && k < n && other[k] != key[k];
        assert(ls[1 + k] == d_line(key[k]));
        lemma_d_line_parts(key[k]);
        lemma_digits_plain(key[k].1 as nat);
        lemma_digits_plain(key[k].2 as nat);
        assert(!d_line_matches(ls[1 + k], other[k]));
    } else if m < n {
        let rest = ls.skip(1 + m);
        assert(rest[0] == d_line(key[m]));
        lemma_d_line_parts(key[m]);
        assert(seq!['d'][0] != seq!['f'][0]);
        assert(splitn_spec(rest[0], 3, '\t')[0] != seq!['f']);
        assert(f_entry(rest[0]) is None);
    } else if m > n {
        assert(ls[1 + n] == f_line(chain[0]));
        lemma_f_line_parts(chain[0]);
        assert(seq!['d'][0] != seq!['f'][0]);
        assert(splitn_spec(ls[1 + n], 4, '\t')[0] != seq!['d']);
        assert(!d_line_matches(ls[1 + n], other[n]));
    } else {
        assert(other =~= key);
    }
}

#[verifier::external_type_specification]
#[verifier::external_body]
pub struct ExDatabase(fontdb::Database);

#[verifier::external_type_specification]
#[verifier::external_body]
pub struct ExFaceId(fontdb::ID);

#[verifier::external_type_specification]
#[verifier::external_body]
pub struct ExPathBuf(std::path::PathBuf);

/// What a font database holds: the family names of each of its faces, in
/// the order the database keeps them.
pub uninterp spec fn face_families(db: fontdb::Database) -> Seq<Seq<Seq<char>>>;

/// The id of each face of the database, in the same order.
pub uninterp spec fn face_ids(db: fontdb::Database) -> Seq<fontdb::ID>;

/// Where each face of the database lives, in the same order: its file and
/// face index, or none for a face loaded from memory.
pub uninterp spec fn face_files(db: fontdb::Database) -> Seq<Option<(std::path::PathBuf, u32)>>;

/// The position (in the database's order) of the face that
/// `fontdb::Database::query` picks for `family` at the CSS `weight`, with the
/// default stretch and style; none when it picks nothing.
pub uninterp spec fn query_pick(db: fontdb::Database, family: Seq<char>, weight: u16) -> Option<int>;

/// Some face of the database has `family` among its family names.
pub open spec fn has_family(db: fontdb::Database, family: Seq<char>) -> bool {
    exists|i: int, j: int|
        0 <= i < face_families(db).len() && 0 <= j < face_families(db)[i].len()
            && #[trigger] face_families(db)[i][j] == family
}

/// `e` is the file location of some face of the database.
pub open spec fn is_face_file(db: fontdb::Database, e: (std::path::PathBuf, u32)) -> bool {
    exists|i: int| 0 <= i < face_ids(db).len() && #[trigger] face_files(db)[i] == Some(e)
}

/// `fontdb::Database::query` for one family name at the CSS `weight`, with
/// the default stretch and style. The source gathers the faces that have
/// the name among their families and, when there are any, always picks one
/// of them by CSS matching; so a face comes back exactly when the family is
/// there, and it is one of that family's faces. Which one is the name
/// `query_pick`: the CSS matching over the faces' stretch, style and weight.
#[verifier::external_body]
fn query_face(db: &fontdb::Database, family: &str, weight: u16) -> (id: Option<fontdb::ID>)
    ensures
        id is Some <==> has_family(*db, family@),
        id is Some <==> query_pick(*db, family@, weight) is Some,
        id matches Some(x) ==> (query_pick(*db, family@, weight) matches Some(i) && 0 <= i
            < face_ids(*db).len() && x == face_ids(*db)[i] && face_families(*db)[i].contains(family@)),
{
    db.query(
        &fontdb::Query {
            families: &[fontdb::Family::Name(family)],
            weight: fontdb::Weight(weight),
            ..Default::default()
        },
    )
}

/// `fontdb::Database::face`, reduced to where the face lives: its file and
/// face index, or none for a face loaded from memory. For the id of a face
/// of the database that is that face's entry of `face_files`.
#[verifier::external_body]
fn face_location(db: &fontdb::Database, id: fontdb::ID) -> (loc: Option<(std::path::PathBuf, u32)>)
    ensures
        forall|i: int|
            0 <= i < face_ids(*db).len() && #[trigger] face_ids(*db)[i] == id ==> loc
                == face_files(*db)[i],
{
    let face = db.face(id)?;
    match &face.source {
        fontdb::Source::File(p) => Some((p.clone(), face.index)),
        fontdb::Source::SharedFile(p, _) => Some((p.clone(), face.index)),
        fontdb::Source::Binary(_) => None,
    }
}

/// `fontdb::Database::faces`: every face, as its id and family names, in
/// the database's order.
#[verifier::external_body]
fn face_list(db: &fontdb::Database) -> (faces: Vec<(fontdb::ID, Vec<String>)>)
    ensures
        faces@.len() == face_ids(*db).len(),
        faces@.len() == face_families(*db).len(),
        faces@.len() == face_files(*db).len(),
        forall|i: int|
            0 <= i < faces@.len() ==> (#[trigger] faces@[i]).0 == face_ids(*db)[i]
                && faces@[i].1@.map_values(|s: String| s@) == face_families(*db)[i],
{
    db.faces().map(|f| (f.id, f.families.iter().map(|(name, _)| name.clone()).collect())).collect()
}

/// The first present entry of `v`, as a list of at most one.
pub open spec fn first_found<T>(v: Seq<Option<T>>) -> Seq<T>
    decreases v.len(),
{
    if v.len() == 0 {
        seq![]
    } else {
        match v[0] {
            Some(x) => seq![x],
            None => first_found(v.drop_first()),
        }
    }
}

/// The present entries of `v`, in order.
pub open spec fn all_found<T>(v: Seq<Option<T>>) -> Seq<T>
    decreases v.len(),
{
    if v.len() == 0 {
        seq![]
    } else {
        all_found(v.drop_last()) + match v.last() {
            Some(x) => seq![x],
            None => seq![],
        }
    }
}

/// An optional value as a list of at most one.
pub open spec fn found<T>(o: Option<T>) -> Seq<T> {
    match o {
        Some(x) => seq![x],
        None => seq![],
    }
}

/// The font chain from what the database gave: one CJK face (the first of
/// the CJK families found: they are alternates, usually faces of the same
/// large collection), every monospace family found, a Nerd Font face for
/// icon glyphs; and when none of these exists, simply the first face.
pub open spec fn chain_of<T>(cjk: Seq<Option<T>>, mono: Seq<Option<T>>, nerd: Option<T>, any: Option<T>) -> Seq<T> {
    let picked = first_found(cjk) + all_found(mono) + found(nerd);
    if picked.len() == 0 {
        found(any)
    } else {
        picked
    }
}

/// CJK-capable families, mutual alternates, most preferred first.
pub open spec fn cjk_families() -> Seq<Seq<char>> {
    seq!["Noto Sans CJK SC"@, "Noto Sans CJK TC"@, "Noto Sans CJK JP"@, "WenQuanYi Micro Hei"@, "Source Han Sans SC"@]
}

/// Monospace families for Latin text, all kept.
pub open spec fn mono_families() -> Seq<Seq<char>> {
    seq!["Noto Sans Mono"@, "DejaVu Sans Mono"@, "Liberation Mono"@]
}

/// A family name marks a Nerd Font (patched families, "Symbols Nerd Font").
pub open spec fn is_nerd_family(name: Seq<char>) -> bool {
    crate::text::is_substring("nerd font"@, ascii_lower_seq(name))
}

/// Where the face the database picks for `family` at the normal weight lives.
pub open spec fn picked_file(db: fontdb::Database, family: Seq<char>) -> Option<(std::path::PathBuf, u32)> {
    match query_pick(db, family, NORMAL_WEIGHT) {
        Some(i) => face_files(db)[i],
        None => None,
    }
}

/// Where the face the database picks for `family` lives; nothing when the
/// database has no face of that family (or the face is not in a file).
fn query_path(db: &fontdb::Database, family: &str) -> (loc: Option<(std::path::PathBuf, u32)>)
    ensures
        loc == picked_file(*db, family@),
        loc is Some ==> has_family(*db, family@),
        loc matches Some(e) ==> is_face_file(*db, e),
{
    match query_face(db, family, NORMAL_WEIGHT) {
        Some(id) => face_location(db, id),
        None => None,
    }
}

/// The face the database picks for `family` at `weight`; where that query
/// finds none, the one it picks at the normal weight. A face comes back
/// exactly when the database has the family, and it is the face picked at
/// `weight` (the family's presence decides both queries alike).
pub fn query_family(db: &fontdb::Database, family: &str, weight: u16) -> (id: Option<fontdb::ID>)
    ensures
        id is Some <==> has_family(*db, family@),
        match query_pick(*db, family@, weight) {
            Some(i) => id == Some(face_ids(*db)[i]),
            None => id is None,
        },
{
    match query_face(db, family, weight) {
        Some(id) => Some(id),
        None => query_face(db, family, NORMAL_WEIGHT),
    }
}

/// Whether one of `names` is a Nerd Font family.
fn has_nerd_family(names: &Vec<String>) -> (b: bool)
    ensures
        b == exists|i: int| 0 <= i < names@.len() && is_nerd_family(#[trigger] names@[i]@),
{
    let needle = chars_of("nerd font");
    for i in 0..names.len()
        invariant
            needle@ == "nerd font"@,
            forall|j: int| 0 <= j < i ==> !is_nerd_family(#[trigger] names@[j]@),
    {
        let l = to_ascii_lowercase(chars_of(names[i].as_str()).as_slice());
        if crate::text::contains_seq(l.as_slice(), needle.as_slice()) {
            assert(is_nerd_family(names@[i as int]@));
            return true;
        }
    }
    false
}

proof fn lemma_first_found_push<T>(v: Seq<Option<T>>, x: Option<T>)
    requires
        first_found(v).len() == 0,
    ensures
        first_found(v.push(x)) == found(x),
    decreases v.len(),
{
    if v.len() == 0 {
        assert(v.push(x).drop_first() =~= Seq::<Option<T>>::empty());
        assert(v.push(x)[0] == x);
        assert(first_found(v.push(x).drop_first()) =~= seq![]);
    } else {
        assert(v[0] is None);
        assert(v.push(x)[0] == v[0]);
        assert(v.push(x).drop_first() =~= v.drop_first().push(x));
        lemma_first_found_push(v.drop_first(), x);
    }
}

proof fn lemma_first_found_extend<T>(v: Seq<Option<T>>, w: Seq<Option<T>>)
    requires
        first_found(v).len() == 1,
    ensures
        first_found(v + w) == first_found(v),
    decreases v.len(),
{
    if v[0] is None {
        assert((v + w).drop_first() =~= v.drop_first() + w);
        lemma_first_found_extend(v.drop_first(), w);
    }
}

proof fn lemma_first_found_len<T>(v: Seq<Option<T>>)
    ensures
        first_found(v).len() <= 1,
    decreases v.len(),
{
    if v.len() > 0 && v[0] is None {
        lemma_first_found_len(v.drop_first());
    }
}

/// The first present entry of `v`.
pub open spec fn first_some<T>(v: Seq<Option<T>>) -> Option<T>
    decreases v.len(),
{
    if v.len() == 0 {
        None
    } else {
        match v[0] {
            Some(x) => Some(x),
            None => first_some(v.drop_first()),
        }
    }
}

proof fn lemma_first_some_push<T>(v: Seq<Option<T>>, x: Option<T>)
    requires
        first_some(v) is None,
    ensures
        first_some(v.push(x)) == x,
    decreases v.len(),
{
    if v.len() == 0 {
        assert(v.push(x).drop_first() =~= Seq::<Option<T>>::empty());
        assert(first_some(v.push(x).drop_first()) is None);
        assert(v.push(x)[0] == x);
    } else {
        assert(v.push(x)[0] == v[0]);
        assert(v.push(x).drop_first() =~= v.drop_first().push(x));
        lemma_first_some_push(v.drop_first(), x);
    }
}

proof fn lemma_first_some_extend<T>(v: Seq<Option<T>>, w: Seq<Option<T>>)
    requires
        first_some(v) is Some,
    ensures
        first_some(v + w) == first_some(v),
    decreases v.len(),
{
    assert((v + w)[0] == v[0]);
    if v[0] is None {
        assert((v + w).drop_first() =~= v.drop_first() + w);
        lemma_first_some_extend(v.drop_first(), w);
    }
}

/// Where the face each CJK family resolves to lives.
pub open spec fn cjk_picks(db: fontdb::Database) -> Seq<Option<(std::path::PathBuf, u32)>> {
    Seq::new(cjk_families().len(), |k: int| picked_file(db, cjk_families()[k]))
}

/// Where the face each monospace family resolves to lives.
pub open spec fn mono_picks(db: fontdb::Database) -> Seq<Option<(std::path::PathBuf, u32)>> {
    Seq::new(mono_families().len(), |k: int| picked_file(db, mono_families()[k]))
}

/// A face whose family names include a Nerd Font family.
pub open spec fn is_nerd_face(names: Seq<Seq<char>>) -> bool {
    exists|j: int| 0 <= j < names.len() && is_nerd_family(#[trigger] names[j])
}

/// For each face of the database, its file when it is a Nerd Font face.
pub open spec fn nerd_files(db: fontdb::Database) -> Seq<Option<(std::path::PathBuf, u32)>> {
    Seq::new(
        face_families(db).len(),
        |i: int|
            if is_nerd_face(face_families(db)[i]) {
                face_files(db)[i]
            } else {
                None
            },
    )
}

/// The file of the database's first face, if it has one.
pub open spec fn first_face_file(db: fontdb::Database) -> Option<(std::path::PathBuf, u32)> {
    if face_files(db).len() > 0 {
        face_files(db)[0]
    } else {
        None
    }
}

/// The chain for a database: the first CJK family's face, the face of every
/// monospace family, the first file-backed Nerd Font face, and when none of
/// these exists, the first face.
pub open spec fn chain_spec(db: fontdb::Database) -> Seq<(std::path::PathBuf, u32)> {
    chain_of(cjk_picks(db), mono_picks(db), first_some(nerd_files(db)), first_face_file(db))
}

/// The CJK-preferring ordered list of usable system font files (primary
/// candidate first), used both to pick the menu font and as its fallback
/// chain. Every entry is a file-backed face of the database, at most one of
/// them is picked for a CJK family, and the chain is empty only when the
/// database's first face is not in a file (or there is none).
pub fn system_chain(db: &fontdb::Database) -> (chain: Vec<(std::path::PathBuf, u32)>)
    ensures
        chain@ == chain_spec(*db),
        forall|k: int| 0 <= k < chain@.len() ==> is_face_file(*db, #[trigger] chain@[k]),
        first_face_file(*db) is Some ==> chain@.len() > 0,
{
    let ghost cp = cjk_picks(*db);
    let ghost mp = mono_picks(*db);
    let mut out: Vec<(std::path::PathBuf, u32)> = Vec::new();
    let cjk_names = [
        "Noto Sans CJK SC",
        "Noto Sans CJK TC",
        "Noto Sans CJK JP",
        "WenQuanYi Micro Hei",
        "Source Han Sans SC",
    ];
    proof {
        reveal_strlit("Noto Sans CJK SC");
        reveal_strlit("Noto Sans CJK TC");
        reveal_strlit("Noto Sans CJK JP");
        reveal_strlit("WenQuanYi Micro Hei");
        reveal_strlit("Source Han Sans SC");
        assert(cjk_names@[0]@ == cjk_families()[0]);
        assert(cjk_names@[1]@ == cjk_families()[1]);
        assert(cjk_names@[2]@ == cjk_families()[2]);
        assert(cjk_names@[3]@ == cjk_families()[3]);
        assert(cjk_names@[4]@ == cjk_families()[4]);
    }
    let mut i: usize = 0;
    assert(cp.take(0) =~= seq![]);
    while i < 5
        invariant
            i <= 5,
            cp == cjk_picks(*db),
            cp.len() == 5,
            forall|k: int| 0 <= k < 5 ==> (#[trigger] cjk_names@[k])@ == cjk_families()[k],
            out@ == first_found(cp.take(i as int)),
            forall|k: int| 0 <= k < out@.len() ==> is_face_file(*db, #[trigger] out@[k]),
        decreases 5 - i,
    {
        assert(cp.take(i + 1) =~= cp.take(i as int).push(cp[i as int]));
        if out.len() == 0 {
            let r = query_path(db, cjk_names[i]);
            proof {
                lemma_first_found_push(cp.take(i as int), cp[i as int]);
            }
            match r {
                Some(loc) => out.push(loc),
                None => {},
            }
        } else {
            proof {
                lemma_first_found_len(cp.take(i as int));
                lemma_first_found_extend(cp.take(i as int), seq![cp[i as int]]);
                assert(cp.take(i as int) + seq![cp[i as int]] =~= cp.take(i + 1));
            }
        }
        i += 1;
    }
    assert(cp.take(5) =~= cp);
    let ghost head = out@;
    let mono_names = ["Noto Sans Mono", "DejaVu Sans Mono", "Liberation Mono"];
    proof {
        reveal_strlit("Noto Sans Mono");
        reveal_strlit("DejaVu Sans Mono");
        reveal_strlit("Liberation Mono");
        assert(mono_names@[0]@ == mono_families()[0]);
        assert(mono_names@[1]@ == mono_families()[1]);
        assert(mono_names@[2]@ == mono_families()[2]);
    }
    assert(mp.take(0) =~= seq![]);
    for j in 0..3
        invariant
            mp == mono_picks(*db),
            mp.len() == 3,
            forall|k: int| 0 <= k < 3 ==> (#[trigger] mono_names@[k])@ == mono_families()[k],
            out@ == head + all_found(mp.take(j as int)),
            forall|k: int| 0 <= k < out@.len() ==> is_face_file(*db, #[trigger] out@[k]),
    {
        let r = query_path(db, mono_names[j]);
        proof {
            assert(mp.take(j + 1).drop_last() =~= mp.take(j as int));
            assert(mp.take(j + 1).last() == r);
        }
        match r {
            Some(loc) => {
                out.push(loc);
                assert(out@ =~= head + all_found(mp.take(j + 1)));
            },
            None => {
                assert(out@ =~= head + all_found(mp.take(j + 1)));
            },
        }
    }
    assert(mp.take(3) =~= mp);
    let faces = face_list(db);
    let ghost nf = nerd_files(*db);
    let mut nerd: Option<(std::path::PathBuf, u32)> = None;
    let mut k: usize = 0;
    assert(nf.take(0) =~= seq![]);
    while k < faces.len() && nerd.is_none()
        invariant
            k <= faces@.len(),
            nf == nerd_files(*db),
            nf.len() == faces@.len(),
            faces@.len() == face_ids(*db).len(),
            faces@.len() == face_families(*db).len(),
            forall|m: int|
                0 <= m < faces@.len() ==> (#[trigger] faces@[m]).0 == face_ids(*db)[m]
                    && faces@[m].1@.map_values(|s: String| s@) == face_families(*db)[m],
            nerd == first_some(nf.take(k as int)),
            nerd matches Some(e) ==> is_face_file(*db, e),
        decreases faces@.len() - k,
    {
        assert(nf.take(k + 1) =~= nf.take(k as int).push(nf[k as int]));
        proof {
            lemma_first_some_push(nf.take(k as int), nf[k as int]);
        }
        let is_nerd = has_nerd_family(&faces[k].1);
        proof {
            let names = faces@[k as int].1@;
            let fam = face_families(*db)[k as int];
            assert(names.map_values(|s: String| s@) == fam);
            assert(names.len() == fam.len());
            if is_nerd {
                let j = choose|j: int| 0 <= j < names.len() && is_nerd_family(#[trigger] names[j]@);
                assert(fam[j] == names[j]@);
            }
            if is_nerd_face(fam) {
                let j = choose|j: int| 0 <= j < fam.len() && is_nerd_family(#[trigger] fam[j]);
                assert(fam[j] == names[j]@);
            }
            assert(is_nerd == is_nerd_face(fam));
        }
        if is_nerd {
            nerd = face_location(db, faces[k].0);
        }
        k += 1;
    }
    proof {
        if k < faces@.len() {
            lemma_first_some_extend(nf.take(k as int), nf.skip(k as int));
            assert(nf.take(k as int) + nf.skip(k as int) =~= nf);
        } else {
            assert(nf.take(k as int) =~= nf);
        }
    }
    let ghost n = nerd;
    match nerd {
        Some(loc) => out.push(loc),
        None => {},
    }
    assert(out@ =~= first_found(cp) + all_found(mp) + found(n));
    if out.len() == 0 && faces.len() > 0 {
        let a = face_location(db, faces[0].0);
        match a {
            Some(loc) => out.push(loc),
            None => {},
        }
    }
    assert(out@ =~= chain_spec(*db));
    out
}

#[verifier::external_type_specification]
#[verifier::external_body]
pub struct ExFontVec(ab_glyph::FontVec);

/// The face `ab_glyph` makes of font file bytes `data` (face `index` of a
/// collection), or none when the bytes are not a usable font.
pub uninterp spec fn parsed_face(data: Seq<u8>, index: u32) -> Option<ab_glyph::FontVec>;

/// The bytes hold a font `ab_glyph` can use, at face `index`.
pub open spec fn face_parses(data: Seq<u8>, index: u32) -> bool {
    parsed_face(data, index) is Some
}

/// `ab_glyph::FontVec::try_from_vec_and_index`: the face, or none when the
/// bytes do not parse (its error carries nothing more).
#[verifier::external_body]
fn parse_face(data: Vec<u8>, index: u32) -> (f: Option<ab_glyph::FontVec>)
    ensures
        f == parsed_face(data@, index),
{
    ab_glyph::FontVec::try_from_vec_and_index(data, index).ok()
}

/// The faces a list of font files gives, in order.
pub open spec fn file_faces(files: Seq<(Vec<u8>, u32)>) -> Seq<Option<ab_glyph::FontVec>> {
    files.map_values(|e: (Vec<u8>, u32)| parsed_face(e.0@, e.1))
}

/// The menu's faces from font file bytes: the primary face (which must
/// parse), and every fallback that parses, in order; the others are skipped.
pub fn load_faces(primary: Vec<u8>, index: u32, fallbacks: Vec<(Vec<u8>, u32)>) -> (r: Option<
    (ab_glyph::FontVec, Vec<ab_glyph::FontVec>),
>)
    ensures
        match parsed_face(primary@, index) {
            Some(f) => r matches Some((g, fb)) && g == f && fb@ == all_found(file_faces(fallbacks@)),
            None => r is None,
        },
{
    let font = match parse_face(primary, index) {
        Some(f) => f,
        None => return None,
    };
    let ghost all = fallbacks@;
    let mut rest = fallbacks;
    let mut out: Vec<ab_glyph::FontVec> = Vec::new();
    assert(all.take(0) =~= seq![]);
    assert(file_faces(all.take(0)) =~= seq![]);
    while rest.len() > 0
        invariant
            all.len() >= rest@.len(),
            rest@ == all.skip(all.len() - rest@.len()),
            out@ == all_found(file_faces(all.take(all.len() - rest@.len()))),
        decreases rest@.len(),
    {
        let ghost k = all.len() - rest@.len();
        let (data, i) = rest.remove(0);
        proof {
            assert(all[k] == (data, i));
            let ff = file_faces(all.take(k + 1));
            assert(ff.drop_last() =~= file_faces(all.take(k)));
            assert(ff.last() == parsed_face(data@, i));
            assert(rest@ =~= all.skip(k + 1));
        }
        match parse_face(data, i) {
            Some(f) => out.push(f),
            None => {},
        }
    }
    assert(all.take(all.len() as int) =~= all);
    Some((font, out))
}

/// How the menu font is chosen.
#[derive(Debug)]
pub enum FontPlan {
    /// `-f` names a readable file: exactly its first face, no fallbacks.
    File(String),
    /// `-f` names a family: that family's face, with the whole system chain
    /// as fallbacks.
    Family(String, Vec<(std::path::PathBuf, u32)>),
    /// No `-f`: the chain's head, with the rest of the chain as fallbacks.
    Chain((std::path::PathBuf, u32), Vec<(std::path::PathBuf, u32)>),
    /// No `-f` and no usable system font: "no usable system font found".
    NoFont,
}

/// Choose the menu font from the `-f` spec (trimmed; `spec_is_file` tells
/// whether the trimmed spec names a readable file) and the system chain:
/// an exact file with no fallbacks; else a family with the whole chain as
/// fallbacks; else the chain's head with the rest as fallbacks; and no font
/// at all when there is neither a spec nor a chain.
pub fn font_plan(spec: Option<&str>, spec_is_file: bool, chain: Vec<(std::path::PathBuf, u32)>) -> (p: FontPlan)
    ensures
        match spec {
            Some(s) => if spec_is_file {
                p matches FontPlan::File(f) && f@ == trimmed(s@)
            } else {
                p matches FontPlan::Family(f, fb) && f@ == trimmed(s@) && fb@ == chain@
            },
            None => if chain@.len() == 0 {
                p is NoFont
            } else {
                p matches FontPlan::Chain(h, fb) && h == chain@[0] && fb@ == chain@.drop_first()
            },
        },
{
    match spec {
        Some(s) => {
            let t = string_of(trim(chars_of(s).as_slice()).as_slice());
            if spec_is_file {
                FontPlan::File(t)
            } else {
                FontPlan::Family(t, chain)
            }
        },
        None => {
            if chain.len() == 0 {
                FontPlan::NoFont
            } else {
                let mut rest = chain;
                let head = rest.remove(0);
                FontPlan::Chain(head, rest)
            }
        },
    }
}

} // verus!
