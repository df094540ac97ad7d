//! Character-sequence utilities shared by the menu logic.
use vstd::prelude::*;

verus! {

/// `String::push`: appends one character.
#[verifier::external_body]
pub(crate) fn push_char(s: &mut String, c: char)
    ensures
        final(s)@ == old(s)@.push(c),
{
    s.push(c);
}

/// The characters of `s`, in order.
pub fn chars_of(s: &str) -> (v: Vec<char>)
    ensures
        v@ == s@,
{
    let mut v: Vec<char> = Vec::new();
    for c in it: s.chars()
        invariant
            v@ == it.seq().take(it.index() as int),
            it.seq() == s@,
    {
        v.push(c);
    }
    v
}

/// The string made of the characters `v`, in order.
pub fn string_of(v: &[char]) -> (s: String)
    ensures
        s@ == v@,
{
    let mut s = String::new();
    for i in 0..v.len()
        invariant
            s@ == v@.take(i as int),
    {
        push_char(&mut s, v[i]);
        assert(v@.take(i + 1) =~= v@.take(i as int).push(v@[i as int]));
    }
    assert(v@.take(v.len() as int) =~= v@);
    s
}


/// Unicode `White_Space` (what `char::is_whitespace` tests).
pub open spec fn is_ws(c: char) -> bool {
    let u = c as u32;
    ||| 0x09 <= u <= 0x0d
    ||| u == 0x20
    ||| u == 0x85
    ||| u == 0xa0
    ||| u == 0x1680
    ||| 0x2000 <= u <= 0x200a
    ||| u == 0x2028
    ||| u == 0x2029
    ||| u == 0x202f
    ||| u == 0x205f
    ||| u == 0x3000
}

/// `char::is_whitespace`.
pub fn is_whitespace(c: char) -> (b: bool)
    ensures
        b == is_ws(c),
{
    let u = c as u32;
    (0x09 <= u && u <= 0x0d) || u == 0x20 || u == 0x85 || u == 0xa0 || u == 0x1680 || (0x2000
        <= u && u <= 0x200a) || u == 0x2028 || u == 0x2029 || u == 0x202f || u == 0x205f || u
        == 0x3000
}

/// Unicode general category `Cc` (what `char::is_control` tests).
pub open spec fn is_ctrl(c: char) -> bool {
    let u = c as u32;
    u <= 0x1f || (0x7f <= u && u <= 0x9f)
}

/// `char::is_control`.
pub fn is_control(c: char) -> (b: bool)
    ensures
        b == is_ctrl(c),
{
    let u = c as u32;
    u <= 0x1f || (0x7f <= u && u <= 0x9f)
}

/// `needle` occurs in `hay` starting at position `k`.
pub open spec fn occurs_at(hay: Seq<char>, needle: Seq<char>, k: int) -> bool {
    0 <= k && k + needle.len() <= hay.len() && hay.subrange(k, k + needle.len()) == needle
}

/// `needle` is a contiguous part of `hay` (`str::contains`).
pub open spec fn is_substring(needle: Seq<char>, hay: Seq<char>) -> bool {
    exists|k: int| occurs_at(hay, needle, k)
}

/// `hay` begins with `prefix` (`str::starts_with`).
pub open spec fn has_prefix(hay: Seq<char>, prefix: Seq<char>) -> bool {
    prefix.len() <= hay.len() && hay.subrange(0, prefix.len() as int) == prefix
}

/// `hay` ends with `suffix` (`str::ends_with`).
pub open spec fn has_suffix(hay: Seq<char>, suffix: Seq<char>) -> bool {
    suffix.len() <= hay.len() && hay.subrange(hay.len() - suffix.len(), hay.len() as int)
        == suffix
}

/// Whether `needle` occurs in `hay` at position `k`.
fn matches_at(hay: &[char], needle: &[char], k: usize) -> (b: bool)
    requires
        k + needle@.len() <= hay@.len(),
    ensures
        b == occurs_at(hay@, needle@, k as int),
{
    let mut j: usize = 0;
    while j < needle.len()
        invariant
            k + needle@.len() <= hay@.len(),
            j <= needle@.len(),
            forall|t: int| 0 <= t < j ==> hay@[k + t] == needle@[t],
        decreases needle@.len() - j,
    {
        assert(k + j < hay.len());
        if hay[k + j] != needle[j] {
            assert(hay@.subrange(k as int, k + needle@.len())[j as int] != needle@[j as int]);
            return false;
        }
        j += 1;
    }
    assert(hay@.subrange(k as int, k + needle@.len()) =~= needle@);
    true
}

/// Substring search (`str::contains` on character sequences).
pub fn contains_seq(hay: &[char], needle: &[char]) -> (b: bool)
    ensures
        b == is_substring(needle@, hay@),
{
    if needle.len() > hay.len() {
        return false;
    }
    let last = hay.len() - needle.len();
    let mut k: usize = 0;
    while k <= last
        invariant
            last + needle@.len() == hay@.len(),
            forall|t: int| 0 <= t < k ==> !occurs_at(hay@, needle@, t),
        decreases last + 1 - k,
    {
        if matches_at(hay, needle, k) {
            return true;
        }
        if k == last {
            assert forall|t: int| !occurs_at(hay@, needle@, t) by {
                if 0 <= t <= last {
                }
            }
            return false;
        }
        k += 1;
    }
    false
}

/// Prefix test (`str::starts_with` on character sequences).
pub fn starts_with_seq(hay: &[char], prefix: &[char]) -> (b: bool)
    ensures
        b == has_prefix(hay@, prefix@),
{
    if prefix.len() > hay.len() {
        return false;
    }
    let b = matches_at(hay, prefix, 0);
    assert(b == has_prefix(hay@, prefix@));
    b
}

/// Suffix test (`str::ends_with` on character sequences).
pub fn ends_with_seq(hay: &[char], suffix: &[char]) -> (b: bool)
    ensures
        b == has_suffix(hay@, suffix@),
{
    if suffix.len() > hay.len() {
        return false;
    }
    matches_at(hay, suffix, hay.len() - suffix.len())
}


/// The word being collected, as the list of words it closes (none when empty).
pub open spec fn flush(cur: Seq<char>) -> Seq<Seq<char>> {
    if cur.len() > 0 {
        seq![cur]
    } else {
        seq![]
    }
}

/// Words of `s` when `cur` is the unfinished word before it.
pub open spec fn words_from(s: Seq<char>, cur: Seq<char>) -> Seq<Seq<char>>
    decreases s.len(),
{
    if s.len() == 0 {
        flush(cur)
    } else if is_ws(s[0]) {
        flush(cur) + words_from(s.drop_first(), seq![])
    } else {
        words_from(s.drop_first(), cur.push(s[0]))
    }
}

/// Maximal runs of non-whitespace characters, in order (`str::split_whitespace`).
pub open spec fn words(s: Seq<char>) -> Seq<Seq<char>> {
    words_from(s, seq![])
}

/// The character sequences held by a list of character vectors.
pub open spec fn views(v: Seq<Vec<char>>) -> Seq<Seq<char>> {
    v.map_values(|x: Vec<char>| x@)
}

/// Every word of `cur + s` collected from `cur` on occurs in `cur + s`.
proof fn lemma_words_from_occur(s: Seq<char>, cur: Seq<char>)
    ensures
        forall|k: int|
            0 <= k < words_from(s, cur).len() ==> is_substring(
                #[trigger] words_from(s, cur)[k],
                cur + s,
            ),
    decreases s.len(),
{
    if s.len() == 0 {
        assert(words_from(s, cur) == flush(cur));
        if cur.len() > 0 {
            assert(occurs_at(cur + s, cur, 0)) by {
                assert((cur + s).subrange(0, cur.len() as int) =~= cur);
            }
            assert(flush(cur)[0] == cur);
        }
    } else {
        let rest = s.drop_first();
        if is_ws(s[0]) {
            lemma_words_from_occur(rest, seq![]);
            let f = flush(cur);
            let w = words_from(rest, seq![]);
            assert(words_from(s, cur) == f + w);
            assert forall|k: int| 0 <= k < (f + w).len() implies is_substring(
                #[trigger] (f + w)[k],
                cur + s,
            ) by {
                if k < f.len() {
                    assert((f + w)[k] == cur);
                    assert(occurs_at(cur + s, cur, 0)) by {
                        assert((cur + s).subrange(0, cur.len() as int) =~= cur);
                    }
                } else {
                    let x = w[k - f.len()];
                    assert((f + w)[k] == x);
                    assert(seq![] + rest =~= rest);
                    assert(is_substring(x, rest));
                    let j = choose|j: int| occurs_at(rest, x, j);
                    assert(occurs_at(cur + s, x, cur.len() + 1 + j)) by {
                        assert((cur + s).subrange(cur.len() + 1 + j, cur.len() + 1 + j + x.len())
                            =~= rest.subrange(j, j + x.len()));
                    }
                }
            }
        } else {
            lemma_words_from_occur(rest, cur.push(s[0]));
            assert(words_from(s, cur) == words_from(rest, cur.push(s[0])));
            assert(cur.push(s[0]) + rest =~= cur + s);
        }
    }
}

/// Every word of `s` occurs in `s`.
pub proof fn lemma_words_occur(s: Seq<char>)
    ensures
        forall|k: int| 0 <= k < words(s).len() ==> is_substring(#[trigger] words(s)[k], s),
{
    lemma_words_from_occur(s, seq![]);
    assert(seq![] + s =~= s);
}

/// Text joined after a whitespace character adds its words after those of
/// the text before it.
pub proof fn lemma_words_append(a: Seq<char>, cur: Seq<char>, b: Seq<char>)
    requires
        b.len() > 0,
        is_ws(b[0]),
    ensures
        words_from(a + b, cur) == words_from(a, cur) + words_from(b, seq![]),
    decreases a.len(),
{
    if a.len() == 0 {
        assert(a + b =~= b);
        assert(words_from(b, seq![]) == flush(seq![]) + words_from(b.drop_first(), seq![]));
        assert(flush(seq![]) =~= Seq::<Seq<char>>::empty());
        assert(words_from(b, seq![]) =~= words_from(b.drop_first(), seq![]));
        assert(words_from(a, cur) == flush(cur));
    } else {
        assert((a + b)[0] == a[0]);
        assert((a + b).drop_first() =~= a.drop_first() + b);
        if is_ws(a[0]) {
            lemma_words_append(a.drop_first(), seq![], b);
        } else {
            lemma_words_append(a.drop_first(), cur.push(a[0]), b);
        }
    }
}

/// Splits `s` into its whitespace-separated words.
pub fn split_whitespace(s: &[char]) -> (out: Vec<Vec<char>>)
    ensures
        views(out@) == words(s@),
{
    let mut out: Vec<Vec<char>> = Vec::new();
    let mut cur: Vec<char> = Vec::new();
    assert(s@.skip(0) =~= s@);
    assert(views(out@) =~= seq![]);
    assert(cur@ =~= seq![]);
    for i in 0..s.len()
        invariant
            views(out@) + words_from(s@.skip(i as int), cur@) == words(s@),
    {
        let ghost rest = s@.skip(i as int);
        assert(rest.drop_first() =~= s@.skip(i + 1));
        assert(rest[0] == s@[i as int]);
        let c = s[i];
        if is_whitespace(c) {
            if cur.len() > 0 {
                let ghost before = views(out@);
                let w = cur;
                out.push(w);
                cur = Vec::new();
                assert(views(out@) =~= before + flush(w@));
                assert(before + words_from(rest, w@) =~= views(out@) + words_from(
                    s@.skip(i + 1),
                    cur@,
                ));
            } else {
                assert(cur@ =~= seq![]);
                assert(flush(cur@) =~= seq![]);
                assert(views(out@) + words_from(rest, cur@) =~= views(out@) + words_from(
                    s@.skip(i + 1),
                    cur@,
                ));
            }
        } else {
            cur.push(c);
        }
    }
    assert(s@.skip(s.len() as int) =~= seq![]);
    if cur.len() > 0 {
        let ghost before = views(out@);
        let ghost w = cur@;
        out.push(cur);
        assert(views(out@) =~= before + flush(w));
    } else {
        assert(flush(cur@) =~= seq![]);
        assert(views(out@) + flush(cur@) =~= views(out@));
    }
    out
}

/// Pieces of `s` between separators `sep`, when `cur` is the unfinished piece
/// before it (`str::split` with a character pattern).
pub open spec fn pieces_from(s: Seq<char>, sep: char, cur: Seq<char>) -> Seq<Seq<char>>
    decreases s.len(),
{
    if s.len() == 0 {
        seq![cur]
    } else if s[0] == sep {
        seq![cur] + pieces_from(s.drop_first(), sep, seq![])
    } else {
        pieces_from(s.drop_first(), sep, cur.push(s[0]))
    }
}

/// `str::split(sep)`: the (possibly empty) pieces between separators.
pub open spec fn pieces(s: Seq<char>, sep: char) -> Seq<Seq<char>> {
    pieces_from(s, sep, seq![])
}

/// Splits `s` at every `sep`.
pub fn split_on(s: &[char], sep: char) -> (out: Vec<Vec<char>>)
    ensures
        views(out@) == pieces(s@, sep),
{
    let mut out: Vec<Vec<char>> = Vec::new();
    let mut cur: Vec<char> = Vec::new();
    assert(s@.skip(0) =~= s@);
    assert(views(out@) =~= seq![]);
    assert(cur@ =~= seq![]);
    for i in 0..s.len()
        invariant
            views(out@) + pieces_from(s@.skip(i as int), sep, cur@) == pieces(s@, sep),
    {
        let ghost rest = s@.skip(i as int);
        assert(rest.drop_first() =~= s@.skip(i + 1));
        assert(rest[0] == s@[i as int]);
        if s[i] == sep {
            let ghost before = views(out@);
            let w = cur;
            out.push(w);
            cur = Vec::new();
            assert(views(out@) =~= before + seq![w@]);
            assert(cur@ =~= seq![]);
        } else {
            cur.push(s[i]);
        }
    }
    assert(s@.skip(s.len() as int) =~= seq![]);
    let ghost before = views(out@);
    let ghost w = cur@;
    out.push(cur);
    assert(views(out@) =~= before + seq![w]);
    out
}

/// The non-empty elements of `v`, in order.
pub open spec fn non_empty(v: Seq<Seq<char>>) -> Seq<Seq<char>> {
    v.filter(|x: Seq<char>| x.len() > 0)
}

/// Keeps the non-empty pieces.
pub fn keep_non_empty(v: Vec<Vec<char>>) -> (out: Vec<Vec<char>>)
    ensures
        views(out@) == non_empty(views(v@)),
{
    let mut out: Vec<Vec<char>> = Vec::new();
    let ghost vv = views(v@);
    assert(vv.take(0) =~= seq![]);
    for i in 0..v.len()
        invariant
            vv == views(v@),
            views(out@) == non_empty(vv.take(i as int)),
    {
        assert(vv.take(i + 1).drop_last() =~= vv.take(i as int));
        assert(vv.take(i + 1).last() == v@[i as int]@);
        if v[i].len() > 0 {
            let ghost before = views(out@);
            out.push(v[i].clone());
            assert(views(out@) =~= before.push(v@[i as int]@));
        }
        proof {
            reveal_with_fuel(Seq::<Seq<char>>::filter, 1);
        }
    }
    assert(vv.take(v.len() as int) =~= vv);
    out
}

/// A line without its `\r` ending, if any.
pub open spec fn strip_cr(l: Seq<char>) -> Seq<char> {
    if l.len() > 0 && l.last() == '\r' {
        l.drop_last()
    } else {
        l
    }
}

/// Lines of `s` when `cur` is the unfinished line before it.
pub open spec fn lines_from(s: Seq<char>, cur: Seq<char>) -> Seq<Seq<char>>
    decreases s.len(),
{
    if s.len() == 0 {
        if cur.len() > 0 {
            seq![cur]
        } else {
            seq![]
        }
    } else if s[0] == '\n' {
        seq![strip_cr(cur)] + lines_from(s.drop_first(), seq![])
    } else {
        lines_from(s.drop_first(), cur.push(s[0]))
    }
}

/// `str::lines`: lines ended by `\n` or `\r\n`; the last line needs no ending.
pub open spec fn lines(s: Seq<char>) -> Seq<Seq<char>> {
    lines_from(s, seq![])
}

/// Splits `s` into lines.
pub fn split_lines(s: &[char]) -> (out: Vec<Vec<char>>)
    ensures
        views(out@) == lines(s@),
{
    let mut out: Vec<Vec<char>> = Vec::new();
    let mut cur: Vec<char> = Vec::new();
    assert(s@.skip(0) =~= s@);
    assert(views(out@) =~= seq![]);
    assert(cur@ =~= seq![]);
    for i in 0..s.len()
        invariant
            views(out@) + lines_from(s@.skip(i as int), cur@) == lines(s@),
    {
        let ghost rest = s@.skip(i as int);
        assert(rest.drop_first() =~= s@.skip(i + 1));
        assert(rest[0] == s@[i as int]);
        if s[i] == '\n' {
            let ghost before = views(out@);
            let ghost w = cur@;
            let n = cur.len();
            if n > 0 && cur[n - 1] == '\r' {
                cur.pop();
                assert(cur@ =~= strip_cr(w));
            }
            out.push(cur);
            cur = Vec::new();
            assert(views(out@) =~= before + seq![strip_cr(w)]);
            assert(cur@ =~= seq![]);
        } else {
            cur.push(s[i]);
        }
    }
    assert(s@.skip(s.len() as int) =~= seq![]);
    if cur.len() > 0 {
        let ghost before = views(out@);
        let ghost w = cur@;
        out.push(cur);
        assert(views(out@) =~= before + seq![w]);
    } else {
        assert(views(out@) + lines_from(seq![], cur@) =~= views(out@));
    }
    out
}

/// Number of leading whitespace characters of `s`.
pub open spec fn lead_ws(s: Seq<char>) -> nat
    decreases s.len(),
{
    if s.len() > 0 && is_ws(s[0]) {
        1 + lead_ws(s.drop_first())
    } else {
        0
    }
}

/// Number of trailing whitespace characters of `s`.
pub open spec fn trail_ws(s: Seq<char>) -> nat
    decreases s.len(),
{
    if s.len() > 0 && is_ws(s.last()) {
        1 + trail_ws(s.drop_last())
    } else {
        0
    }
}

/// `str::trim`: `s` without leading and trailing whitespace.
pub open spec fn trimmed(s: Seq<char>) -> Seq<char> {
    let t = s.skip(lead_ws(s) as int);
    t.take(t.len() - trail_ws(t))
}

proof fn lemma_lead_ws_bound(s: Seq<char>)
    ensures
        lead_ws(s) <= s.len(),
    decreases s.len(),
{
    if s.len() > 0 && is_ws(s[0]) {
        lemma_lead_ws_bound(s.drop_first());
    }
}

proof fn lemma_trail_ws_bound(s: Seq<char>)
    ensures
        trail_ws(s) <= s.len(),
    decreases s.len(),
{
    if s.len() > 0 && is_ws(s.last()) {
        lemma_trail_ws_bound(s.drop_last());
    }
}

/// Trims whitespace from both ends of `s`.
pub fn trim(s: &[char]) -> (out: Vec<char>)
    ensures
        out@ == trimmed(s@),
{
    let mut a: usize = 0;
    assert(s@.skip(0) =~= s@);
    while a < s.len() && is_whitespace(s[a])
        invariant
            a <= s@.len(),
            a + lead_ws(s@.skip(a as int)) == lead_ws(s@),
        decreases s@.len() - a,
    {
        assert(s@.skip(a as int).drop_first() =~= s@.skip(a + 1));
        a += 1;
    }
    let ghost t = s@.skip(a as int);
    assert(lead_ws(t) == 0);
    let mut b: usize = s.len();
    assert(t.take(t.len() as int) =~= t);
    while b > a && is_whitespace(s[b - 1])
        invariant
            a <= b <= s@.len(),
            t == s@.skip(a as int),
            trail_ws(t.take(b - a)) + (t.len() - (b - a)) == trail_ws(t),
        decreases b,
    {
        assert(t.take(b - a).drop_last() =~= t.take(b - a - 1));
        assert(t.take(b - a).last() == s@[b - 1]);
        b -= 1;
    }
    proof {
        if b > a {
            assert(t.take(b - a).last() == s@[b - 1]);
        }
        lemma_trail_ws_bound(t);
    }
    let mut out: Vec<char> = Vec::new();
    let mut i = a;
    while i < b
        invariant
            a <= i <= b <= s@.len(),
            out@ == s@.subrange(a as int, i as int),
        decreases b - i,
    {
        out.push(s[i]);
        assert(out@ =~= s@.subrange(a as int, i + 1));
        i += 1;
    }
    assert(out@ =~= t.take(t.len() - trail_ws(t)));
    out
}

/// ASCII lowercase of one character (others unchanged).
pub open spec fn ascii_lower(c: char) -> char {
    if 'A' <= c <= 'Z' {
        ((c as u32) + 32) as char
    } else {
        c
    }
}

/// `char::to_ascii_lowercase`.
pub fn to_ascii_lower(c: char) -> (r: char)
    ensures
        r == ascii_lower(c),
{
    if 'A' <= c && c <= 'Z' {
        (((c as u32) + 32) as u8) as char
    } else {
        c
    }
}

/// `str::eq_ignore_ascii_case`.
pub open spec fn eq_ascii_ci(a: Seq<char>, b: Seq<char>) -> bool {
    a.len() == b.len() && forall|i: int| 0 <= i < a.len() ==> ascii_lower(#[trigger] a[i])
        == ascii_lower(b[i])
}

/// Compares ignoring ASCII case.
pub fn eq_ignore_ascii_case(a: &[char], b: &[char]) -> (r: bool)
    ensures
        r == eq_ascii_ci(a@, b@),
{
    if a.len() != b.len() {
        return false;
    }
    let mut i: usize = 0;
    while i < a.len()
        invariant
            a@.len() == b@.len(),
            i <= a@.len(),
            forall|k: int| 0 <= k < i ==> ascii_lower(#[trigger] a@[k]) == ascii_lower(b@[k]),
        decreases a@.len() - i,
    {
        if to_ascii_lower(a[i]) != to_ascii_lower(b[i]) {
            return false;
        }
        i += 1;
    }
    true
}

/// ASCII lowercase of a sequence.
pub open spec fn ascii_lower_seq(s: Seq<char>) -> Seq<char> {
    s.map_values(|c: char| ascii_lower(c))
}

/// `str::to_ascii_lowercase` on characters.
pub fn to_ascii_lowercase(s: &[char]) -> (r: Vec<char>)
    ensures
        r@ == ascii_lower_seq(s@),
{
    let mut r: Vec<char> = Vec::new();
    for i in 0..s.len()
        invariant
            r@ == ascii_lower_seq(s@.take(i as int)),
    {
        r.push(to_ascii_lower(s[i]));
        assert(r@ =~= ascii_lower_seq(s@.take(i + 1)));
    }
    assert(s@.take(s.len() as int) =~= s@);
    r
}

/// Words joined by single spaces.
pub open spec fn joined(ws: Seq<Seq<char>>) -> Seq<char>
    decreases ws.len(),
{
    if ws.len() == 0 {
        seq![]
    } else if ws.len() == 1 {
        ws[0]
    } else {
        joined(ws.drop_last()) + seq![' '] + ws.last()
    }
}

/// `join(" ")`.
pub fn join_spaced(ws: &Vec<Vec<char>>) -> (r: Vec<char>)
    ensures
        r@ == joined(views(ws@)),
{
    let mut r: Vec<char> = Vec::new();
    let ghost vs = views(ws@);
    assert(vs.take(0) =~= seq![]);
    for i in 0..ws.len()
        invariant
            vs == views(ws@),
            r@ == joined(vs.take(i as int)),
    {
        let ghost before = r@;
        assert(vs.take(i + 1).drop_last() =~= vs.take(i as int));
        assert(vs.take(i + 1).last() == ws@[i as int]@);
        if i > 0 {
            r.push(' ');
        }
        let w = &ws[i];
        for j in 0..w.len()
            invariant
                r@ == (if i > 0 { before + seq![' '] } else { before }) + w@.take(j as int),
        {
            r.push(w[j]);
            assert(r@ =~= (if i > 0 { before + seq![' '] } else { before }) + w@.take(j + 1));
        }
        assert(w@.take(w.len() as int) =~= w@);
        proof {
            if i == 0 {
                assert(vs.take(1) =~= seq![w@]);
                assert(before =~= seq![]);
                assert(r@ =~= w@);
            }
        }
    }
    assert(vs.take(ws.len() as int) =~= vs);
    r
}

/// Character-sequence equality.
pub fn eq_chars(a: &[char], b: &[char]) -> (r: bool)
    ensures
        r == (a@ == b@),
{
    if a.len() != b.len() {
        return false;
    }
    let mut i: usize = 0;
    while i < a.len()
        invariant
            a@.len() == b@.len(),
            i <= a@.len(),
            forall|k: int| 0 <= k < i ==> a@[k] == b@[k],
        decreases a@.len() - i,
    {
        if a[i] != b[i] {
            return false;
        }
        i += 1;
    }
    assert(a@ =~= b@);
    true
}

/// Unicode lowercase mapping of a character sequence (`str::to_lowercase`).
pub uninterp spec fn lowercase(s: Seq<char>) -> Seq<char>;

/// `str::to_lowercase`: the full Unicode lowercase mapping of `s`, which the
/// contract names rather than restates (it is a table of thousands of entries,
/// some of which expand to several characters).
#[verifier::external_body]
pub(crate) fn to_lowercase(s: &str) -> (r: String)
    ensures
        r@ == lowercase(s@),
{
    s.to_lowercase()
}

/// Position of the first `c` in `s` at or after `i`, or -1.
pub open spec fn first_index<T>(s: Seq<T>, c: T, i: int) -> int
    decreases s.len() - i,
{
    if i < 0 || i >= s.len() {
        -1
    } else if s[i] == c {
        i
    } else {
        first_index(s, c, i + 1)
    }
}

/// The first `c` at or after `i` is at `k` (or there is none, `k` being the
/// length) when none lies in between.
pub proof fn lemma_first_index<T>(s: Seq<T>, c: T, i: int, k: int)
    requires
        0 <= i <= k <= s.len(),
        forall|j: int| i <= j < k ==> s[j] != c,
        k == s.len() || s[k] == c,
    ensures
        first_index(s, c, i) == if k == s.len() {
            -1
        } else {
            k
        },
    decreases k - i,
{
    if i < k {
        lemma_first_index(s, c, i + 1, k);
    }
}

/// Where the first `c` at or after `i` can be.
pub proof fn lemma_first_index_range<T>(s: Seq<T>, c: T, i: int)
    requires
        0 <= i,
    ensures
        first_index(s, c, i) == -1 || (i <= first_index(s, c, i) < s.len() && s[first_index(s, c, i)] == c),
    decreases s.len() - i,
{
    if i < s.len() && s[i] != c {
        lemma_first_index_range(s, c, i + 1);
    }
}

/// `ls` as text: each line followed by a newline.
pub open spec fn with_newlines(ls: Seq<Seq<char>>) -> Seq<char>
    decreases ls.len(),
{
    if ls.len() == 0 {
        seq![]
    } else {
        with_newlines(ls.drop_last()) + ls.last() + seq!['\n']
    }
}

/// `x` holds no newline.
pub open spec fn no_newline(x: Seq<char>) -> bool {
    forall|i: int| 0 <= i < x.len() ==> x[i] != '\n'
}

proof fn lemma_lines_from_split(x: Seq<char>, y: Seq<char>, cur: Seq<char>)
    requires
        x.len() > 0,
        x.last() == '\n',
    ensures
        lines_from(x + y, cur) == lines_from(x, cur) + lines_from(y, seq![]),
    decreases x.len(),
{
    assert((x + y).drop_first() =~= x.drop_first() + y);
    if x[0] == '\n' {
        if x.len() == 1 {
            assert(x.drop_first() + y =~= y);
            assert(lines_from(x.drop_first(), seq![]) =~= seq![]);
            assert(lines_from(x, cur) =~= seq![strip_cr(cur)]);
        } else {
            lemma_lines_from_split(x.drop_first(), y, seq![]);
        }
    } else {
        lemma_lines_from_split(x.drop_first(), y, cur.push(x[0]));
    }
}

proof fn lemma_lines_from_line(l: Seq<char>, cur: Seq<char>)
    requires
        no_newline(l),
    ensures
        lines_from(l + seq!['\n'], cur) == seq![strip_cr(cur + l)],
    decreases l.len(),
{
    if l.len() == 0 {
        assert(l + seq!['\n'] =~= seq!['\n']);
        assert(cur + l =~= cur);
        assert(seq!['\n'].drop_first() =~= Seq::<char>::empty());
        assert(lines_from(Seq::<char>::empty(), seq![]) =~= seq![]);
    } else {
        assert(l[0] != '\n');
        assert(no_newline(l.drop_first()));
        assert((l + seq!['\n'])[0] == l[0]);
        assert((l + seq!['\n']).drop_first() =~= l.drop_first() + seq!['\n']);
        lemma_lines_from_line(l.drop_first(), cur.push(l[0]));
        assert(cur.push(l[0]) + l.drop_first() =~= cur + l);
    }
}

/// Reading lines back from text written line by line gives the lines
/// (without a trailing `\r`, as `str::lines` drops it).
pub proof fn lines_of_written_lines(ls: Seq<Seq<char>>)
    requires
        forall|i: int| 0 <= i < ls.len() ==> no_newline(#[trigger] ls[i]),
    ensures
        lines(with_newlines(ls)) == ls.map_values(|l: Seq<char>| strip_cr(l)),
    decreases ls.len(),
{
    if ls.len() == 0 {
        assert(lines(Seq::<char>::empty()) =~= seq![]);
        assert(ls.map_values(|l: Seq<char>| strip_cr(l)) =~= seq![]);
    } else {
        let front = ls.drop_last();
        lines_of_written_lines(front);
        let x = with_newlines(front);
        let l = ls.last();
        lemma_lines_from_line(l, seq![]);
        assert(seq![] + l =~= l);
        assert(with_newlines(ls) =~= x + (l + seq!['\n']));
        if front.len() > 0 {
            assert(x.len() > 0 && x.last() == '\n');
            lemma_lines_from_split(x, l + seq!['\n'], seq![]);
        } else {
            assert(x =~= seq![]);
            assert(x + (l + seq!['\n']) =~= l + seq!['\n']);
        }
        assert(ls.map_values(|l: Seq<char>| strip_cr(l)) =~= front.map_values(
            |l: Seq<char>| strip_cr(l),
        ).push(strip_cr(l)));
    }
}

} // verus!
