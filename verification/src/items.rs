//! dmenu/wmenu-style items: stdin text lines and token substring filtering.
use vstd::prelude::*;

use crate::text::{
    chars_of, contains_seq, has_prefix, is_substring, lowercase, split_whitespace, starts_with_seq,
    to_lowercase, views, words, words_from, lemma_words_append,
};

verus! {

/// One menu entry.
#[derive(Debug, Clone)]
pub struct Item {
    /// Display text.
    pub text: String,
    /// Value printed to stdout when selected.
    pub value: String,
    /// Lowercased copy of `text`, precomputed so `-i` filtering never
    /// lowercases per item per token on every keystroke.
    pub lc: String,
    /// Extra match text that is never displayed (`.desktop` `Keywords=`).
    pub extra: String,
}

/// The item for one input line: shown and printed verbatim.
pub fn parse(line: &str) -> (it: Item)
    ensures
        it.text@ == line@,
        it.value@ == line@,
        it.lc@ == lowercase(line@),
        it.extra@ == Seq::<char>::empty(),
{
    Item {
        lc: to_lowercase(line),
        text: String::from_str(line),
        value: String::from_str(line),
        extra: String::new(),
    }
}

/// A menu item as (text, value, lc, extra).
pub open spec fn item_view(it: Item) -> (Seq<char>, Seq<char>, Seq<char>, Seq<char>) {
    (it.text@, it.value@, it.lc@, it.extra@)
}

/// The text an item is matched against: its lowercase copy under `-i`.
pub open spec fn hay(it: Item, ci: bool) -> Seq<char> {
    if ci {
        it.lc@
    } else {
        it.text@
    }
}

/// The query as matched: lowercased under `-i`.
pub open spec fn needle(query: Seq<char>, ci: bool) -> Seq<char> {
    if ci {
        lowercase(query)
    } else {
        query
    }
}

/// Every query token occurs in the item's text (or in its keywords).
pub open spec fn item_matches(it: Item, toks: Seq<Seq<char>>, ci: bool) -> bool {
    forall|j: int|
        0 <= j < toks.len() ==> is_substring(#[trigger] toks[j], hay(it, ci)) || is_substring(
            toks[j],
            it.extra@,
        )
}

/// Ranking bucket: 0 = the text starts with the whole query, 1 = it starts
/// with the first token, 2 = any other match.
pub open spec fn rank(it: Item, q: Seq<char>, toks: Seq<Seq<char>>, ci: bool) -> int {
    if toks.len() == 0 || has_prefix(hay(it, ci), q) {
        0
    } else if has_prefix(hay(it, ci), toks[0]) {
        1
    } else {
        2
    }
}

/// Whether item `it` lands in bucket `b` for the matched query `q`.
pub open spec fn in_bucket(it: Item, q: Seq<char>, ci: bool, b: int) -> bool {
    item_matches(it, words(q), ci) && rank(it, q, words(q), ci) == b
}

/// Indices `< n` of the items in bucket `b`, in their original order.
pub open spec fn bucket(items: Seq<Item>, q: Seq<char>, ci: bool, b: int, n: nat) -> Seq<usize>
    decreases n,
{
    if n == 0 {
        seq![]
    } else {
        let prev = bucket(items, q, ci, b, (n - 1) as nat);
        if in_bucket(items[n - 1], q, ci, b) {
            prev.push((n - 1) as usize)
        } else {
            prev
        }
    }
}

/// What `filter` returns: all indices in order for an empty query, else the
/// matching indices ranked exact > prefix > substring, stable in each bucket.
pub open spec fn filter_spec(items: Seq<Item>, query: Seq<char>, ci: bool) -> Seq<usize> {
    if query.len() == 0 {
        Seq::new(items.len(), |i: int| i as usize)
    } else {
        let q = needle(query, ci);
        bucket(items, q, ci, 0, items.len()) + bucket(items, q, ci, 1, items.len()) + bucket(
            items,
            q,
            ci,
            2,
            items.len(),
        )
    }
}

/// Whether every token occurs in `hay` or in `extra`.
fn all_tokens_in(toks: &Vec<Vec<char>>, hay: &[char], extra: &[char]) -> (b: bool)
    ensures
        b == forall|j: int|
            0 <= j < toks@.len() ==> is_substring(#[trigger] views(toks@)[j], hay@)
                || is_substring(views(toks@)[j], extra@),
{
    let mut j: usize = 0;
    while j < toks.len()
        invariant
            j <= toks@.len(),
            forall|t: int|
                0 <= t < j ==> is_substring(#[trigger] views(toks@)[t], hay@) || is_substring(
                    views(toks@)[t],
                    extra@,
                ),
        decreases toks@.len() - j,
    {
        let tok = toks[j].as_slice();
        assert(tok@ == views(toks@)[j as int]);
        if !contains_seq(hay, tok) && !contains_seq(extra, tok) {
            return false;
        }
        j += 1;
    }
    true
}

/// The indices `0..n`, in order.
fn all_indices(n: usize) -> (v: Vec<usize>)
    ensures
        v@ == Seq::new(n as nat, |i: int| i as usize),
{
    let mut v: Vec<usize> = Vec::new();
    for i in 0..n
        invariant
            v@ == Seq::new(i as nat, |k: int| k as usize),
    {
        v.push(i);
        assert(v@ =~= Seq::new((i + 1) as nat, |k: int| k as usize));
    }
    v
}

/// wmenu-style matching: every whitespace-separated query token must be a substring
/// of the item text; ranking is exact > prefix > substring, stable within each bucket.
/// Returns indices into `items`. An empty query matches everything, in order.
pub fn filter(items: &[Item], query: &str, ci: bool) -> (out: Vec<usize>)
    ensures
        out@ == filter_spec(items@, query@, ci),
{
    if query.is_empty() {
        return all_indices(items.len());
    }
    let q_string = if ci {
        to_lowercase(query)
    } else {
        String::from_str(query)
    };
    let q = chars_of(q_string.as_str());
    let toks = split_whitespace(q.as_slice());
    let ghost qs = needle(query@, ci);
    assert(q@ == qs);
    let mut exact: Vec<usize> = Vec::new();
    let mut prefix: Vec<usize> = Vec::new();
    let mut sub: Vec<usize> = Vec::new();
    for i in 0..items.len()
        invariant
            q@ == qs,
            views(toks@) == words(qs),
            exact@ == bucket(items@, qs, ci, 0, i as nat),
            prefix@ == bucket(items@, qs, ci, 1, i as nat),
            sub@ == bucket(items@, qs, ci, 2, i as nat),
    {
        let it = &items[i];
        let hay_str = if ci {
            it.lc.as_str()
        } else {
            it.text.as_str()
        };
        let hc = chars_of(hay_str);
        let extra = chars_of(it.extra.as_str());
        assert(hc@ == hay(items@[i as int], ci));
        let ok = all_tokens_in(&toks, hc.as_slice(), extra.as_slice());
        assert(ok == item_matches(items@[i as int], words(qs), ci));
        if ok {
            if toks.len() == 0 || starts_with_seq(hc.as_slice(), q.as_slice()) {
                exact.push(i);
            } else if starts_with_seq(hc.as_slice(), toks[0].as_slice()) {
                prefix.push(i);
            } else {
                sub.push(i);
            }
        }
    }
    let mut out = exact;
    out.append(&mut prefix);
    out.append(&mut sub);
    out
}


/// Facts about one ranking bucket: it lists exactly the indices below `n`
/// that fall in it, each once, in increasing order.
proof fn lemma_bucket(items: Seq<Item>, q: Seq<char>, ci: bool, b: int, n: nat)
    requires
        n <= items.len(),
        n <= usize::MAX,
    ensures
        forall|k: int|
            0 <= k < bucket(items, q, ci, b, n).len() ==> {
                let i = #[trigger] bucket(items, q, ci, b, n)[k];
                &&& i < n
                &&& in_bucket(items[i as int], q, ci, b)
            },
        forall|k1: int, k2: int|
            0 <= k1 < k2 < bucket(items, q, ci, b, n).len() ==> #[trigger] bucket(
                items,
                q,
                ci,
                b,
                n,
            )[k1] < #[trigger] bucket(items, q, ci, b, n)[k2],
        forall|i: int|
            0 <= i < n && in_bucket(items[i], q, ci, b) ==> #[trigger] bucket(
                items,
                q,
                ci,
                b,
                n,
            ).contains(i as usize),
    decreases n,
{
    if n > 0 {
        lemma_bucket(items, q, ci, b, (n - 1) as nat);
        let prev = bucket(items, q, ci, b, (n - 1) as nat);
        if in_bucket(items[n - 1], q, ci, b) {
            let cur = prev.push((n - 1) as usize);
            assert(bucket(items, q, ci, b, n) == cur);
            assert forall|k: int| 0 <= k < cur.len() implies #[trigger] cur[k] < n && in_bucket(
                items[cur[k] as int],
                q,
                ci,
                b,
            ) by {
                if k < prev.len() {
                    assert(cur[k] == prev[k]);
                }
            }
            assert forall|k1: int, k2: int|
                0 <= k1 < k2 < cur.len() implies #[trigger] cur[k1] < #[trigger] cur[k2] by {
                assert(cur[k1] == prev[k1]);
                if k2 < prev.len() {
                    assert(cur[k2] == prev[k2]);
                }
            }
            assert forall|i: int| 0 <= i < n && in_bucket(items[i], q, ci, b) implies #[trigger] cur.contains(
                i as usize,
            ) by {
                if i == n - 1 {
                    assert(cur[prev.len() as int] == i as usize);
                } else {
                    assert(prev.contains(i as usize));
                    let k = choose|k: int| 0 <= k < prev.len() && prev[k] == i as usize;
                    assert(cur[k] == i as usize);
                }
            }
        } else {
            assert(bucket(items, q, ci, b, n) == prev);
            assert forall|i: int| 0 <= i < n && in_bucket(items[i], q, ci, b) implies #[trigger] prev.contains(
                i as usize,
            ) by {
                assert(i < n - 1);
            }
        }
    }
}

/// Law: the result of `filter` lists exactly the items that match the query
/// (every item, for an empty query), and each of them once.
pub proof fn filter_selects_exactly_the_matches(items: Seq<Item>, query: Seq<char>, ci: bool)
    requires
        items.len() <= usize::MAX,
    ensures
        forall|i: int|
            0 <= i < items.len() ==> (#[trigger] filter_spec(items, query, ci).contains(i as usize) <==> (
            query.len() == 0 || item_matches(items[i], words(needle(query, ci)), ci))),
        forall|k: int|
            0 <= k < filter_spec(items, query, ci).len() ==> #[trigger] filter_spec(
                items,
                query,
                ci,
            )[k] < items.len(),
        forall|k1: int, k2: int|
            0 <= k1 < k2 < filter_spec(items, query, ci).len() ==> #[trigger] filter_spec(
                items,
                query,
                ci,
            )[k1] != #[trigger] filter_spec(items, query, ci)[k2],
{
    let out = filter_spec(items, query, ci);
    if query.len() == 0 {
        assert forall|i: int| 0 <= i < items.len() implies #[trigger] out.contains(i as usize) by {
            assert(out[i] == i as usize);
        }
        assert forall|k1: int, k2: int|
            0 <= k1 < k2 < out.len() implies #[trigger] out[k1] != #[trigger] out[k2] by {
            assert(out[k1] == k1 as usize && out[k2] == k2 as usize);
        }
    } else {
        let q = needle(query, ci);
        let n = items.len();
        lemma_bucket(items, q, ci, 0, n);
        lemma_bucket(items, q, ci, 1, n);
        lemma_bucket(items, q, ci, 2, n);
        let b0 = bucket(items, q, ci, 0, n);
        let b1 = bucket(items, q, ci, 1, n);
        let b2 = bucket(items, q, ci, 2, n);
        assert(out == b0 + b1 + b2);
        assert forall|k: int| 0 <= k < out.len() implies in_bucket(
            items[#[trigger] out[k] as int],
            q,
            ci,
            if k < b0.len() {
                0
            } else if k < b0.len() + b1.len() {
                1
            } else {
                2
            },
        ) && out[k] < n by {
            if k < b0.len() {
                assert(out[k] == b0[k]);
            } else if k < b0.len() + b1.len() {
                assert(out[k] == b1[k - b0.len()]);
            } else {
                assert(out[k] == b2[k - b0.len() - b1.len()]);
            }
        }
        assert forall|i: int|
            0 <= i < items.len() implies (#[trigger] out.contains(i as usize) <==> item_matches(
                items[i],
                words(q),
                ci,
            )) by {
            if item_matches(items[i], words(q), ci) {
                let r = rank(items[i], q, words(q), ci);
                if r == 0 {
                    assert(b0.contains(i as usize));
                    let k = choose|k: int| 0 <= k < b0.len() && b0[k] == i as usize;
                    assert(out[k] == i as usize);
                } else if r == 1 {
                    assert(b1.contains(i as usize));
                    let k = choose|k: int| 0 <= k < b1.len() && b1[k] == i as usize;
                    assert(out[b0.len() + k] == i as usize);
                } else {
                    assert(b2.contains(i as usize));
                    let k = choose|k: int| 0 <= k < b2.len() && b2[k] == i as usize;
                    assert(out[b0.len() + b1.len() + k] == i as usize);
                }
            }
            if out.contains(i as usize) {
                let k = choose|k: int| 0 <= k < out.len() && out[k] == i as usize;
            }
        }
        assert forall|k1: int, k2: int|
            0 <= k1 < k2 < out.len() implies #[trigger] out[k1] != #[trigger] out[k2] by {
            if k2 < b0.len() {
                assert(out[k1] == b0[k1] && out[k2] == b0[k2]);
            } else if k1 >= b0.len() && k2 < b0.len() + b1.len() {
                assert(out[k1] == b1[k1 - b0.len()] && out[k2] == b1[k2 - b0.len()]);
            } else if k1 >= b0.len() + b1.len() {
                assert(out[k1] == b2[k1 - b0.len() - b1.len()]);
                assert(out[k2] == b2[k2 - b0.len() - b1.len()]);
            }
        }
    }
}

/// Law: ranking is exact > prefix > substring, and items keep their original
/// order inside each rank (the sort is stable).
pub proof fn filter_ranks_exact_then_prefix_then_substring(
    items: Seq<Item>,
    query: Seq<char>,
    ci: bool,
    k1: int,
    k2: int,
)
    requires
        items.len() <= usize::MAX,
        query.len() > 0,
        0 <= k1 < k2 < filter_spec(items, query, ci).len(),
    ensures
        ({
            let q = needle(query, ci);
            let out = filter_spec(items, query, ci);
            let r1 = rank(items[out[k1] as int], q, words(q), ci);
            let r2 = rank(items[out[k2] as int], q, words(q), ci);
            r1 < r2 || (r1 == r2 && out[k1] < out[k2])
        }),
{
    let q = needle(query, ci);
    let n = items.len();
    lemma_bucket(items, q, ci, 0, n);
    lemma_bucket(items, q, ci, 1, n);
    lemma_bucket(items, q, ci, 2, n);
    let b0 = bucket(items, q, ci, 0, n);
    let b1 = bucket(items, q, ci, 1, n);
    let b2 = bucket(items, q, ci, 2, n);
    let out = filter_spec(items, query, ci);
    assert(out == b0 + b1 + b2);
    if k1 < b0.len() {
        assert(out[k1] == b0[k1]);
    } else if k1 < b0.len() + b1.len() {
        assert(out[k1] == b1[k1 - b0.len()]);
    } else {
        assert(out[k1] == b2[k1 - b0.len() - b1.len()]);
    }
    if k2 < b0.len() {
        assert(out[k2] == b0[k2]);
    } else if k2 < b0.len() + b1.len() {
        assert(out[k2] == b1[k2 - b0.len()]);
    } else {
        assert(out[k2] == b2[k2 - b0.len() - b1.len()]);
    }
}


/// Law: adding a token to the query only narrows the matches: every item
/// `query + " " + t` keeps was kept by `query` (case-sensitive matching;
/// under `-i` the query goes through the Unicode lowercase mapping, of
/// which nothing is stated).
pub proof fn adding_a_token_narrows_the_matches(items: Seq<Item>, query: Seq<char>, t: Seq<char>)
    requires
        items.len() <= usize::MAX,
    ensures
        forall|k: int|
            0 <= k < filter_spec(items, query + seq![' '] + t, false).len() ==> filter_spec(
                items,
                query,
                false,
            ).contains(#[trigger] filter_spec(items, query + seq![' '] + t, false)[k]),
{
    let longer = query + seq![' '] + t;
    filter_selects_exactly_the_matches(items, query, false);
    filter_selects_exactly_the_matches(items, longer, false);
    let b = seq![' '] + t;
    assert(longer =~= query + b);
    assert(b[0] == ' ');
    lemma_words_append(query, seq![], b);
    let w = words(query);
    let wl = words(longer);
    assert(wl == w + words_from(b, seq![]));
    assert forall|k: int| 0 <= k < filter_spec(items, longer, false).len() implies filter_spec(
        items,
        query,
        false,
    ).contains(#[trigger] filter_spec(items, longer, false)[k]) by {
        let i = filter_spec(items, longer, false)[k];
        assert(i < items.len());
        let ii: int = i as int;
        assert(filter_spec(items, longer, false)[k] == ii as usize);
        assert(filter_spec(items, longer, false).contains(ii as usize));
        assert(needle(longer, false) == longer);
        assert(needle(query, false) == query);
        if query.len() > 0 {
            assert(longer.len() > 0);
            let it = items[ii];
            assert(item_matches(it, wl, false));
            assert forall|j: int| 0 <= j < w.len() implies is_substring(#[trigger] w[j], hay(it, false))
                || is_substring(w[j], it.extra@) by {
                assert(wl[j] == w[j]);
            }
            assert(item_matches(it, w, false));
        }
        assert(filter_spec(items, query, false).contains((i as int) as usize));
    }
}

} // verus!
