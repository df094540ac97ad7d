//! Lexicographic order on character sequences and the stable sort by such keys
//! that puts menu entries in name order.
use vstd::prelude::*;

use crate::text::views;

verus! {

/// `a` sorts before or with `b`: the order of `str`/`String` comparison
/// (UTF-8 bytes order as code points do).
pub open spec fn lex_le(a: Seq<char>, b: Seq<char>) -> bool
    decreases a.len(),
{
    if a.len() == 0 {
        true
    } else if b.len() == 0 {
        false
    } else if a[0] != b[0] {
        a[0] < b[0]
    } else {
        lex_le(a.drop_first(), b.drop_first())
    }
}

/// Every key sorts with itself.
pub proof fn lex_le_reflexive(a: Seq<char>)
    ensures
        lex_le(a, a),
    decreases a.len(),
{
    if a.len() > 0 {
        lex_le_reflexive(a.drop_first());
    }
}

/// Any two keys are ordered one way or the other.
pub proof fn lex_le_total(a: Seq<char>, b: Seq<char>)
    ensures
        lex_le(a, b) || lex_le(b, a),
    decreases a.len(),
{
    if a.len() > 0 && b.len() > 0 && a[0] == b[0] {
        lex_le_total(a.drop_first(), b.drop_first());
    }
}

/// The order is transitive.
pub proof fn lex_le_transitive(a: Seq<char>, b: Seq<char>, c: Seq<char>)
    requires
        lex_le(a, b),
        lex_le(b, c),
    ensures
        lex_le(a, c),
    decreases a.len(),
{
    if a.len() > 0 && b.len() > 0 && c.len() > 0 && a[0] == b[0] && b[0] == c[0] {
        lex_le_transitive(a.drop_first(), b.drop_first(), c.drop_first());
    }
}

/// Keys that sort with each other are equal.
pub proof fn lex_le_antisymmetric(a: Seq<char>, b: Seq<char>)
    requires
        lex_le(a, b),
        lex_le(b, a),
    ensures
        a == b,
    decreases a.len(),
{
    if a.len() > 0 && b.len() > 0 {
        lex_le_antisymmetric(a.drop_first(), b.drop_first());
        assert(a =~= seq![a[0]] + a.drop_first());
        assert(b =~= seq![b[0]] + b.drop_first());
    }
}

/// Key comparison.
pub fn lex_le_chars(a: &[char], b: &[char]) -> (r: bool)
    ensures
        r == lex_le(a@, b@),
{
    let mut i: usize = 0;
    assert(a@.skip(0) =~= a@ && b@.skip(0) =~= b@);
    while i < a.len() && i < b.len() && a[i] == b[i]
        invariant
            i <= a@.len(),
            i <= b@.len(),
            lex_le(a@, b@) == lex_le(a@.skip(i as int), b@.skip(i as int)),
        decreases a@.len() - i,
    {
        assert(a@.skip(i as int).drop_first() =~= a@.skip(i + 1));
        assert(b@.skip(i as int).drop_first() =~= b@.skip(i + 1));
        i += 1;
    }
    if i == a.len() {
        true
    } else if i == b.len() {
        false
    } else {
        a[i] < b[i]
    }
}

/// The keys paired with their positions.
pub open spec fn keyed(keys: Seq<Seq<char>>) -> Seq<(Seq<char>, int)> {
    Seq::new(keys.len(), |i: int| (keys[i], i))
}

/// Where `x` goes in `s`, searching from `i`: past every entry whose key
/// sorts with or before `x`'s, up to the first that sorts after it.
pub open spec fn ins_pos(x: (Seq<char>, int), s: Seq<(Seq<char>, int)>, i: int) -> int
    decreases s.len() - i,
{
    if i < 0 || i >= s.len() || !lex_le(s[i].0, x.0) {
        i
    } else {
        ins_pos(x, s, i + 1)
    }
}

/// `s` with `x` inserted after the entries that sort with or before it.
pub open spec fn ins(x: (Seq<char>, int), s: Seq<(Seq<char>, int)>) -> Seq<(Seq<char>, int)> {
    let p = ins_pos(x, s, 0);
    s.take(p).push(x) + s.skip(p)
}

/// Insertion sort of `s` by key: each entry, in order, goes after those
/// already placed that sort with or before it, so ties keep their order.
pub open spec fn isort(s: Seq<(Seq<char>, int)>) -> Seq<(Seq<char>, int)>
    decreases s.len(),
{
    if s.len() == 0 {
        seq![]
    } else {
        ins(s.last(), isort(s.drop_last()))
    }
}

/// The positions of `keys` in stable sorted order.
pub open spec fn sorted_order(keys: Seq<Seq<char>>) -> Seq<int> {
    isort(keyed(keys)).map_values(|p: (Seq<char>, int)| p.1)
}

proof fn lemma_ins_pos(x: (Seq<char>, int), s: Seq<(Seq<char>, int)>, i: int)
    requires
        0 <= i <= s.len(),
    ensures
        i <= ins_pos(x, s, i) <= s.len(),
        forall|k: int| i <= k < ins_pos(x, s, i) ==> lex_le(#[trigger] s[k].0, x.0),
        ins_pos(x, s, i) == s.len() || !lex_le(s[ins_pos(x, s, i)].0, x.0),
    decreases s.len() - i,
{
    if i < s.len() && lex_le(s[i].0, x.0) {
        lemma_ins_pos(x, s, i + 1);
    }
}

/// What the sorted prefix `t` of `keyed(keys).take(m)` satisfies.
spec fn placed(keys: Seq<Seq<char>>, m: int, t: Seq<(Seq<char>, int)>) -> bool {
    &&& t.len() == m
    &&& forall|k: int| 0 <= k < m ==> 0 <= #[trigger] t[k].1 < m && t[k].0 == keys[t[k].1]
    &&& forall|a: int, b: int| 0 <= a < b < m ==> #[trigger] t[a].1 != #[trigger] t[b].1
    &&& forall|a: int, b: int| 0 <= a < b < m ==> lex_le(#[trigger] t[a].0, #[trigger] t[b].0)
    &&& forall|a: int, b: int|
        0 <= a < b < m && #[trigger] t[a].0 == #[trigger] t[b].0 ==> t[a].1 < t[b].1
}

proof fn lemma_ins_placed(keys: Seq<Seq<char>>, m: int, t: Seq<(Seq<char>, int)>)
    requires
        0 <= m < keys.len(),
        placed(keys, m, t),
    ensures
        placed(keys, m + 1, ins((keys[m], m), t)),
{
    let x = (keys[m], m);
    let p = ins_pos(x, t, 0);
    lemma_ins_pos(x, t, 0);
    let r = ins(x, t);
    assert(r.len() == m + 1);
    assert forall|k: int| 0 <= k < m + 1 implies (k < p ==> #[trigger] r[k] == t[k]) && (k == p
        ==> r[k] == x) && (k > p ==> r[k] == t[k - 1]) by {}
    assert forall|k: int| 0 <= k < m + 1 implies 0 <= #[trigger] r[k].1 < m + 1 && r[k].0
        == keys[r[k].1] by {
        if k < p {
            assert(r[k] == t[k]);
        } else if k > p {
            assert(r[k] == t[k - 1]);
        }
    }
    assert forall|a: int, b: int| 0 <= a < b < m + 1 implies #[trigger] r[a].1 != #[trigger] r[b].1 by {
        if a < p && b > p {
            assert(r[a] == t[a] && r[b] == t[b - 1]);
        } else if a > p {
            assert(r[a] == t[a - 1] && r[b] == t[b - 1]);
        } else if b < p {
            assert(r[a] == t[a] && r[b] == t[b]);
        } else if a == p {
            assert(r[b] == t[b - 1]);
        } else {
            assert(r[a] == t[a]);
        }
    }
    assert forall|a: int, b: int| 0 <= a < b < m + 1 implies lex_le(#[trigger] r[a].0, #[trigger] r[b].0) by {
        if a < p && b > p {
            assert(r[a] == t[a] && r[b] == t[b - 1]);
        } else if a > p {
            assert(r[a] == t[a - 1] && r[b] == t[b - 1]);
        } else if b < p {
            assert(r[a] == t[a] && r[b] == t[b]);
        } else if a == p {
            assert(r[b] == t[b - 1]);
            lex_le_total(t[p].0, x.0);
            if b - 1 > p {
                lex_le_transitive(x.0, t[p].0, t[b - 1].0);
            }
        } else {
            assert(r[a] == t[a]);
        }
    }
    assert forall|a: int, b: int|
        0 <= a < b < m + 1 && #[trigger] r[a].0 == #[trigger] r[b].0 implies r[a].1 < r[b].1 by {
        if a < p && b > p {
            assert(r[a] == t[a] && r[b] == t[b - 1]);
        } else if a > p {
            assert(r[a] == t[a - 1] && r[b] == t[b - 1]);
        } else if b < p {
            assert(r[a] == t[a] && r[b] == t[b]);
        } else if a == p {
            assert(r[b] == t[b - 1]);
            lex_le_reflexive(x.0);
            if b - 1 > p {
                assert(lex_le(t[p].0, t[b - 1].0));
            }
        } else {
            assert(r[a] == t[a]);
        }
    }
}

proof fn lemma_isort_placed(keys: Seq<Seq<char>>, m: int)
    requires
        0 <= m <= keys.len(),
    ensures
        placed(keys, m, isort(keyed(keys).take(m))),
    decreases m,
{
    let s = keyed(keys).take(m);
    if m == 0 {
        assert(isort(s) =~= seq![]);
    } else {
        lemma_isort_placed(keys, m - 1);
        assert(s.drop_last() =~= keyed(keys).take(m - 1));
        assert(s.last() == (keys[m - 1], m - 1));
        lemma_ins_placed(keys, m - 1, isort(keyed(keys).take(m - 1)));
    }
}

/// The sorted order lists every position exactly once.
pub proof fn sorted_order_is_a_permutation(keys: Seq<Seq<char>>)
    ensures
        sorted_order(keys).len() == keys.len(),
        forall|k: int| 0 <= k < keys.len() ==> 0 <= #[trigger] sorted_order(keys)[k] < keys.len(),
        forall|a: int, b: int|
            0 <= a < b < keys.len() ==> #[trigger] sorted_order(keys)[a] != #[trigger] sorted_order(
                keys,
            )[b],
{
    lemma_isort_placed(keys, keys.len() as int);
    assert(keyed(keys).take(keys.len() as int) =~= keyed(keys));
}

/// In the sorted order, keys never decrease.
pub proof fn sorted_order_sorts(keys: Seq<Seq<char>>)
    ensures
        forall|a: int, b: int|
            0 <= a < b < keys.len() ==> lex_le(
                keys[#[trigger] sorted_order(keys)[a]],
                keys[#[trigger] sorted_order(keys)[b]],
            ),
{
    lemma_isort_placed(keys, keys.len() as int);
    assert(keyed(keys).take(keys.len() as int) =~= keyed(keys));
}

/// Equal keys keep their original order (the sort is stable).
pub proof fn sorted_order_is_stable(keys: Seq<Seq<char>>)
    ensures
        forall|a: int, b: int|
            0 <= a < b < keys.len() && keys[#[trigger] sorted_order(keys)[a]]
                == keys[#[trigger] sorted_order(keys)[b]] ==> sorted_order(keys)[a] < sorted_order(
                keys,
            )[b],
{
    lemma_isort_placed(keys, keys.len() as int);
    assert(keyed(keys).take(keys.len() as int) =~= keyed(keys));
}

/// The keyed view of a list of positions.
spec fn placed_view(keys: Seq<Seq<char>>, v: Seq<usize>) -> Seq<(Seq<char>, int)> {
    v.map_values(|i: usize| (keys[i as int], i as int))
}

/// The positions of `keys` in stable sorted order: by key, ties in their
/// original order.
pub fn sort_order(keys: &Vec<Vec<char>>) -> (ord: Vec<usize>)
    ensures
        ord@.len() == keys@.len(),
        forall|k: int| 0 <= k < ord@.len() ==> #[trigger] ord@[k] as int == sorted_order(views(keys@))[k],
{
    let ghost ks = views(keys@);
    let mut ord: Vec<usize> = Vec::new();
    let mut m: usize = 0;
    assert(placed_view(ks, ord@) =~= isort(keyed(ks).take(0)));
    while m < keys.len()
        invariant
            ks == views(keys@),
            m <= keys@.len(),
            placed_view(ks, ord@) == isort(keyed(ks).take(m as int)),
            forall|k: int| 0 <= k < ord@.len() ==> #[trigger] ord@[k] < m,
        decreases keys@.len() - m,
    {
        let ghost t = isort(keyed(ks).take(m as int));
        let ghost x = (ks[m as int], m as int);
        proof {
            lemma_isort_placed(ks, m as int);
        }
        let mut pos: usize = 0;
        while pos < ord.len() && lex_le_chars(keys[ord[pos]].as_slice(), keys[m].as_slice())
            invariant
                ks == views(keys@),
                m < keys@.len(),
                t == placed_view(ks, ord@),
                x == (ks[m as int], m as int),
                t.len() == ord@.len(),
                forall|k: int| 0 <= k < ord@.len() ==> #[trigger] ord@[k] < m,
                pos <= ord@.len(),
                ins_pos(x, t, 0) == ins_pos(x, t, pos as int),
            decreases ord@.len() - pos,
        {
            assert(t[pos as int].0 == keys@[ord@[pos as int] as int]@);
            assert(x.0 == keys@[m as int]@);
            pos += 1;
        }
        proof {
            assert(x.0 == keys@[m as int]@);
            if pos < ord@.len() {
                assert(t[pos as int].0 == keys@[ord@[pos as int] as int]@);
            }
            assert(ins_pos(x, t, pos as int) == pos);
        }
        let ghost before = ord@;
        ord.insert(pos, m);
        proof {
            let s = keyed(ks).take(m + 1);
            assert(s.drop_last() =~= keyed(ks).take(m as int));
            assert(s.last() == x);
            assert(placed_view(ks, ord@) =~= t.take(pos as int).push(x) + t.skip(pos as int));
            assert forall|k: int| 0 <= k < ord@.len() implies #[trigger] ord@[k] < m + 1 by {
                if k < pos {
                    assert(ord@[k] == before[k]);
                } else if k > pos {
                    assert(ord@[k] == before[k - 1]);
                }
            }
        }
        m += 1;
    }
    proof {
        assert(keyed(ks).take(m as int) =~= keyed(ks));
        lemma_isort_placed(ks, m as int);
        assert forall|k: int| 0 <= k < ord@.len() implies #[trigger] ord@[k] as int == sorted_order(
            ks,
        )[k] by {
            assert(placed_view(ks, ord@)[k].1 == ord@[k] as int);
        }
    }
    ord
}

} // verus!
