//! `.desktop` entries and `$PATH` commands for `--run` (program launcher) mode.
use vstd::prelude::*;

use crate::items::{item_view, Item};
use crate::order::{
    lex_le, sort_order, sorted_order, sorted_order_is_a_permutation, sorted_order_sorts,
};
use crate::text::{
    chars_of, eq_ascii_ci, eq_chars, first_index, starts_with_seq, eq_ignore_ascii_case, has_prefix, joined, join_spaced, keep_non_empty,
    lines, lowercase, non_empty, pieces, split_lines, split_on, split_whitespace, string_of,
    to_lowercase, trim, trimmed, views, words, is_ws, lead_ws, trail_ws, lemma_first_index,
};

verus! {

/// One launchable desktop application.
pub struct App {
    pub name: String,
    /// The `Exec=` command line, field codes expanded.
    pub command: String,
    /// `.desktop` `Keywords=`, matched but never displayed.
    pub keywords: String,
}

/// `PathBuf::join` with a relative name: a separator is added unless the
/// directory is empty or already ends in one.
pub open spec fn path_join(dir: Seq<char>, name: Seq<char>) -> Seq<char> {
    if dir.len() == 0 {
        name
    } else if dir.last() == '/' {
        dir + name
    } else {
        dir + seq!['/'] + name
    }
}

/// Joins `name` onto `dir`.
pub fn join_path(dir: &[char], name: &[char]) -> (r: Vec<char>)
    ensures
        r@ == path_join(dir@, name@),
{
    let mut r: Vec<char> = Vec::new();
    for i in 0..dir.len()
        invariant
            r@ == dir@.take(i as int),
    {
        r.push(dir[i]);
        assert(r@ =~= dir@.take(i + 1));
    }
    assert(dir@.take(dir.len() as int) =~= dir@);
    if dir.len() > 0 && dir[dir.len() - 1] != '/' {
        r.push('/');
    }
    let ghost base = r@;
    for i in 0..name.len()
        invariant
            r@ == base + name@.take(i as int),
    {
        r.push(name[i]);
        assert(r@ =~= base + name@.take(i + 1));
    }
    assert(name@.take(name.len() as int) =~= name@);
    r
}

/// The character sequences of a list of strings.
pub open spec fn string_views(v: Seq<String>) -> Seq<Seq<char>> {
    v.map_values(|s: String| s@)
}

/// Strings from character vectors.
pub(crate) fn to_strings(v: &Vec<Vec<char>>) -> (r: Vec<String>)
    ensures
        string_views(r@) == views(v@),
{
    let mut r: Vec<String> = Vec::new();
    for i in 0..v.len()
        invariant
            string_views(r@) == views(v@).take(i as int),
    {
        let ghost before = string_views(r@);
        let x = string_of(v[i].as_slice());
        r.push(x);
        assert(string_views(r@) =~= before.push(x@));
        assert(views(v@)[i as int] == v@[i as int]@);
        assert(views(v@).take(i + 1) =~= views(v@).take(i as int).push(v@[i as int]@));
    }
    assert(views(v@).take(v.len() as int) =~= views(v@));
    r
}

/// Application directories per the freedesktop spec, lowest to highest
/// priority, from `$XDG_DATA_HOME`, `$HOME` and `$XDG_DATA_DIRS`.
pub open spec fn app_dirs_spec(
    data_home: Option<Seq<char>>,
    home: Option<Seq<char>>,
    data_dirs: Option<Seq<char>>,
) -> Seq<Seq<char>> {
    let user = match data_home {
        Some(h) => seq![path_join(h, "applications"@)],
        None => match home {
            Some(h) => seq![path_join(h, ".local/share/applications"@)],
            None => seq![],
        },
    };
    let shared = match data_dirs {
        Some(d) => non_empty(pieces(d, ':')).map_values(|p: Seq<char>| path_join(p, "applications"@)),
        None => seq![],
    };
    user + shared + seq!["/usr/local/share/applications"@, "/usr/share/applications"@]
}

/// The view of an optional string.
pub open spec fn opt_view(o: Option<String>) -> Option<Seq<char>> {
    match o {
        Some(s) => Some(s@),
        None => None,
    }
}

/// All application directories, lowest to highest priority, given the
/// values of `$XDG_DATA_HOME`, `$HOME` and `$XDG_DATA_DIRS` (`None` when unset).
pub fn app_dirs_from(
    data_home: Option<String>,
    home: Option<String>,
    data_dirs: Option<String>,
) -> (v: Vec<String>)
    ensures
        string_views(v@) == app_dirs_spec(opt_view(data_home), opt_view(home), opt_view(data_dirs)),
{
    let mut v: Vec<String> = Vec::new();
    let apps = chars_of("applications");
    match &data_home {
        Some(h) => {
            let p = join_path(chars_of(h.as_str()).as_slice(), apps.as_slice());
            v.push(string_of(p.as_slice()));
        },
        None => match &home {
            Some(h) => {
                let local = chars_of(".local/share/applications");
                let p = join_path(chars_of(h.as_str()).as_slice(), local.as_slice());
                v.push(string_of(p.as_slice()));
            },
            None => {},
        },
    }
    let ghost user = string_views(v@);
    let ghost shared: Seq<Seq<char>> = match opt_view(data_dirs) {
        Some(d) => non_empty(pieces(d, ':')).map_values(|p: Seq<char>| path_join(p, "applications"@)),
        None => seq![],
    };
    if let Some(d) = &data_dirs {
        let parts = keep_non_empty(split_on(chars_of(d.as_str()).as_slice(), ':'));
        for i in 0..parts.len()
            invariant
                views(parts@) == non_empty(pieces(d@, ':')),
                apps@ == "applications"@,
                shared == views(parts@).map_values(|p: Seq<char>| path_join(p, "applications"@)),
                string_views(v@) == user + shared.take(i as int),
        {
            let p = join_path(parts[i].as_slice(), apps.as_slice());
            let ghost before = string_views(v@);
            let x = string_of(p.as_slice());
            v.push(x);
            assert(string_views(v@) =~= before.push(x@));
            assert(views(parts@)[i as int] == parts@[i as int]@);
            assert(shared[i as int] == path_join(parts@[i as int]@, "applications"@));
            assert(shared.take(i + 1) =~= shared.take(i as int).push(shared[i as int]));
            assert(string_views(v@) =~= user + shared.take(i + 1));
        }
        assert(shared.take(parts.len() as int) =~= shared);
    } else {
        assert(string_views(v@) =~= user + shared);
    }
    let ghost mid = string_views(v@);
    v.push(String::from_str("/usr/local/share/applications"));
    v.push(String::from_str("/usr/share/applications"));
    assert(string_views(v@) =~= mid + seq!["/usr/local/share/applications"@, "/usr/share/applications"@]);
    v
}

/// A `.desktop` file name: `Path::extension` is `desktop` (so the name is
/// more than the bare extension).
pub open spec fn is_desktop_name(n: Seq<char>) -> bool {
    crate::text::has_suffix(n, ".desktop"@) && n.len() > 8
}

/// Whether `name` is a `.desktop` file name.
pub fn is_desktop_file(name: &str) -> (b: bool)
    ensures
        b == is_desktop_name(name@),
{
    proof {
        reveal_strlit(".desktop");
    }
    let n = chars_of(name);
    let ext = chars_of(".desktop");
    n.len() > 8 && crate::text::ends_with_seq(n.as_slice(), ext.as_slice())
}

/// Entry `i` of a directory listing is read: a `.desktop` file whose name no
/// earlier entry had (the first, highest-priority directory wins).
pub open spec fn first_of_name(names: Seq<Seq<char>>, i: int) -> bool {
    is_desktop_name(names[i]) && forall|j: int| 0 <= j < i ==> names[j] != names[i]
}

/// Positions `< n` of the entries read, in order.
pub open spec fn chosen(names: Seq<Seq<char>>, n: nat) -> Seq<usize>
    decreases n,
{
    if n == 0 {
        seq![]
    } else if first_of_name(names, n - 1) {
        chosen(names, (n - 1) as nat).push((n - 1) as usize)
    } else {
        chosen(names, (n - 1) as nat)
    }
}

/// Which entries of the concatenated directory listings (file names, in scan
/// order) are `.desktop` files to read: deduped by file name, first wins.
pub fn desktop_files(names: &Vec<String>) -> (r: Vec<usize>)
    ensures
        r@ == chosen(string_views(names@), names@.len()),
{
    let ghost ns = string_views(names@);
    let mut r: Vec<usize> = Vec::new();
    for i in 0..names.len()
        invariant
            ns == string_views(names@),
            r@ == chosen(ns, i as nat),
    {
        let n = chars_of(names[i].as_str());
        let mut fresh = is_desktop_file(names[i].as_str());
        let mut j: usize = 0;
        while fresh && j < i
            invariant
                ns == string_views(names@),
                j <= i < names@.len(),
                n@ == ns[i as int],
                fresh ==> is_desktop_name(ns[i as int]) && forall|k: int| 0 <= k < j ==> ns[k]
                    != ns[i as int],
                !fresh ==> !first_of_name(ns, i as int),
            decreases i - j,
        {
            let m = chars_of(names[j].as_str());
            if crate::text::eq_chars(m.as_slice(), n.as_slice()) {
                assert(ns[j as int] == m@);
                fresh = false;
            }
            j += 1;
        }
        if fresh {
            r.push(i);
        }
    }
    r
}


/// A locale tag the menu can use (`C`/`POSIX` mean "no locale").
pub open spec fn usable_tag(t: Seq<char>) -> bool {
    t.len() > 0 && t != "C"@ && t != "POSIX"@
}

/// The user's locale tags, most specific first, from the locale value
/// (`zh_CN.UTF-8` gives `zh_CN`, `zh`).
pub open spec fn locale_tags_spec(raw: Seq<char>) -> Seq<Seq<char>> {
    let base = pieces(raw, '.')[0];
    let lang = pieces(base, '_')[0];
    seq![base, lang].filter(|t: Seq<char>| usable_tag(t))
}

proof fn lemma_pieces_nonempty(s: Seq<char>, sep: char, cur: Seq<char>)
    ensures
        crate::text::pieces_from(s, sep, cur).len() > 0,
    decreases s.len(),
{
    if s.len() > 0 {
        if s[0] == sep {
            lemma_pieces_nonempty(s.drop_first(), sep, seq![]);
        } else {
            lemma_pieces_nonempty(s.drop_first(), sep, cur.push(s[0]));
        }
    }
}

/// Whether `t` is a usable locale tag.
fn is_usable_tag(t: &Vec<char>) -> (b: bool)
    ensures
        b == usable_tag(t@),
{
    let c = chars_of("C");
    let posix = chars_of("POSIX");
    t.len() > 0 && !crate::text::eq_chars(t.as_slice(), c.as_slice())
        && !crate::text::eq_chars(t.as_slice(), posix.as_slice())
}

/// The locale tags for the value of `$LC_ALL`, `$LC_MESSAGES` or `$LANG`
/// (the first one set), most specific first.
pub fn locale_tags_from(raw: &str) -> (tags: Vec<String>)
    ensures
        string_views(tags@) == locale_tags_spec(raw@),
{
    let r = chars_of(raw);
    let dot = split_on(r.as_slice(), '.');
    proof {
        lemma_pieces_nonempty(raw@, '.', seq![]);
    }
    assert(dot@[0]@ == views(dot@)[0]);
    let base = dot[0].clone();
    let under = split_on(base.as_slice(), '_');
    proof {
        lemma_pieces_nonempty(base@, '_', seq![]);
    }
    assert(under@[0]@ == views(under@)[0]);
    let lang = under[0].clone();
    let mut tags: Vec<String> = Vec::new();
    let ghost both = seq![base@, lang@];
    proof {
        reveal_with_fuel(Seq::<Seq<char>>::filter, 3);
        assert(both.take(1).drop_last() =~= Seq::<Seq<char>>::empty());
        assert(both.drop_last() =~= seq![base@]);
    }
    if is_usable_tag(&base) {
        tags.push(string_of(base.as_slice()));
    }
    if is_usable_tag(&lang) {
        tags.push(string_of(lang.as_slice()));
    }
    proof {
        let f = both.filter(|t: Seq<char>| usable_tag(t));
        assert(seq![base@].filter(|t: Seq<char>| usable_tag(t)) =~= if usable_tag(base@) {
            seq![base@]
        } else {
            seq![]
        });
        assert(string_views(tags@) =~= f);
    }
    tags
}

/// Position of the first localized name whose tag is `tag` (ignoring ASCII
/// case) at or after `j`, or -1.
pub open spec fn find_tag(loc: Seq<(Seq<char>, Seq<char>)>, tag: Seq<char>, j: int) -> int
    decreases loc.len() - j,
{
    if j < 0 || j >= loc.len() {
        -1
    } else if eq_ascii_ci(loc[j].0, tag) {
        j
    } else {
        find_tag(loc, tag, j + 1)
    }
}

/// The localized `Name[tag]` for the first tag that has one, else `plain`.
pub open spec fn pick_name_spec(
    tags: Seq<Seq<char>>,
    loc: Seq<(Seq<char>, Seq<char>)>,
    plain: Option<Seq<char>>,
) -> Option<Seq<char>>
    decreases tags.len(),
{
    if tags.len() == 0 {
        plain
    } else {
        let k = find_tag(loc, tags[0], 0);
        if k >= 0 {
            Some(loc[k].1)
        } else {
            pick_name_spec(tags.drop_first(), loc, plain)
        }
    }
}

/// The views of a list of string pairs.
pub open spec fn pair_views(v: Seq<(String, String)>) -> Seq<(Seq<char>, Seq<char>)> {
    v.map_values(|p: (String, String)| (p.0@, p.1@))
}

/// Pick the localized `Name[locale]` for the user's locale, else the plain name.
pub fn pick_name(
    tags: &Vec<String>,
    localized: &Vec<(String, String)>,
    plain: Option<String>,
) -> (r: Option<String>)
    ensures
        opt_view(r) == pick_name_spec(string_views(tags@), pair_views(localized@), opt_view(plain)),
{
    let ghost ts = string_views(tags@);
    let ghost loc = pair_views(localized@);
    let mut t: usize = 0;
    assert(ts.skip(0) =~= ts);
    while t < tags.len()
        invariant
            ts == string_views(tags@),
            loc == pair_views(localized@),
            t <= tags@.len(),
            pick_name_spec(ts, loc, opt_view(plain)) == pick_name_spec(ts.skip(t as int), loc, opt_view(plain)),
        decreases tags@.len() - t,
    {
        let tag = chars_of(tags[t].as_str());
        let mut j: usize = 0;
        assert(ts.skip(t as int)[0] == tag@);
        assert(ts.skip(t as int).drop_first() =~= ts.skip(t + 1));
        while j < localized.len()
            invariant
                ts == string_views(tags@),
                loc == pair_views(localized@),
                t < tags@.len(),
                tag@ == ts[t as int],
                j <= localized@.len(),
                find_tag(loc, tag@, 0) == find_tag(loc, tag@, j as int),
                pick_name_spec(ts, loc, opt_view(plain)) == pick_name_spec(ts.skip(t as int), loc, opt_view(plain)),
                ts.skip(t as int)[0] == tag@,
                ts.skip(t as int).drop_first() == ts.skip(t + 1),
            decreases localized@.len() - j,
        {
            let lt = chars_of(localized[j].0.as_str());
            assert(loc[j as int].0 == lt@);
            if eq_ignore_ascii_case(lt.as_slice(), tag.as_slice()) {
                assert(loc[j as int].1 == localized@[j as int].1@);
                assert(find_tag(loc, tag@, j as int) == j as int);
                assert(pick_name_spec(ts.skip(t as int), loc, opt_view(plain)) == Some(loc[j as int].1));
                return Some(localized[j].1.clone());
            }
            j += 1;
        }
        assert(find_tag(loc, tag@, j as int) == -1);
        t += 1;
    }
    assert(ts.skip(t as int) =~= Seq::<Seq<char>>::empty());
    plain
}

/// Some desktop named in the `;`-separated `list` is one of `current`.
pub open spec fn listed(list: Seq<char>, current: Seq<Seq<char>>) -> bool {
    exists|i: int, k: int|
        0 <= i < pieces(list, ';').len() && 0 <= k < current.len() && #[trigger] pieces(list, ';')[i].len() > 0
            && eq_ascii_ci(#[trigger] current[k], pieces(list, ';')[i])
}

/// freedesktop visibility: `OnlyShowIn`/`NotShowIn` hold `;`-separated desktop
/// names, compared against `XDG_CURRENT_DESKTOP` (`:`-separated). An empty
/// current desktop means "do not filter".
pub open spec fn shown_on_spec(
    only: Option<Seq<char>>,
    not: Option<Seq<char>>,
    current: Seq<char>,
) -> bool {
    let cur = non_empty(pieces(current, ':'));
    if cur.len() == 0 {
        true
    } else {
        &&& (only matches Some(l) ==> listed(l, cur))
        &&& (not matches Some(l) ==> !listed(l, cur))
    }
}

/// Whether one of the `;`-separated names in `list` is a current desktop.
fn lists(list: &Vec<char>, current: &Vec<Vec<char>>) -> (b: bool)
    ensures
        b == listed(list@, views(current@)),
{
    let ds = split_on(list.as_slice(), ';');
    let ghost cur = views(current@);
    let mut i: usize = 0;
    while i < ds.len()
        invariant
            cur == views(current@),
            views(ds@) == pieces(list@, ';'),
            i <= ds@.len(),
            forall|a: int, k: int|
                0 <= a < i && 0 <= k < cur.len() ==> !(pieces(list@, ';')[a].len() > 0
                    && eq_ascii_ci(cur[k], pieces(list@, ';')[a])),
        decreases ds@.len() - i,
    {
        assert(views(ds@)[i as int] == ds@[i as int]@);
        if ds[i].len() > 0 {
            let mut k: usize = 0;
            while k < current.len()
                invariant
                    cur == views(current@),
                    views(ds@) == pieces(list@, ';'),
                    i < ds@.len(),
                    ds@[i as int]@ == pieces(list@, ';')[i as int],
                    ds@[i as int]@.len() > 0,
                    k <= current@.len(),
                    forall|a: int, k2: int|
                        0 <= a < i && 0 <= k2 < cur.len() ==> !(pieces(list@, ';')[a].len() > 0
                            && eq_ascii_ci(cur[k2], pieces(list@, ';')[a])),
                    forall|k2: int| 0 <= k2 < k ==> !eq_ascii_ci(cur[k2], pieces(list@, ';')[i as int]),
                decreases current@.len() - k,
            {
                assert(cur[k as int] == current@[k as int]@);
                if eq_ignore_ascii_case(current[k].as_slice(), ds[i].as_slice()) {
                    assert(pieces(list@, ';')[i as int].len() > 0);
                    return true;
                }
                k += 1;
            }
        }
        i += 1;
    }
    false
}

/// Whether an entry with `OnlyShowIn=only` / `NotShowIn=not` is shown on the
/// desktops `current` (`$XDG_CURRENT_DESKTOP`).
pub fn shown_on(only: Option<&str>, not: Option<&str>, current: &str) -> (b: bool)
    ensures
        b == shown_on_spec(
            match only {
                Some(l) => Some(l@),
                None => None,
            },
            match not {
                Some(l) => Some(l@),
                None => None,
            },
            current@,
        ),
{
    let cur = keep_non_empty(split_on(chars_of(current).as_slice(), ':'));
    if cur.len() == 0 {
        return true;
    }
    if let Some(l) = only {
        if !lists(&chars_of(l), &cur) {
            return false;
        }
    }
    if let Some(l) = not {
        if lists(&chars_of(l), &cur) {
            return false;
        }
    }
    true
}

/// The Exec line with its field codes expanded or dropped: `%%` is a literal
/// percent, `%c` the entry name, `%k` the desktop file path, every other
/// code (file/URL placeholders, icon, deprecated ones) is dropped; a lone
/// trailing `%` stays.
pub open spec fn expand_codes(s: Seq<char>, name: Seq<char>, file: Seq<char>) -> Seq<char>
    decreases s.len(),
{
    if s.len() == 0 {
        seq![]
    } else if s[0] != '%' {
        seq![s[0]] + expand_codes(s.drop_first(), name, file)
    } else if s.len() == 1 {
        seq!['%']
    } else {
        let c = s[1];
        (if c == '%' {
            seq!['%']
        } else if c == 'c' {
            name
        } else if c == 'k' {
            file
        } else {
            seq![]
        }) + expand_codes(s.skip(2), name, file)
    }
}

/// What `clean_exec` returns: the expanded line with runs of whitespace
/// collapsed to single spaces (dropping a standalone code leaves a gap).
pub open spec fn clean_exec_spec(cmd: Seq<char>, name: Seq<char>, file: Seq<char>) -> Seq<char> {
    joined(words(expand_codes(cmd, name, file)))
}

/// Expand/remove Exec field codes per the desktop entry spec. Codes may be
/// attached to words (`app%u`) as well as stand alone.
pub fn clean_exec(cmd: &str, name: &str, desktop_file: &str) -> (r: String)
    ensures
        r@ == clean_exec_spec(cmd@, name@, desktop_file@),
{
    let e = chars_of(cmd);
    let n = chars_of(name);
    let f = chars_of(desktop_file);
    let mut out: Vec<char> = Vec::new();
    let mut i: usize = 0;
    assert(e@.skip(0) =~= e@);
    while i < e.len()
        invariant
            i <= e@.len(),
            out@ + expand_codes(e@.skip(i as int), n@, f@) == expand_codes(e@, n@, f@),
        decreases e@.len() - i,
    {
        let ghost rest = e@.skip(i as int);
        let ghost before = out@;
        let c = e[i];
        if c != '%' {
            out.push(c);
            assert(rest.drop_first() =~= e@.skip(i + 1));
            assert(out@ + expand_codes(e@.skip(i + 1), n@, f@) =~= before + (seq![c] + expand_codes(
                rest.drop_first(),
                n@,
                f@,
            )));
            i += 1;
        } else if i + 1 == e.len() {
            out.push('%');
            assert(e@.skip(i + 1) =~= Seq::<char>::empty());
            assert(out@ + expand_codes(e@.skip(i + 1), n@, f@) =~= before + seq!['%']);
            i += 1;
        } else {
            let d = e[i + 1];
            assert(rest[1] == d);
            assert(rest.skip(2) =~= e@.skip(i + 2));
            let ghost add: Seq<char> = if d == '%' {
                seq!['%']
            } else if d == 'c' {
                n@
            } else if d == 'k' {
                f@
            } else {
                seq![]
            };
            if d == '%' {
                out.push('%');
            } else if d == 'c' {
                let mut k: usize = 0;
                while k < n.len()
                    invariant
                        out@ == before + n@.take(k as int),
                        k <= n@.len(),
                    decreases n@.len() - k,
                {
                    out.push(n[k]);
                    assert(out@ =~= before + n@.take(k + 1));
                    k += 1;
                }
                assert(n@.take(n@.len() as int) =~= n@);
            } else if d == 'k' {
                let mut k: usize = 0;
                while k < f.len()
                    invariant
                        out@ == before + f@.take(k as int),
                        k <= f@.len(),
                    decreases f@.len() - k,
                {
                    out.push(f[k]);
                    assert(out@ =~= before + f@.take(k + 1));
                    k += 1;
                }
                assert(f@.take(f@.len() as int) =~= f@);
            }
            assert(out@ =~= before + add);
            assert(out@ + expand_codes(e@.skip(i + 2), n@, f@) =~= before + (add + expand_codes(
                rest.skip(2),
                n@,
                f@,
            )));
            i += 2;
        }
    }
    assert(e@.skip(i as int) =~= Seq::<char>::empty());
    assert(out@ + Seq::<char>::empty() =~= out@);
    let ws = split_whitespace(out.as_slice());
    let joined_chars = join_spaced(&ws);
    string_of(joined_chars.as_slice())
}

/// `str::split_once`: the parts before and after the first `c`.
pub open spec fn split_once_spec(s: Seq<char>, c: char) -> Option<(Seq<char>, Seq<char>)> {
    let k = first_index(s, c, 0);
    if k < 0 {
        None
    } else {
        Some((s.take(k), s.skip(k + 1)))
    }
}

/// The locale tag of a `Name[tag]` key.
pub open spec fn name_tag(key: Seq<char>) -> Option<Seq<char>> {
    let p = "Name["@;
    if key.len() > p.len() && has_prefix(key, p) && key.last() == ']' {
        Some(key.subrange(p.len() as int, key.len() - 1))
    } else {
        None
    }
}

/// What the `[Desktop Entry]` group of a desktop file has said so far.
pub struct EntryView {
    pub in_entry: bool,
    pub name: Option<Seq<char>>,
    pub localized: Seq<(Seq<char>, Seq<char>)>,
    pub command: Option<Seq<char>>,
    pub no_display: bool,
    pub hidden: bool,
    pub terminal: bool,
    pub only: Option<Seq<char>>,
    pub not: Option<Seq<char>>,
    pub keywords: Seq<char>,
}

/// Nothing read yet.
pub open spec fn fresh_entry() -> EntryView {
    EntryView {
        in_entry: false,
        name: None,
        localized: seq![],
        command: None,
        no_display: false,
        hidden: false,
        terminal: false,
        only: None,
        not: None,
        keywords: seq![],
    }
}

/// A `key=value` line of the `[Desktop Entry]` group.
pub open spec fn read_key(e: EntryView, key: Seq<char>, value: Seq<char>) -> EntryView {
    match name_tag(key) {
        Some(tag) => EntryView { localized: e.localized.push((tag, value)), ..e },
        None => if key == "Name"@ {
            EntryView { name: Some(value), ..e }
        } else if key == "Exec"@ {
            EntryView { command: Some(value), ..e }
        } else if key == "NoDisplay"@ {
            EntryView { no_display: value == "true"@, ..e }
        } else if key == "Hidden"@ {
            EntryView { hidden: value == "true"@, ..e }
        } else if key == "Terminal"@ {
            EntryView { terminal: value == "true"@, ..e }
        } else if key == "OnlyShowIn"@ {
            EntryView { only: Some(value), ..e }
        } else if key == "NotShowIn"@ {
            EntryView { not: Some(value), ..e }
        } else if key == "Keywords"@ {
            EntryView { keywords: lowercase(value), ..e }
        } else {
            e
        },
    }
}

/// One raw line of a desktop file: group headers switch the `[Desktop Entry]`
/// group on or off; inside it, blank lines, `#` comments and lines without
/// `=` are skipped.
pub open spec fn read_line(e: EntryView, raw: Seq<char>) -> EntryView {
    let line = trimmed(raw);
    if line.len() > 0 && line[0] == '[' {
        EntryView { in_entry: line == "[Desktop Entry]"@, ..e }
    } else if !e.in_entry || line.len() == 0 || line[0] == '#' {
        e
    } else {
        match split_once_spec(line, '=') {
            None => e,
            Some((key, value)) => read_key(e, key, value),
        }
    }
}

/// The lines `ls`, read in order.
pub open spec fn read_lines(ls: Seq<Seq<char>>) -> EntryView
    decreases ls.len(),
{
    if ls.len() == 0 {
        fresh_entry()
    } else {
        read_line(read_lines(ls.drop_last()), ls.last())
    }
}

/// The application a desktop file describes, as (name, command, keywords):
/// none for `NoDisplay`, `Hidden` and `Terminal` entries, entries not shown
/// on the current desktop, and entries without a name or an `Exec` line.
pub open spec fn parse_desktop_spec(
    text: Seq<char>,
    tags: Seq<Seq<char>>,
    current: Seq<char>,
    path: Seq<char>,
) -> Option<(Seq<char>, Seq<char>, Seq<char>)> {
    let e = read_lines(lines(text));
    if e.no_display || e.hidden || e.terminal {
        None
    } else if !shown_on_spec(e.only, e.not, current) {
        None
    } else {
        match pick_name_spec(tags, e.localized, e.name) {
            None => None,
            Some(name) => match e.command {
                None => None,
                Some(x) => Some((name, clean_exec_spec(x, name, path), e.keywords)),
            },
        }
    }
}

/// An application as (name, command, keywords).
pub open spec fn app_view(a: Option<App>) -> Option<(Seq<char>, Seq<char>, Seq<char>)> {
    match a {
        None => None,
        Some(a) => Some((a.name@, a.command@, a.keywords@)),
    }
}

/// The state of a desktop file being read.
struct Entry {
    in_entry: bool,
    name: Option<String>,
    localized: Vec<(String, String)>,
    command: Option<String>,
    no_display: bool,
    hidden: bool,
    terminal: bool,
    only: Option<String>,
    not: Option<String>,
    keywords: String,
}

spec fn entry_view(e: Entry) -> EntryView {
    EntryView {
        in_entry: e.in_entry,
        name: opt_view(e.name),
        localized: pair_views(e.localized@),
        command: opt_view(e.command),
        no_display: e.no_display,
        hidden: e.hidden,
        terminal: e.terminal,
        only: opt_view(e.only),
        not: opt_view(e.not),
        keywords: e.keywords@,
    }
}

/// Position of the first `c` in `s`.
fn find_char(s: &[char], c: char) -> (k: Option<usize>)
    ensures
        match k {
            Some(k) => first_index(s@, c, 0) == k as int && k < s@.len(),
            None => first_index(s@, c, 0) == -1,
        },
{
    let mut i: usize = 0;
    while i < s.len()
        invariant
            i <= s@.len(),
            first_index(s@, c, 0) == first_index(s@, c, i as int),
        decreases s@.len() - i,
    {
        if s[i] == c {
            return Some(i);
        }
        i += 1;
    }
    None
}

/// The characters `s[a..b]`.
fn copy_range(s: &[char], a: usize, b: usize) -> (r: Vec<char>)
    requires
        a <= b <= s@.len(),
    ensures
        r@ == s@.subrange(a as int, b as int),
{
    let mut r: Vec<char> = Vec::new();
    let mut i: usize = a;
    while i < b
        invariant
            a <= i <= b <= s@.len(),
            r@ == s@.subrange(a as int, i as int),
        decreases b - i,
    {
        r.push(s[i]);
        assert(r@ =~= s@.subrange(a as int, i + 1));
        i += 1;
    }
    r
}

/// Records one `key=value` line of the `[Desktop Entry]` group.
fn read_key_into(e: &mut Entry, key: &[char], value: &[char])
    ensures
        entry_view(*final(e)) == read_key(entry_view(*old(e)), key@, value@),
{
    let p = chars_of("Name[");
    if key.len() > p.len() && starts_with_seq(key, p.as_slice()) && key[key.len() - 1] == ']' {
        let tag = copy_range(key, p.len(), key.len() - 1);
        let ghost before = e.localized@;
        e.localized.push((string_of(tag.as_slice()), string_of(value)));
        assert(pair_views(e.localized@) =~= pair_views(before).push((tag@, value@)));
        return;
    }
    let v = string_of(value);
    let is_true = eq_chars(value, chars_of("true").as_slice());
    if eq_chars(key, chars_of("Name").as_slice()) {
        e.name = Some(v);
    } else if eq_chars(key, chars_of("Exec").as_slice()) {
        e.command = Some(v);
    } else if eq_chars(key, chars_of("NoDisplay").as_slice()) {
        e.no_display = is_true;
    } else if eq_chars(key, chars_of("Hidden").as_slice()) {
        e.hidden = is_true;
    } else if eq_chars(key, chars_of("Terminal").as_slice()) {
        e.terminal = is_true;
    } else if eq_chars(key, chars_of("OnlyShowIn").as_slice()) {
        e.only = Some(v);
    } else if eq_chars(key, chars_of("NotShowIn").as_slice()) {
        e.not = Some(v);
    } else if eq_chars(key, chars_of("Keywords").as_slice()) {
        e.keywords = to_lowercase(v.as_str());
    }
}

/// Reads one raw line of a desktop file.
fn read_line_into(e: &mut Entry, raw: &[char])
    ensures
        entry_view(*final(e)) == read_line(entry_view(*old(e)), raw@),
{
    let line = trim(raw);
    if line.len() > 0 && line[0] == '[' {
        e.in_entry = eq_chars(line.as_slice(), chars_of("[Desktop Entry]").as_slice());
        return;
    }
    if !e.in_entry || line.len() == 0 || line[0] == '#' {
        return;
    }
    match find_char(line.as_slice(), '=') {
        None => {},
        Some(k) => {
            let key = copy_range(line.as_slice(), 0, k);
            let value = copy_range(line.as_slice(), k + 1, line.len());
            assert(key@ =~= line@.take(k as int));
            assert(value@ =~= line@.skip(k + 1));
            read_key_into(e, key.as_slice(), value.as_slice());
        },
    }
}

/// Reads a desktop file's `text` into the application it describes, for the
/// user's locale `tags` (most specific first), the current desktops
/// `current` (`$XDG_CURRENT_DESKTOP`) and the file's `path` (for `%k`).
pub fn parse_desktop(text: &str, tags: &Vec<String>, current: &str, path: &str) -> (r: Option<App>)
    ensures
        app_view(r) == parse_desktop_spec(text@, string_views(tags@), current@, path@),
{
    let ls = split_lines(chars_of(text).as_slice());
    let mut e = Entry {
        in_entry: false,
        name: None,
        localized: Vec::new(),
        command: None,
        no_display: false,
        hidden: false,
        terminal: false,
        only: None,
        not: None,
        keywords: String::new(),
    };
    assert(entry_view(e) =~= fresh_entry()) by {
        assert(pair_views(e.localized@) =~= seq![]);
    }
    let mut i: usize = 0;
    while i < ls.len()
        invariant
            i <= ls@.len(),
            views(ls@) == lines(text@),
            entry_view(e) == read_lines(views(ls@).take(i as int)),
        decreases ls@.len() - i,
    {
        let ghost taken = views(ls@).take(i + 1);
        assert(taken.drop_last() =~= views(ls@).take(i as int));
        assert(taken.last() == ls@[i as int]@);
        read_line_into(&mut e, ls[i].as_slice());
        i += 1;
    }
    assert(views(ls@).take(i as int) =~= views(ls@));
    if e.no_display || e.hidden || e.terminal {
        return None;
    }
    let only = match &e.only {
        Some(s) => Some(s.as_str()),
        None => None,
    };
    let not = match &e.not {
        Some(s) => Some(s.as_str()),
        None => None,
    };
    if !shown_on(only, not, current) {
        return None;
    }
    let name = match pick_name(tags, &e.localized, e.name) {
        Some(n) => n,
        None => return None,
    };
    let line_cmd = match &e.command {
        Some(x) => x,
        None => return None,
    };
    let command = clean_exec(line_cmd.as_str(), name.as_str(), path);
    Some(App { name, command, keywords: e.keywords })
}

/// An application's key in name order: its lowercase name.
pub open spec fn app_key(a: App) -> Seq<char> {
    lowercase(a.name@)
}

/// An application as (name, command, keywords).
pub open spec fn app_triple(a: App) -> (Seq<char>, Seq<char>, Seq<char>) {
    (a.name@, a.command@, a.keywords@)
}

/// `apps` in name order: stably sorted by lowercase name.
pub open spec fn sorted_apps(apps: Seq<App>) -> Seq<(Seq<char>, Seq<char>, Seq<char>)> {
    sorted_order(apps.map_values(|a: App| app_key(a))).map_values(|i: int| app_triple(apps[i]))
}

/// A copy of `a` (the field strings cloned).
fn copy_app(a: &App) -> (r: App)
    ensures
        app_triple(r) == app_triple(*a),
{
    App { name: a.name.clone(), command: a.command.clone(), keywords: a.keywords.clone() }
}

/// The applications in name order (stable, by lowercase name), as the menu
/// lists them.
pub fn sort_apps(apps: Vec<App>) -> (r: Vec<App>)
    ensures
        r@.map_values(|a: App| app_triple(a)) == sorted_apps(apps@),
{
    let mut keys: Vec<Vec<char>> = Vec::new();
    for i in 0..apps.len()
        invariant
            views(keys@) == apps@.take(i as int).map_values(|a: App| app_key(a)),
    {
        let lcn = to_lowercase(apps[i].name.as_str());
        assert(lcn@ == app_key(apps@[i as int]));
        let k = chars_of(lcn.as_str());
        assert(k@ == app_key(apps@[i as int]));
        let ghost before = views(keys@);
        keys.push(k);
        assert(views(keys@) =~= before.push(k@));
        assert(apps@.take(i + 1).map_values(|a: App| app_key(a)) =~= apps@.take(i as int).map_values(|a: App| app_key(a)).push(app_key(apps@[i as int])));
        assert(views(keys@) =~= apps@.take(i + 1).map_values(|a: App| app_key(a)));
    }
    assert(apps@.take(apps@.len() as int) =~= apps@);
    let ord = sort_order(&keys);
    let ghost ks = views(keys@);
    proof {
        sorted_order_is_a_permutation(ks);
    }
    let mut r: Vec<App> = Vec::new();
    for k in 0..ord.len()
        invariant
            ks == views(keys@),
            ks == apps@.map_values(|a: App| app_key(a)),
            ord@.len() == ks.len(),
            forall|j: int| 0 <= j < ord@.len() ==> #[trigger] ord@[j] as int == sorted_order(ks)[j],
            sorted_order(ks).len() == ks.len(),
            forall|j: int| 0 <= j < ks.len() ==> 0 <= #[trigger] sorted_order(ks)[j] < ks.len(),
            r@.map_values(|a: App| app_triple(a)) == sorted_order(ks).take(k as int).map_values(
                |i: int| app_triple(apps@[i]),
            ),
    {
        assert(ord@[k as int] as int == sorted_order(ks)[k as int]);
        let a = copy_app(&apps[ord[k]]);
        let ghost before = r@.map_values(|a: App| app_triple(a));
        r.push(a);
        assert(r@.map_values(|a: App| app_triple(a)) =~= before.push(app_triple(a)));
        assert(sorted_order(ks).take(k + 1).map_values(|i: int| app_triple(apps@[i])) =~= sorted_order(
            ks,
        ).take(k as int).map_values(|i: int| app_triple(apps@[i])).push(
            app_triple(apps@[sorted_order(ks)[k as int]]),
        ));
    }
    assert(sorted_order(ks).take(ord@.len() as int) =~= sorted_order(ks));
    r
}

/// The item of a desktop application: shows the name, runs the command,
/// matches the keywords too.
pub open spec fn app_item(a: App) -> (Seq<char>, Seq<char>, Seq<char>, Seq<char>) {
    (a.name@, a.command@, lowercase(a.name@), a.keywords@)
}

/// The item of a `$PATH` command: shows and runs its name.
pub open spec fn cmd_item(c: Seq<char>) -> (Seq<char>, Seq<char>, Seq<char>, Seq<char>) {
    (c, c, lowercase(c), seq![])
}

/// Command `i` gets an item: no application and no earlier command has its
/// name, ignoring case.
pub open spec fn cmd_kept(apps: Seq<App>, cmds: Seq<Seq<char>>, i: int) -> bool {
    &&& forall|k: int| 0 <= k < apps.len() ==> app_key(#[trigger] apps[k]) != lowercase(cmds[i])
    &&& forall|j: int| 0 <= j < i ==> lowercase(#[trigger] cmds[j]) != lowercase(cmds[i])
}

/// The commands among the first `n` that get an item, in order.
pub open spec fn kept_cmds(apps: Seq<App>, cmds: Seq<Seq<char>>, n: nat) -> Seq<Seq<char>>
    decreases n,
{
    if n == 0 {
        seq![]
    } else if cmd_kept(apps, cmds, n - 1) {
        kept_cmds(apps, cmds, (n - 1) as nat).push(cmds[n - 1])
    } else {
        kept_cmds(apps, cmds, (n - 1) as nat)
    }
}

/// The application items, then the items of the commands kept.
pub open spec fn merge_unsorted(apps: Seq<App>, cmds: Seq<Seq<char>>) -> Seq<
    (Seq<char>, Seq<char>, Seq<char>, Seq<char>),
> {
    apps.map_values(|a: App| app_item(a)) + kept_cmds(apps, cmds, cmds.len()).map_values(
        |c: Seq<char>| cmd_item(c),
    )
}

/// What `merged` returns: those items stably sorted by their lowercase text.
pub open spec fn merged_spec(apps: Seq<App>, cmds: Seq<Seq<char>>) -> Seq<
    (Seq<char>, Seq<char>, Seq<char>, Seq<char>),
> {
    let u = merge_unsorted(apps, cmds);
    sorted_order(u.map_values(|it: (Seq<char>, Seq<char>, Seq<char>, Seq<char>)| it.2)).map_values(
        |i: int| u[i],
    )
}

/// Whether `k` is one of `v`.
fn has_key(v: &Vec<Vec<char>>, k: &[char]) -> (b: bool)
    ensures
        b == views(v@).contains(k@),
{
    let mut i: usize = 0;
    while i < v.len()
        invariant
            i <= v@.len(),
            forall|j: int| 0 <= j < i ==> views(v@)[j] != k@,
        decreases v@.len() - i,
    {
        if eq_chars(v[i].as_slice(), k) {
            assert(views(v@)[i as int] == k@);
            return true;
        }
        i += 1;
    }
    false
}

/// A copy of `it` (the field strings cloned).
fn copy_item(it: &Item) -> (r: Item)
    ensures
        item_view(r) == item_view(*it),
{
    Item {
        text: it.text.clone(),
        value: it.value.clone(),
        lc: it.lc.clone(),
        extra: it.extra.clone(),
    }
}

/// Merge desktop apps and `$PATH` commands into menu items: apps win on name
/// collision (case-insensitive), commands are deduped the same way, and the
/// result is sorted by lowercase name.
pub fn merged(apps: Vec<App>, cmds: Vec<String>) -> (r: Vec<Item>)
    ensures
        r@.map_values(|it: Item| item_view(it)) == merged_spec(apps@, string_views(cmds@)),
{
    let ghost cs = string_views(cmds@);
    let ghost u = merge_unsorted(apps@, cs);
    let ghost au = apps@.map_values(|a: App| app_item(a));
    let mut items: Vec<Item> = Vec::new();
    let mut seen: Vec<Vec<char>> = Vec::new();
    for i in 0..apps.len()
        invariant
            au == apps@.map_values(|a: App| app_item(a)),
            items@.map_values(|it: Item| item_view(it)) == au.take(i as int),
            views(seen@) == apps@.take(i as int).map_values(|a: App| app_key(a)),
    {
        let lc = to_lowercase(apps[i].name.as_str());
        let key = chars_of(lc.as_str());
        let ghost before_items = items@.map_values(|it: Item| item_view(it));
        let ghost before_seen = views(seen@);
        items.push(
            Item {
                text: apps[i].name.clone(),
                value: apps[i].command.clone(),
                lc,
                extra: apps[i].keywords.clone(),
            },
        );
        seen.push(key);
        assert(items@.map_values(|it: Item| item_view(it)) =~= before_items.push(app_item(apps@[i as int])));
        assert(au.take(i + 1) =~= au.take(i as int).push(app_item(apps@[i as int])));
        assert(views(seen@) =~= before_seen.push(app_key(apps@[i as int])));
        assert(apps@.take(i + 1).map_values(|a: App| app_key(a)) =~= apps@.take(i as int).map_values(
            |a: App| app_key(a),
        ).push(app_key(apps@[i as int])));
    }
    assert(au.take(apps@.len() as int) =~= au);
    assert(apps@.take(apps@.len() as int) =~= apps@);
    let ghost app_keys = views(seen@);
    for i in 0..cmds.len()
        invariant
            cs == string_views(cmds@),
            au == apps@.map_values(|a: App| app_item(a)),
            app_keys == apps@.map_values(|a: App| app_key(a)),
            items@.map_values(|it: Item| item_view(it)) == au + kept_cmds(apps@, cs, i as nat).map_values(
                |c: Seq<char>| cmd_item(c),
            ),
            forall|x: Seq<char>|
                #[trigger] views(seen@).contains(x) <==> (app_keys.contains(x) || exists|j: int|
                    0 <= j < i && lowercase(#[trigger] cs[j]) == x),
    {
        let lc = to_lowercase(cmds[i].as_str());
        let key = chars_of(lc.as_str());
        let fresh = !has_key(&seen, key.as_slice());
        proof {
            assert(cs[i as int] == cmds@[i as int]@);
            if fresh {
                assert forall|k: int| 0 <= k < apps@.len() implies app_key(#[trigger] apps@[k])
                    != lowercase(cs[i as int]) by {
                    assert(app_keys[k] == app_key(apps@[k]));
                    if app_key(apps@[k]) == lowercase(cs[i as int]) {
                        assert(app_keys.contains(key@));
                    }
                }
                assert forall|j: int| 0 <= j < i implies lowercase(#[trigger] cs[j]) != lowercase(
                    cs[i as int],
                ) by {
                    if lowercase(cs[j]) == lowercase(cs[i as int]) {
                        assert(views(seen@).contains(key@));
                    }
                }
                assert(cmd_kept(apps@, cs, i as int));
            } else {
                assert(views(seen@).contains(key@));
                if app_keys.contains(key@) {
                    let k = choose|k: int| 0 <= k < app_keys.len() && app_keys[k] == key@;
                    assert(app_key(apps@[k]) == lowercase(cs[i as int]));
                } else {
                    let j = choose|j: int| 0 <= j < i && lowercase(#[trigger] cs[j]) == key@;
                    assert(lowercase(cs[j]) == lowercase(cs[i as int]));
                }
                assert(!cmd_kept(apps@, cs, i as int));
            }
        }
        let ghost before_items = items@.map_values(|it: Item| item_view(it));
        let ghost before_seen = views(seen@);
        if fresh {
            seen.push(key);
            items.push(
                Item { text: cmds[i].clone(), value: cmds[i].clone(), lc, extra: String::new() },
            );
            assert(items@.map_values(|it: Item| item_view(it)) =~= before_items.push(
                cmd_item(cs[i as int]),
            ));
            assert(views(seen@) =~= before_seen.push(lowercase(cs[i as int])));
        }
        proof {
            assert(au + kept_cmds(apps@, cs, (i + 1) as nat).map_values(|c: Seq<char>| cmd_item(c))
                =~= if fresh {
                before_items.push(cmd_item(cs[i as int]))
            } else {
                before_items
            });
            assert forall|x: Seq<char>|
                #[trigger] views(seen@).contains(x) <==> (app_keys.contains(x) || exists|j: int|
                    0 <= j < i + 1 && lowercase(#[trigger] cs[j]) == x) by {
                if views(seen@).contains(x) && !before_seen.contains(x) {
                    assert(lowercase(cs[i as int]) == x);
                }
                if exists|j: int| 0 <= j < i + 1 && lowercase(#[trigger] cs[j]) == x {
                    let j = choose|j: int| 0 <= j < i + 1 && lowercase(#[trigger] cs[j]) == x;
                    if j == i {
                        if fresh {
                            assert(views(seen@)[before_seen.len() as int] == x);
                        } else {
                            assert(before_seen.contains(x));
                        }
                    }
                }
                if before_seen.contains(x) {
                    let t = choose|t: int| 0 <= t < before_seen.len() && before_seen[t] == x;
                    assert(views(seen@)[t] == x);
                }
            }
        }
    }
    let ghost uk = u.map_values(|it: (Seq<char>, Seq<char>, Seq<char>, Seq<char>)| it.2);
    assert(items@.map_values(|it: Item| item_view(it)) == u);
    let mut keys: Vec<Vec<char>> = Vec::new();
    for i in 0..items.len()
        invariant
            items@.map_values(|it: Item| item_view(it)) == u,
            uk == u.map_values(|it: (Seq<char>, Seq<char>, Seq<char>, Seq<char>)| it.2),
            views(keys@) == uk.take(i as int),
    {
        let ghost before = views(keys@);
        keys.push(chars_of(items[i].lc.as_str()));
        assert(u[i as int] == item_view(items@[i as int]));
        assert(views(keys@) =~= before.push(u[i as int].2));
        assert(uk.take(i + 1) =~= uk.take(i as int).push(uk[i as int]));
    }
    assert(uk.take(items@.len() as int) =~= uk);
    let ord = sort_order(&keys);
    proof {
        sorted_order_is_a_permutation(uk);
    }
    let mut r: Vec<Item> = Vec::new();
    for k in 0..ord.len()
        invariant
            items@.map_values(|it: Item| item_view(it)) == u,
            uk == views(keys@),
            uk.len() == u.len(),
            ord@.len() == uk.len(),
            forall|j: int| 0 <= j < ord@.len() ==> #[trigger] ord@[j] as int == sorted_order(uk)[j],
            sorted_order(uk).len() == uk.len(),
            forall|j: int| 0 <= j < uk.len() ==> 0 <= #[trigger] sorted_order(uk)[j] < uk.len(),
            r@.map_values(|it: Item| item_view(it)) == sorted_order(uk).take(k as int).map_values(
                |i: int| u[i],
            ),
    {
        assert(ord@[k as int] as int == sorted_order(uk)[k as int]);
        let it = copy_item(&items[ord[k]]);
        assert(item_view(it) == u[ord@[k as int] as int]);
        let ghost before = r@.map_values(|it: Item| item_view(it));
        r.push(it);
        assert(r@.map_values(|it: Item| item_view(it)) =~= before.push(item_view(it)));
        assert(sorted_order(uk).take(k + 1).map_values(|i: int| u[i]) =~= sorted_order(uk).take(
            k as int,
        ).map_values(|i: int| u[i]).push(u[sorted_order(uk)[k as int]]));
    }
    assert(sorted_order(uk).take(ord@.len() as int) =~= sorted_order(uk));
    r
}

/// Positions of the commands among the first `n` that get an item.
spec fn kept_positions(apps: Seq<App>, cmds: Seq<Seq<char>>, n: nat) -> Seq<int>
    decreases n,
{
    if n == 0 {
        seq![]
    } else if cmd_kept(apps, cmds, n - 1) {
        kept_positions(apps, cmds, (n - 1) as nat).push(n - 1)
    } else {
        kept_positions(apps, cmds, (n - 1) as nat)
    }
}

proof fn lemma_kept_positions(apps: Seq<App>, cmds: Seq<Seq<char>>, n: nat)
    requires
        n <= cmds.len(),
    ensures
        kept_cmds(apps, cmds, n) == kept_positions(apps, cmds, n).map_values(|j: int| cmds[j]),
        forall|p: int|
            0 <= p < kept_positions(apps, cmds, n).len() ==> 0 <= #[trigger] kept_positions(
                apps,
                cmds,
                n,
            )[p] < n && cmd_kept(apps, cmds, kept_positions(apps, cmds, n)[p]),
        forall|p: int, q: int|
            0 <= p < q < kept_positions(apps, cmds, n).len() ==> #[trigger] kept_positions(
                apps,
                cmds,
                n,
            )[p] < #[trigger] kept_positions(apps, cmds, n)[q],
    decreases n,
{
    if n > 0 {
        lemma_kept_positions(apps, cmds, (n - 1) as nat);
        let prev = kept_positions(apps, cmds, (n - 1) as nat);
        if cmd_kept(apps, cmds, n - 1) {
            assert(kept_positions(apps, cmds, n) == prev.push(n - 1));
            assert(kept_cmds(apps, cmds, n) =~= kept_positions(apps, cmds, n).map_values(
                |j: int| cmds[j],
            ));
        }
    } else {
        assert(kept_cmds(apps, cmds, n) =~= kept_positions(apps, cmds, n).map_values(
            |j: int| cmds[j],
        ));
    }
}

/// Applications win on name collisions: no command item shares its
/// lowercase name with an application, nor with another command item.
pub proof fn merged_apps_win_name_collisions(apps: Seq<App>, cmds: Seq<Seq<char>>)
    ensures
        forall|p: int, k: int|
            apps.len() <= p < merge_unsorted(apps, cmds).len() && 0 <= k < apps.len()
                ==> #[trigger] merge_unsorted(apps, cmds)[p].2 != #[trigger] merge_unsorted(
                apps,
                cmds,
            )[k].2,
        forall|p: int, q: int|
            apps.len() <= p < q < merge_unsorted(apps, cmds).len() ==> #[trigger] merge_unsorted(
                apps,
                cmds,
            )[p].2 != #[trigger] merge_unsorted(apps, cmds)[q].2,
{
    let u = merge_unsorted(apps, cmds);
    let n = apps.len() as int;
    let ps = kept_positions(apps, cmds, cmds.len());
    lemma_kept_positions(apps, cmds, cmds.len());
    assert forall|p: int| n <= p < u.len() implies #[trigger] u[p].2 == lowercase(cmds[ps[p - n]]) by {}
    assert forall|k: int| 0 <= k < n implies #[trigger] u[k].2 == app_key(apps[k]) by {}
    assert forall|p: int, k: int| n <= p < u.len() && 0 <= k < n implies #[trigger] u[p].2
        != #[trigger] u[k].2 by {
        assert(cmd_kept(apps, cmds, ps[p - n]));
        assert(app_key(apps[k]) != lowercase(cmds[ps[p - n]]));
    }
    assert forall|p: int, q: int| n <= p < q < u.len() implies #[trigger] u[p].2
        != #[trigger] u[q].2 by {
        assert(ps[p - n] < ps[q - n]);
        assert(cmd_kept(apps, cmds, ps[q - n]));
        assert(lowercase(cmds[ps[p - n]]) != lowercase(cmds[ps[q - n]]));
    }
}

/// The merged menu is in name order: lowercase names never decrease.
pub proof fn merged_is_sorted_by_name(apps: Seq<App>, cmds: Seq<Seq<char>>)
    ensures
        forall|a: int, b: int|
            0 <= a < b < merged_spec(apps, cmds).len() ==> lex_le(
                #[trigger] merged_spec(apps, cmds)[a].2,
                #[trigger] merged_spec(apps, cmds)[b].2,
            ),
{
    let u = merge_unsorted(apps, cmds);
    let uk = u.map_values(|it: (Seq<char>, Seq<char>, Seq<char>, Seq<char>)| it.2);
    sorted_order_is_a_permutation(uk);
    sorted_order_sorts(uk);
    let ord = sorted_order(uk);
    assert forall|a: int, b: int| 0 <= a < b < merged_spec(apps, cmds).len() implies lex_le(
        #[trigger] merged_spec(apps, cmds)[a].2,
        #[trigger] merged_spec(apps, cmds)[b].2,
    ) by {
        assert(merged_spec(apps, cmds)[a] == u[ord[a]]);
        assert(merged_spec(apps, cmds)[b] == u[ord[b]]);
        assert(lex_le(uk[ord[a]], uk[ord[b]]));
    }
}

/// Applications listed by `sort_apps` are in name order.
pub proof fn sorted_apps_are_in_name_order(apps: Seq<App>)
    ensures
        forall|a: int, b: int|
            0 <= a < b < sorted_apps(apps).len() ==> lex_le(
                lowercase(#[trigger] sorted_apps(apps)[a].0),
                lowercase(#[trigger] sorted_apps(apps)[b].0),
            ),
{
    let ks = apps.map_values(|x: App| app_key(x));
    sorted_order_is_a_permutation(ks);
    sorted_order_sorts(ks);
    let ord = sorted_order(ks);
    assert forall|a: int, b: int| 0 <= a < b < sorted_apps(apps).len() implies lex_le(
        lowercase(#[trigger] sorted_apps(apps)[a].0),
        lowercase(#[trigger] sorted_apps(apps)[b].0),
    ) by {
        assert(sorted_apps(apps)[a] == app_triple(apps[ord[a]]));
        assert(sorted_apps(apps)[b] == app_triple(apps[ord[b]]));
        assert(lex_le(ks[ord[a]], ks[ord[b]]));
    }
}

/// `$PATH`'s directories: its non-empty `:`-separated parts, in order.
pub fn path_dirs(path: &str) -> (dirs: Vec<String>)
    ensures
        string_views(dirs@) == non_empty(pieces(path@, ':')),
{
    let parts = keep_non_empty(split_on(chars_of(path).as_slice(), ':'));
    to_strings(&parts)
}

/// One directory entry met while scanning `$PATH`: its file name, and
/// whether it is a regular executable file (symlinks followed).
pub struct PathEntry {
    pub name: String,
    pub runnable: bool,
}

/// A dot file: never listed.
pub open spec fn is_hidden(n: Seq<char>) -> bool {
    n.len() > 0 && n[0] == '.'
}

/// Entry `i` of the scan is listed: a runnable file that is no dot file and
/// whose name no earlier listed entry had (the first `$PATH` directory
/// wins; a non-runnable entry leaves the name free for a later directory).
pub open spec fn cmd_listed(es: Seq<PathEntry>, i: int) -> bool {
    &&& !is_hidden(es[i].name@)
    &&& es[i].runnable
    &&& forall|j: int| 0 <= j < i ==> !(#[trigger] es[j].runnable && es[j].name@ == es[i].name@)
}

/// Names of the entries among the first `n` that are listed, in scan order.
pub open spec fn listed_cmds(es: Seq<PathEntry>, n: nat) -> Seq<Seq<char>>
    decreases n,
{
    if n == 0 {
        seq![]
    } else if cmd_listed(es, n - 1) {
        listed_cmds(es, (n - 1) as nat).push(es[n - 1].name@)
    } else {
        listed_cmds(es, (n - 1) as nat)
    }
}

/// The commands a scan of the `$PATH` directories offers, deduped by name
/// and limited to entries that can actually run: directories and
/// non-executable files would only become dead menu entries.
pub fn path_commands_from(entries: &Vec<PathEntry>) -> (cmds: Vec<String>)
    ensures
        string_views(cmds@) == listed_cmds(entries@, entries@.len()),
{
    let ghost es = entries@;
    let mut seen: Vec<Vec<char>> = Vec::new();
    let mut out: Vec<String> = Vec::new();
    for i in 0..entries.len()
        invariant
            es == entries@,
            string_views(out@) == listed_cmds(es, i as nat),
            forall|x: Seq<char>|
                #[trigger] views(seen@).contains(x) <==> exists|j: int|
                    0 <= j < i && cmd_listed(es, j) && #[trigger] es[j].name@ == x,
    {
        let name = chars_of(entries[i].name.as_str());
        let hidden = name.len() > 0 && name[0] == '.';
        let known = has_key(&seen, name.as_slice());
        let ghost before_out = string_views(out@);
        let ghost before_seen = views(seen@);
        proof {
            if !hidden && entries@[i as int].runnable {
                if known {
                    let j = choose|j: int| 0 <= j < i && cmd_listed(es, j) && #[trigger] es[j].name@ == name@;
                    assert(!cmd_listed(es, i as int));
                } else {
                    assert forall|j: int| 0 <= j < i implies !(#[trigger] es[j].runnable && es[j].name@
                        == es[i as int].name@) by {
                        if es[j].runnable && es[j].name@ == es[i as int].name@ {
                            // the first listed entry of that name is in `seen`
                            lemma_first_listed(es, j);
                            let m = choose|m: int|
                                0 <= m <= j && cmd_listed(es, m) && #[trigger] es[m].name@
                                    == es[j].name@;
                            assert(views(seen@).contains(name@));
                        }
                    }
                }
            }
        }
        if !hidden && entries[i].runnable && !known {
            out.push(entries[i].name.clone());
            seen.push(name);
            assert(string_views(out@) =~= before_out.push(es[i as int].name@));
            assert(views(seen@) =~= before_seen.push(es[i as int].name@));
        }
        proof {
            assert(cmd_listed(es, i as int) == (!hidden && entries@[i as int].runnable && !known));
            assert forall|x: Seq<char>|
                #[trigger] views(seen@).contains(x) <==> exists|j: int|
                    0 <= j < i + 1 && cmd_listed(es, j) && #[trigger] es[j].name@ == x by {
                if views(seen@).contains(x) && !before_seen.contains(x) {
                    assert(es[i as int].name@ == x);
                }
                if before_seen.contains(x) {
                    let t = choose|t: int| 0 <= t < before_seen.len() && before_seen[t] == x;
                    assert(views(seen@)[t] == x);
                }
                if exists|j: int| 0 <= j < i + 1 && cmd_listed(es, j) && #[trigger] es[j].name@ == x {
                    let j = choose|j: int| 0 <= j < i + 1 && cmd_listed(es, j) && #[trigger] es[j].name@ == x;
                    if j == i {
                        assert(views(seen@)[before_seen.len() as int] == x);
                    }
                }
            }
        }
    }
    out
}

/// A runnable, visible entry is listed unless a listed one of the same name
/// came before it.
proof fn lemma_first_listed(es: Seq<PathEntry>, j: int)
    requires
        0 <= j < es.len(),
        es[j].runnable,
        !is_hidden(es[j].name@),
    ensures
        exists|m: int| 0 <= m <= j && cmd_listed(es, m) && #[trigger] es[m].name@ == es[j].name@,
    decreases j,
{
    if cmd_listed(es, j) {
        assert(es[j].name@ == es[j].name@);
    } else {
        let k = choose|k: int| 0 <= k < j && (#[trigger] es[k].runnable && es[k].name@ == es[j].name@);
        lemma_first_listed(es, k);
        let m = choose|m: int| 0 <= m <= k && cmd_listed(es, m) && #[trigger] es[m].name@ == es[k].name@;
        assert(es[m].name@ == es[j].name@);
    }
}

/// Positions of the listed entries among the first `n`.
pub open spec fn listed_positions(es: Seq<PathEntry>, n: nat) -> Seq<int>
    decreases n,
{
    if n == 0 {
        seq![]
    } else if cmd_listed(es, n - 1) {
        listed_positions(es, (n - 1) as nat).push(n - 1)
    } else {
        listed_positions(es, (n - 1) as nat)
    }
}

proof fn lemma_listed_positions(es: Seq<PathEntry>, n: nat)
    requires
        n <= es.len(),
    ensures
        listed_cmds(es, n) == listed_positions(es, n).map_values(|i: int| es[i].name@),
        forall|a: int|
            0 <= a < listed_positions(es, n).len() ==> 0 <= #[trigger] listed_positions(es, n)[a] < n
                && cmd_listed(es, listed_positions(es, n)[a]),
        forall|a: int, b: int|
            0 <= a < b < listed_positions(es, n).len() ==> #[trigger] listed_positions(es, n)[a]
                < #[trigger] listed_positions(es, n)[b],
    decreases n,
{
    if n > 0 {
        lemma_listed_positions(es, (n - 1) as nat);
        if cmd_listed(es, n - 1) {
            assert(listed_cmds(es, n) =~= listed_positions(es, n).map_values(|i: int| es[i].name@));
        }
    } else {
        assert(listed_cmds(es, n) =~= listed_positions(es, n).map_values(|i: int| es[i].name@));
    }
}

/// Law: the listed `$PATH` commands are distinct, and each is the name of a
/// runnable entry that is no dot file.
pub proof fn path_commands_are_unique_and_runnable(es: Seq<PathEntry>)
    ensures
        forall|a: int, b: int|
            0 <= a < b < listed_cmds(es, es.len()).len() ==> #[trigger] listed_cmds(es, es.len())[a]
                != #[trigger] listed_cmds(es, es.len())[b],
        forall|a: int|
            0 <= a < listed_cmds(es, es.len()).len() ==> {
                let i = #[trigger] listed_positions(es, es.len())[a];
                &&& 0 <= i < es.len()
                &&& es[i].runnable
                &&& !is_hidden(es[i].name@)
                &&& listed_cmds(es, es.len())[a] == es[i].name@
            },
{
    let n = es.len();
    lemma_listed_positions(es, n);
    let ps = listed_positions(es, n);
    let l = listed_cmds(es, n);
    assert forall|a: int, b: int| 0 <= a < b < l.len() implies #[trigger] l[a] != #[trigger] l[b] by {
        assert(ps[a] < ps[b]);
        assert(cmd_listed(es, ps[b]));
        assert(l[a] == es[ps[a]].name@ && l[b] == es[ps[b]].name@);
        assert(cmd_listed(es, ps[a]));
    }
}

/// Law: an entry marked `Hidden=true` (or `NoDisplay=true`, or
/// `Terminal=true`) in its `[Desktop Entry]` group is never listed: whatever
/// else the file holds, on every desktop and locale, it gives no application.
pub proof fn hidden_entries_are_skipped(
    text: Seq<char>,
    tags: Seq<Seq<char>>,
    current: Seq<char>,
    path: Seq<char>,
)
    requires
        read_lines(lines(text)).hidden || read_lines(lines(text)).no_display || read_lines(
            lines(text),
        ).terminal,
    ensures
        parse_desktop_spec(text, tags, current, path) is None,
{
}

/// The `Hidden=true` line.
pub open spec fn hidden_line() -> Seq<char> {
    seq!['H', 'i', 'd', 'd', 'e', 'n', '=', 't', 'r', 'u', 'e']
}

/// A line that neither starts a group nor sets the `Hidden` key.
pub open spec fn keeps_hidden(raw: Seq<char>) -> bool {
    let l = trimmed(raw);
    &&& !(l.len() > 0 && l[0] == '[')
    &&& (split_once_spec(l, '=') matches Some((key, _)) ==> key != "Hidden"@)
}

proof fn lemma_keeps_hidden(e: EntryView, ls: Seq<Seq<char>>)
    requires
        e.hidden && e.in_entry,
        forall|k: int| 0 <= k < ls.len() ==> keeps_hidden(#[trigger] ls[k]),
    ensures
        read_lines_from(e, ls).hidden,
        read_lines_from(e, ls).in_entry,
    decreases ls.len(),
{
    if ls.len() > 0 {
        let init = ls.drop_last();
        assert forall|k: int| 0 <= k < init.len() implies keeps_hidden(#[trigger] init[k]) by {
            assert(init[k] == ls[k]);
        }
        lemma_keeps_hidden(e, init);
        assert(keeps_hidden(ls[ls.len() - 1]));
    }
}

/// The lines `ls` read in order on top of `e`.
pub open spec fn read_lines_from(e: EntryView, ls: Seq<Seq<char>>) -> EntryView
    decreases ls.len(),
{
    if ls.len() == 0 {
        e
    } else {
        read_line(read_lines_from(e, ls.drop_last()), ls.last())
    }
}

proof fn lemma_read_lines_append(a: Seq<Seq<char>>, b: Seq<Seq<char>>)
    ensures
        read_lines(a + b) == read_lines_from(read_lines(a), b),
    decreases b.len(),
{
    if b.len() == 0 {
        assert(a + b =~= a);
    } else {
        assert((a + b).drop_last() =~= a + b.drop_last());
        assert((a + b).last() == b.last());
        lemma_read_lines_append(a, b.drop_last());
    }
}

/// Law: inside the `[Desktop Entry]` group, a `Hidden=true` line hides the
/// entry for good unless a later line sets `Hidden` again or starts another
/// group: whatever the lines before and after it hold, such a file gives no
/// application.
pub proof fn a_hidden_line_hides_the_entry(
    before: Seq<Seq<char>>,
    after: Seq<Seq<char>>,
    tags: Seq<Seq<char>>,
    current: Seq<char>,
    path: Seq<char>,
)
    requires
        read_lines(before).in_entry,
        forall|k: int| 0 <= k < after.len() ==> keeps_hidden(#[trigger] after[k]),
    ensures
        read_lines(before + seq![hidden_line()] + after).hidden,
        forall|text: Seq<char>|
            lines(text) == before + seq![hidden_line()] + after ==> parse_desktop_spec(
                text,
                tags,
                current,
                path,
            ) is None,
{
    let hl = hidden_line();
    assert(trimmed(hl) == hl) by {
        assert(!is_ws(hl[0]));
        assert(lead_ws(hl) == 0);
        assert(hl.skip(0) =~= hl);
        assert(!is_ws(hl.last()));
        assert(trail_ws(hl) == 0);
        assert(hl.take(hl.len() as int) =~= hl);
    }
    assert(split_once_spec(hl, '=') == Some((seq!['H', 'i', 'd', 'd', 'e', 'n'], seq!['t', 'r', 'u', 'e']))) by {
        assert forall|j: int| 0 <= j < 6 implies hl[j] != '=' by {}
        lemma_first_index(hl, '=', 0, 6);
        assert(hl.take(6) =~= seq!['H', 'i', 'd', 'd', 'e', 'n']);
        assert(hl.skip(7) =~= seq!['t', 'r', 'u', 'e']);
    }
    reveal_strlit("Hidden");
    reveal_strlit("true");
    reveal_strlit("Name[");
    reveal_strlit("Name");
    reveal_strlit("Exec");
    reveal_strlit("NoDisplay");
    assert(seq!['H', 'i', 'd', 'd', 'e', 'n'] == "Hidden"@);
    assert("Hidden"@ != "Name"@ && "Hidden"@ != "Exec"@ && "Hidden"@ != "NoDisplay"@) by {
        assert("Hidden"@[0] != "Name"@[0]);
        assert("Hidden"@[0] != "Exec"@[0]);
        assert("Hidden"@[0] != "NoDisplay"@[0]);
    }
    assert(seq!['t', 'r', 'u', 'e'] == "true"@);
    assert(name_tag("Hidden"@) is None) by {
        let k = "Hidden"@;
        if has_prefix(k, "Name["@) {
            assert(k[0] == "Name["@[0]);
        }
    }
    let mid = before + seq![hl];
    assert(mid.drop_last() =~= before);
    assert(mid.last() == hl);
    assert(read_lines(mid) == read_line(read_lines(before), hl));
    assert(read_lines(mid).hidden);
    assert(read_lines(mid).in_entry);
    lemma_keeps_hidden(read_lines(mid), after);
    lemma_read_lines_append(mid, after);
}

} // verus!
