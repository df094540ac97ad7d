//! Icon lookup: freedesktop icon-theme search order and candidate files,
//! and the pixel conversion rendered SVG icons need.
use vstd::prelude::*;

use crate::desktop::{join_path, opt_view, path_join, string_views, to_strings};
use crate::order::{sort_order, sorted_order, sorted_order_is_a_permutation};
use crate::text::{
    chars_of, ends_with_seq, has_suffix, keep_non_empty, non_empty, pieces, split_on, string_of,
    views,
};

verus! {

/// Icon sizes to try, best quality first.
pub open spec fn icon_sizes() -> Seq<Seq<char>> {
    seq![
        "48x48"@,
        "64x64"@,
        "96x96"@,
        "32x32"@,
        "128x128"@,
        "24x24"@,
        "22x22"@,
        "16x16"@,
        "256x256"@,
    ]
}

/// Icon categories searched within each size.
pub open spec fn icon_cats() -> Seq<Seq<char>> {
    seq!["apps"@, "mimetypes"@, "places"@, "status"@, "devices"@, "actions"@, "legacy"@]
}

/// Image file extensions an icon may have.
pub open spec fn icon_exts() -> Seq<Seq<char>> {
    seq!["png"@, "svg"@, "jpg"@, "jpeg"@, "webp"@]
}

/// The character lists of `strs`.
fn char_lists(strs: &[&str]) -> (v: Vec<Vec<char>>)
    ensures
        views(v@) == strs@.map_values(|s: &str| s@),
{
    let mut v: Vec<Vec<char>> = Vec::new();
    for i in 0..strs.len()
        invariant
            views(v@) == strs@.take(i as int).map_values(|s: &str| s@),
    {
        let ghost before = views(v@);
        v.push(chars_of(strs[i]));
        assert(views(v@) =~= before.push(strs@[i as int]@));
        assert(strs@.take(i + 1).map_values(|s: &str| s@) =~= strs@.take(i as int).map_values(
            |s: &str| s@,
        ).push(strs@[i as int]@));
    }
    assert(strs@.take(strs@.len() as int) =~= strs@);
    v
}

fn sizes_list() -> (v: Vec<Vec<char>>)
    ensures
        views(v@) == icon_sizes(),
{
    let strs = [
        "48x48",
        "64x64",
        "96x96",
        "32x32",
        "128x128",
        "24x24",
        "22x22",
        "16x16",
        "256x256",
    ];
    let v = char_lists(&strs);
    assert(views(v@) =~= icon_sizes());
    v
}

fn cats_list() -> (v: Vec<Vec<char>>)
    ensures
        views(v@) == icon_cats(),
{
    let strs = ["apps", "mimetypes", "places", "status", "devices", "actions", "legacy"];
    let v = char_lists(&strs);
    assert(views(v@) =~= icon_cats());
    v
}

fn exts_list() -> (v: Vec<Vec<char>>)
    ensures
        views(v@) == icon_exts(),
{
    let strs = ["png", "svg", "jpg", "jpeg", "webp"];
    let v = char_lists(&strs);
    assert(views(v@) =~= icon_exts());
    v
}

/// `name.ext`.
pub open spec fn dotted(name: Seq<char>, ext: Seq<char>) -> Seq<char> {
    name + seq!['.'] + ext
}

/// The name already carries one of the image extensions.
pub open spec fn known_ext(name: Seq<char>) -> bool {
    exists|i: int| 0 <= i < icon_exts().len() && has_suffix(name, seq!['.'] + #[trigger] icon_exts()[i])
}

/// Whether `name` already carries an image extension.
pub fn has_known_ext(name: &str) -> (b: bool)
    ensures
        b == known_ext(name@),
{
    let n = chars_of(name);
    let exts = exts_list();
    for i in 0..exts.len()
        invariant
            views(exts@) == icon_exts(),
            n@ == name@,
            forall|j: int| 0 <= j < i ==> !has_suffix(name@, seq!['.'] + #[trigger] icon_exts()[j]),
    {
        let mut suffix: Vec<char> = Vec::new();
        suffix.push('.');
        let e = &exts[i];
        let mut k: usize = 0;
        while k < e.len()
            invariant
                k <= e@.len(),
                suffix@ == seq!['.'] + e@.take(k as int),
            decreases e@.len() - k,
        {
            suffix.push(e[k]);
            assert(suffix@ =~= seq!['.'] + e@.take(k + 1));
            k += 1;
        }
        assert(e@.take(e@.len() as int) =~= e@);
        assert(views(exts@)[i as int] == e@);
        if ends_with_seq(n.as_slice(), suffix.as_slice()) {
            return true;
        }
    }
    false
}

/// `PathBuf::join`: an absolute `p` replaces the base.
pub open spec fn join_any(base: Seq<char>, p: Seq<char>) -> Seq<char> {
    if p.len() > 0 && p[0] == '/' {
        p
    } else {
        path_join(base, p)
    }
}

/// `base/<ext-name>` for each extension, in order.
pub open spec fn per_ext(base: Seq<char>, name: Seq<char>, exts: Seq<Seq<char>>) -> Seq<Seq<char>> {
    exts.map_values(|e: Seq<char>| path_join(base, dotted(name, e)))
}

/// For each category (in order), the files under `base/<cat>`: the name with
/// each extension, or the name itself when `exts` is `None`.
pub open spec fn per_cat(base: Seq<char>, name: Seq<char>, cats: Seq<Seq<char>>, exts: Option<Seq<Seq<char>>>) -> Seq<
    Seq<char>,
>
    decreases cats.len(),
{
    if cats.len() == 0 {
        seq![]
    } else {
        let dir = path_join(base, cats.last());
        per_cat(base, name, cats.drop_last(), exts) + match exts {
            Some(es) => per_ext(dir, name, es),
            None => seq![path_join(dir, name)],
        }
    }
}

/// For each size (in order), the files of every category under `base/<size>`.
pub open spec fn per_size(
    base: Seq<char>,
    name: Seq<char>,
    sizes: Seq<Seq<char>>,
    exts: Option<Seq<Seq<char>>>,
) -> Seq<Seq<char>>
    decreases sizes.len(),
{
    if sizes.len() == 0 {
        seq![]
    } else {
        per_size(base, name, sizes.drop_last(), exts) + per_cat(
            path_join(base, sizes.last()),
            name,
            icon_cats(),
            exts,
        )
    }
}

/// The files to try for icon `name` in `theme` under icon directory `dir`,
/// in order: a name with an extension is looked up as is in every size and
/// category, then directly in `dir`; a bare name with each extension in
/// every size and category, then as a scalable app icon.
pub open spec fn theme_candidates(dir: Seq<char>, theme: Seq<char>, name: Seq<char>) -> Seq<Seq<char>> {
    let base = join_any(dir, theme);
    if known_ext(name) {
        per_size(base, name, icon_sizes(), None) + seq![path_join(dir, name)]
    } else {
        per_size(base, name, icon_sizes(), Some(icon_exts())) + seq![
            path_join(path_join(path_join(base, "scalable"@), "apps"@), dotted(name, "svg"@)),
        ]
    }
}

/// For the first `n` themes, their candidate files, in order.
pub open spec fn themes_candidates(dir: Seq<char>, themes: Seq<Seq<char>>, name: Seq<char>) -> Seq<Seq<char>>
    decreases themes.len(),
{
    if themes.len() == 0 {
        seq![]
    } else {
        themes_candidates(dir, themes.drop_last(), name) + theme_candidates(dir, themes.last(), name)
    }
}

/// Every file to try for icon `name` under `dir`, in order: each theme's
/// candidates, then the flat fallback `dir/<name>.<ext>` (which covers
/// `/usr/share/pixmaps`).
pub open spec fn icon_candidates_spec(dir: Seq<char>, themes: Seq<Seq<char>>, name: Seq<char>) -> Seq<
    Seq<char>,
> {
    themes_candidates(dir, themes, name) + per_ext(dir, name, icon_exts())
}

/// Appends `base/<name>.<ext>` for each extension.
fn push_per_ext(out: &mut Vec<Vec<char>>, base: &[char], name: &[char], exts: &Vec<Vec<char>>)
    ensures
        views(final(out)@) == views(old(out)@) + per_ext(base@, name@, views(exts@)),
{
    let ghost start = views(out@);
    for i in 0..exts.len()
        invariant
            views(out@) == start + per_ext(base@, name@, views(exts@).take(i as int)),
    {
        let mut f: Vec<char> = Vec::new();
        let mut k: usize = 0;
        while k < name.len()
            invariant
                k <= name@.len(),
                f@ == name@.take(k as int),
            decreases name@.len() - k,
        {
            f.push(name[k]);
            assert(f@ =~= name@.take(k + 1));
            k += 1;
        }
        f.push('.');
        let e = &exts[i];
        let ghost stem = f@;
        let mut k: usize = 0;
        while k < e.len()
            invariant
                k <= e@.len(),
                f@ == stem + e@.take(k as int),
            decreases e@.len() - k,
        {
            f.push(e[k]);
            assert(f@ =~= stem + e@.take(k + 1));
            k += 1;
        }
        proof {
            assert(e@.take(e@.len() as int) =~= e@);
            assert(name@.take(name@.len() as int) =~= name@);
            assert(views(exts@)[i as int] == e@);
            assert(f@ =~= dotted(name@, e@));
        }
        let p = join_path(base, f.as_slice());
        let ghost before = views(out@);
        out.push(p);
        proof {
            assert(views(out@) =~= before.push(p@));
            assert(views(exts@).take(i + 1) =~= views(exts@).take(i as int).push(e@));
            assert(per_ext(base@, name@, views(exts@).take(i + 1)) =~= per_ext(
                base@,
                name@,
                views(exts@).take(i as int),
            ).push(path_join(base@, dotted(name@, e@))));
        }
    }
    assert(views(exts@).take(exts@.len() as int) =~= views(exts@));
}

/// Appends the files of every category under `base`.
fn push_per_cat(
    out: &mut Vec<Vec<char>>,
    base: &[char],
    name: &[char],
    cats: &Vec<Vec<char>>,
    exts: &Option<Vec<Vec<char>>>,
)
    ensures
        views(final(out)@) == views(old(out)@) + per_cat(
            base@,
            name@,
            views(cats@),
            match exts {
                Some(es) => Some(views(es@)),
                None => None,
            },
        ),
{
    let ghost ex: Option<Seq<Seq<char>>> = match exts {
        Some(es) => Some(views(es@)),
        None => None,
    };
    let ghost start = views(out@);
    assert(per_cat(base@, name@, views(cats@).take(0), ex) =~= seq![]);
    for i in 0..cats.len()
        invariant
            ex == match exts {
                Some(es) => Some(views(es@)),
                None => None,
            },
            views(out@) == start + per_cat(base@, name@, views(cats@).take(i as int), ex),
    {
        let dir = join_path(base, cats[i].as_slice());
        let ghost before = views(out@);
        proof {
            let t = views(cats@).take(i + 1);
            assert(t.drop_last() =~= views(cats@).take(i as int));
            assert(t.last() == cats@[i as int]@);
        }
        match exts {
            Some(es) => {
                push_per_ext(out, dir.as_slice(), name, es);
            },
            None => {
                let p = join_path(dir.as_slice(), name);
                out.push(p);
                assert(views(out@) =~= before.push(p@));
            },
        }
        assert(views(out@) =~= start + per_cat(base@, name@, views(cats@).take(i + 1), ex));
    }
    assert(views(cats@).take(cats@.len() as int) =~= views(cats@));
}

/// Appends the files of every size and category under `base`.
fn push_per_size(out: &mut Vec<Vec<char>>, base: &[char], name: &[char], exts: &Option<Vec<Vec<char>>>)
    ensures
        views(final(out)@) == views(old(out)@) + per_size(
            base@,
            name@,
            icon_sizes(),
            match exts {
                Some(es) => Some(views(es@)),
                None => None,
            },
        ),
{
    let ghost ex: Option<Seq<Seq<char>>> = match exts {
        Some(es) => Some(views(es@)),
        None => None,
    };
    let sizes = sizes_list();
    let cats = cats_list();
    let ghost start = views(out@);
    assert(per_size(base@, name@, views(sizes@).take(0), ex) =~= seq![]);
    for i in 0..sizes.len()
        invariant
            views(sizes@) == icon_sizes(),
            views(cats@) == icon_cats(),
            ex == match exts {
                Some(es) => Some(views(es@)),
                None => None,
            },
            views(out@) == start + per_size(base@, name@, views(sizes@).take(i as int), ex),
    {
        let dir = join_path(base, sizes[i].as_slice());
        let ghost before = views(out@);
        push_per_cat(out, dir.as_slice(), name, &cats, exts);
        proof {
            let t = views(sizes@).take(i + 1);
            assert(t.drop_last() =~= views(sizes@).take(i as int));
            assert(t.last() == sizes@[i as int]@);
            assert(views(out@) =~= start + per_size(base@, name@, views(sizes@).take(i + 1), ex));
        }
    }
    assert(views(sizes@).take(sizes@.len() as int) =~= views(sizes@));
}

/// Every file to try, in order, for icon `name` in icon directory `dir`
/// with the themes `themes` (see `theme_order`); the first that is a file
/// is the icon.
pub fn icon_candidates(dir: &str, themes: &Vec<String>, name: &str) -> (c: Vec<String>)
    ensures
        string_views(c@) == icon_candidates_spec(dir@, string_views(themes@), name@),
{
    let d = chars_of(dir);
    let n = chars_of(name);
    let known = has_known_ext(name);
    let exts = exts_list();
    let mut out: Vec<Vec<char>> = Vec::new();
    let ghost ts = string_views(themes@);
    assert(themes_candidates(d@, ts.take(0), n@) =~= seq![]);
    for i in 0..themes.len()
        invariant
            ts == string_views(themes@),
            d@ == dir@,
            n@ == name@,
            known == known_ext(name@),
            views(exts@) == icon_exts(),
            views(out@) == themes_candidates(d@, ts.take(i as int), n@),
    {
        let t = chars_of(themes[i].as_str());
        let base = if t.len() > 0 && t[0] == '/' {
            t.clone()
        } else {
            join_path(d.as_slice(), t.as_slice())
        };
        assert(base@ == join_any(d@, t@));
        let ghost before = views(out@);
        if known {
            push_per_size(&mut out, base.as_slice(), n.as_slice(), &None);
            let p = join_path(d.as_slice(), n.as_slice());
            let ghost mid = views(out@);
            out.push(p);
            assert(views(out@) =~= mid.push(p@));
        } else {
            push_per_size(&mut out, base.as_slice(), n.as_slice(), &Some(exts_list()));
            let sc = join_path(base.as_slice(), chars_of("scalable").as_slice());
            let ap = join_path(sc.as_slice(), chars_of("apps").as_slice());
            let mut f = n.clone();
            f.push('.');
            f.push('s');
            f.push('v');
            f.push('g');
            proof {
                reveal_strlit("svg");
                assert(f@ =~= dotted(n@, "svg"@));
            }
            let p = join_path(ap.as_slice(), f.as_slice());
            let ghost mid = views(out@);
            out.push(p);
            assert(views(out@) =~= mid.push(p@));
        }
        proof {
            let tk = ts.take(i + 1);
            assert(tk.drop_last() =~= ts.take(i as int));
            assert(tk.last() == t@);
            assert(views(out@) =~= themes_candidates(d@, ts.take(i + 1), n@));
        }
    }
    assert(ts.take(themes@.len() as int) =~= ts);
    push_per_ext(&mut out, d.as_slice(), n.as_slice(), &exts);
    to_strings(&out)
}

/// `t` with `x` appended unless already there.
pub open spec fn add_theme(t: Seq<Seq<char>>, x: Seq<char>) -> Seq<Seq<char>> {
    if t.contains(x) {
        t
    } else {
        t.push(x)
    }
}

/// The themes searched first: the current desktop's (when known), then
/// Adwaita and hicolor, each once.
pub open spec fn preferred_themes(current: Option<Seq<char>>) -> Seq<Seq<char>> {
    let c: Seq<Seq<char>> = match current {
        Some(x) => seq![x],
        None => seq![],
    };
    add_theme(add_theme(c, "Adwaita"@), "hicolor"@)
}

/// The entries of `v` not in `skip`, in order.
pub open spec fn others(v: Seq<Seq<char>>, skip: Seq<Seq<char>>) -> Seq<Seq<char>>
    decreases v.len(),
{
    if v.len() == 0 {
        seq![]
    } else if skip.contains(v.last()) {
        others(v.drop_last(), skip)
    } else {
        others(v.drop_last(), skip).push(v.last())
    }
}

/// The theme search order in an icon directory whose theme subdirectories
/// are `subdirs`: the preferred themes, then every other theme in name order.
pub open spec fn theme_order_spec(current: Option<Seq<char>>, subdirs: Seq<Seq<char>>) -> Seq<Seq<char>> {
    let base = preferred_themes(current);
    let rest = others(subdirs, base);
    base + sorted_order(rest).map_values(|i: int| rest[i])
}

/// Whether `x` is one of `v`.
fn contains_name(v: &Vec<Vec<char>>, x: &[char]) -> (b: bool)
    ensures
        b == views(v@).contains(x@),
{
    for i in 0..v.len()
        invariant
            forall|j: int| 0 <= j < i ==> views(v@)[j] != x@,
    {
        if crate::text::eq_chars(v[i].as_slice(), x) {
            assert(views(v@)[i as int] == x@);
            return true;
        }
    }
    false
}

/// The order in which the themes of an icon directory are searched, given
/// the current desktop's name and the directory's theme subdirectories.
pub fn theme_order(current: Option<&str>, subdirs: &Vec<String>) -> (themes: Vec<String>)
    ensures
        string_views(themes@) == theme_order_spec(
            match current {
                Some(c) => Some(c@),
                None => None,
            },
            string_views(subdirs@),
        ),
{
    let ghost cur: Option<Seq<char>> = match current {
        Some(c) => Some(c@),
        None => None,
    };
    let mut base: Vec<Vec<char>> = Vec::new();
    if let Some(c) = current {
        base.push(chars_of(c));
    }
    let ghost c0 = views(base@);
    assert(c0 =~= match cur {
        Some(x) => seq![x],
        None => Seq::<Seq<char>>::empty(),
    });
    let adw = chars_of("Adwaita");
    if !contains_name(&base, adw.as_slice()) {
        let ghost before = views(base@);
        base.push(adw);
        assert(views(base@) =~= before.push("Adwaita"@));
    }
    assert(views(base@) == add_theme(c0, "Adwaita"@));
    let hic = chars_of("hicolor");
    if !contains_name(&base, hic.as_slice()) {
        let ghost before = views(base@);
        base.push(hic);
        assert(views(base@) =~= before.push("hicolor"@));
    }
    assert(views(base@) == preferred_themes(cur));
    let ghost sd = string_views(subdirs@);
    let mut rest: Vec<Vec<char>> = Vec::new();
    assert(others(sd.take(0), views(base@)) =~= seq![]);
    for i in 0..subdirs.len()
        invariant
            sd == string_views(subdirs@),
            views(base@) == preferred_themes(cur),
            views(rest@) == others(sd.take(i as int), views(base@)),
    {
        let t = chars_of(subdirs[i].as_str());
        let ghost before = views(rest@);
        proof {
            let tk = sd.take(i + 1);
            assert(tk.drop_last() =~= sd.take(i as int));
            assert(tk.last() == t@);
        }
        if !contains_name(&base, t.as_slice()) {
            rest.push(t);
            assert(views(rest@) =~= before.push(sd[i as int]));
        }
    }
    assert(sd.take(subdirs@.len() as int) =~= sd);
    let ord = sort_order(&rest);
    let ghost rv = views(rest@);
    proof {
        sorted_order_is_a_permutation(rv);
    }
    let ghost bv = views(base@);
    let mut out: Vec<Vec<char>> = base;
    for k in 0..ord.len()
        invariant
            rv == views(rest@),
            ord@.len() == rv.len(),
            sorted_order(rv).len() == rv.len(),
            forall|j: int| 0 <= j < ord@.len() ==> #[trigger] ord@[j] as int == sorted_order(rv)[j],
            forall|j: int| 0 <= j < rv.len() ==> 0 <= #[trigger] sorted_order(rv)[j] < rv.len(),
            views(out@) == bv + sorted_order(rv).take(k as int).map_values(|i: int| rv[i]),
    {
        assert(ord@[k as int] as int == sorted_order(rv)[k as int]);
        let ghost before = views(out@);
        out.push(rest[ord[k]].clone());
        proof {
            assert(views(out@) =~= before.push(rv[sorted_order(rv)[k as int]]));
            assert(sorted_order(rv).take(k + 1).map_values(|i: int| rv[i]) =~= sorted_order(rv).take(
                k as int,
            ).map_values(|i: int| rv[i]).push(rv[sorted_order(rv)[k as int]]));
        }
    }
    assert(sorted_order(rv).take(ord@.len() as int) =~= sorted_order(rv));
    to_strings(&out)
}

/// Icon directories per the freedesktop icon theme spec, in search order,
/// from `$XDG_DATA_HOME`, `$HOME` and `$XDG_DATA_DIRS`.
pub open spec fn icon_dirs_spec(
    data_home: Option<Seq<char>>,
    home: Option<Seq<char>>,
    data_dirs: Option<Seq<char>>,
) -> Seq<Seq<char>> {
    let user = match data_home {
        Some(h) => seq![path_join(h, "icons"@)],
        None => match home {
            Some(h) => seq![path_join(h, ".local/share/icons"@)],
            None => seq![],
        },
    };
    let shared = match data_dirs {
        Some(d) => non_empty(pieces(d, ':')).map_values(|p: Seq<char>| path_join(p, "icons"@)),
        None => seq![],
    };
    user + shared + seq!["/usr/local/share/icons"@, "/usr/share/icons"@, "/usr/share/pixmaps"@]
}

/// The icon directories, given the values of `$XDG_DATA_HOME`, `$HOME` and
/// `$XDG_DATA_DIRS` (`None` when unset).
pub fn icon_dirs_from(data_home: Option<String>, home: Option<String>, data_dirs: Option<String>) -> (v: Vec<String>)
    ensures
        string_views(v@) == icon_dirs_spec(opt_view(data_home), opt_view(home), opt_view(data_dirs)),
{
    let mut v: Vec<String> = Vec::new();
    let icons = chars_of("icons");
    match &data_home {
        Some(h) => {
            let p = join_path(chars_of(h.as_str()).as_slice(), icons.as_slice());
            v.push(string_of(p.as_slice()));
        },
        None => match &home {
            Some(h) => {
                let local = chars_of(".local/share/icons");
                let p = join_path(chars_of(h.as_str()).as_slice(), local.as_slice());
                v.push(string_of(p.as_slice()));
            },
            None => {},
        },
    }
    let ghost user = string_views(v@);
    let ghost shared: Seq<Seq<char>> = match opt_view(data_dirs) {
        Some(d) => non_empty(pieces(d, ':')).map_values(|p: Seq<char>| path_join(p, "icons"@)),
        None => seq![],
    };
    if let Some(d) = &data_dirs {
        let parts = keep_non_empty(split_on(chars_of(d.as_str()).as_slice(), ':'));
        for i in 0..parts.len()
            invariant
                views(parts@) == non_empty(pieces(d@, ':')),
                icons@ == "icons"@,
                shared == views(parts@).map_values(|p: Seq<char>| path_join(p, "icons"@)),
                string_views(v@) == user + shared.take(i as int),
        {
            let p = join_path(parts[i].as_slice(), icons.as_slice());
            let ghost before = string_views(v@);
            let x = string_of(p.as_slice());
            v.push(x);
            assert(string_views(v@) =~= before.push(x@));
            assert(views(parts@)[i as int] == parts@[i as int]@);
            assert(shared[i as int] == path_join(parts@[i as int]@, "icons"@));
            assert(shared.take(i + 1) =~= shared.take(i as int).push(shared[i as int]));
            assert(string_views(v@) =~= user + shared.take(i + 1));
        }
        assert(shared.take(parts.len() as int) =~= shared);
    } else {
        assert(string_views(v@) =~= user + shared);
    }
    let ghost mid = string_views(v@);
    v.push(String::from_str("/usr/local/share/icons"));
    v.push(String::from_str("/usr/share/icons"));
    v.push(String::from_str("/usr/share/pixmaps"));
    assert(string_views(v@) =~= mid + seq![
        "/usr/local/share/icons"@,
        "/usr/share/icons"@,
        "/usr/share/pixmaps"@,
    ]);
    v
}

/// Straight-alpha byte `c` of a premultiplied pixel with alpha `a`.
pub open spec fn straight(c: u8, a: u8) -> u8 {
    if a == 0 {
        0
    } else {
        ((c * 255 / (a as int)) % 256) as u8
    }
}

/// Premultiplied RGBA (as rendered SVGs come) to straight alpha, pixel by
/// pixel; alpha itself is kept, fully transparent pixels become black.
pub fn unpremultiply(data: &[u8]) -> (out: Vec<u8>)
    ensures
        out@.len() == 4 * (data@.len() / 4),
        forall|p: int, c: int|
            0 <= p < data@.len() / 4 && 0 <= c < 4 ==> #[trigger] out@[4 * p + c] == if c == 3 {
                data@[4 * p + 3]
            } else {
                straight(data@[4 * p + c], data@[4 * p + 3])
            },
{
    let len = data.len();
    let n = len / 4;
    let mut out: Vec<u8> = Vec::new();
    for p in 0..n
        invariant
            n == data@.len() / 4,
            len == data@.len(),
            out@.len() == 4 * p,
            forall|q: int, c: int|
                0 <= q < p && 0 <= c < 4 ==> #[trigger] out@[4 * q + c] == if c == 3 {
                    data@[4 * q + 3]
                } else {
                    straight(data@[4 * q + c], data@[4 * q + 3])
                },
    {
        assert(4 * p + 3 < data@.len()) by (nonlinear_arith)
            requires
                p < n,
                n == data@.len() / 4,
        ;
        let i = 4 * p;
        let a = data[i + 3] as u32;
        let mut c: usize = 0;
        let ghost before = out@;
        while c < 3
            invariant
                c <= 3,
                i == 4 * p,
                p < n,
                n == data@.len() / 4,
                a == data@[i + 3],
                out@.len() == 4 * p + c,
                forall|k: int| 0 <= k < 4 * p ==> out@[k] == before[k],
                forall|k: int| 0 <= k < c ==> #[trigger] out@[i + k] == straight(data@[i + k], data@[i + 3]),
            decreases 3 - c,
        {
            let v: u8 = if a == 0 {
                0
            } else {
                ((data[i + c] as u32 * 255 / a) % 256) as u8
            };
            out.push(v);
            c += 1;
        }
        out.push(data[i + 3]);
        proof {
            assert forall|q: int, k: int| 0 <= q < p + 1 && 0 <= k < 4 implies #[trigger] out@[4 * q + k]
                == if k == 3 {
                data@[4 * q + 3]
            } else {
                straight(data@[4 * q + k], data@[4 * q + 3])
            } by {
                if q < p {
                    assert(out@[4 * q + k] == before[4 * q + k]);
                } else if k < 3 {
                    assert(out@[i + k] == straight(data@[i + k], data@[i + 3]));
                }
            }
        }
    }
    out
}

/// An icon spec names a file (it holds a `/`) rather than a theme icon.
pub fn icon_is_path(spec: &str) -> (b: bool)
    ensures
        b == spec@.contains('/'),
{
    let cs = chars_of(spec);
    for i in 0..cs.len()
        invariant
            cs@ == spec@,
            forall|j: int| 0 <= j < i ==> cs@[j] != '/',
    {
        if cs[i] == '/' {
            assert(spec@[i as int] == '/');
            return true;
        }
    }
    false
}

/// The image `image::load_from_memory` decodes from `data` (its format
/// guessed from the bytes), as width, height and straight RGBA8 pixels;
/// none when the bytes are no image it can decode.
pub uninterp spec fn raster_rgba(data: Seq<u8>) -> Option<(u32, u32, Seq<u8>)>;

/// `image::load_from_memory`, converted to RGBA8.
#[verifier::external_body]
fn decode_raster(data: &[u8]) -> (r: Option<(u32, u32, Vec<u8>)>)
    ensures
        match r {
            Some((w, h, px)) => raster_rgba(data@) == Some((w, h, px@)),
            None => raster_rgba(data@) is None,
        },
{
    let img = image::load_from_memory(data).ok()?.to_rgba8();
    Some((img.width(), img.height(), img.into_raw()))
}

#[verifier::external_type_specification]
#[verifier::external_body]
pub struct ExSvgTree(usvg::Tree);

/// `usvg::Tree::from_data` with the default options succeeds on `data`:
/// the bytes are an SVG document (gzip-compressed or not) it can read.
pub uninterp spec fn svg_parses(data: Seq<u8>) -> bool;

/// `usvg::Tree::from_data` with the default options. Whether it parses
/// rests on the bytes; the tree may also hold images the document refers
/// to by file name, so nothing more is stated of it.
#[verifier::external_body]
fn parse_svg(data: &[u8]) -> (t: Option<usvg::Tree>)
    ensures
        t is Some <==> svg_parses(data@),
{
    usvg::Tree::from_data(data, &usvg::Options::default()).ok()
}

/// What an icon file's bytes decode to.
pub enum IconData {
    /// A raster image: width, height, straight RGBA8 pixels.
    Raster(u32, u32, Vec<u8>),
    /// An SVG document, still to be rendered at the wanted size.
    Svg(usvg::Tree),
    /// Nothing usable.
    Nothing,
}

/// Decode an icon file: raster formats first; SVG only when the bytes are
/// not a raster image and the file name ends in `.svg`; otherwise nothing.
pub fn decode_icon(data: &[u8], path: &str) -> (r: IconData)
    ensures
        match raster_rgba(data@) {
            Some((w, h, px)) => r matches IconData::Raster(w2, h2, p2) && w2 == w && h2 == h && p2@
                == px,
            None => if has_suffix(path@, ".svg"@) && svg_parses(data@) {
                r is Svg
            } else {
                r is Nothing
            },
        },
{
    if let Some((w, h, px)) = decode_raster(data) {
        return IconData::Raster(w, h, px);
    }
    proof {
        reveal_strlit(".svg");
    }
    let suffix = chars_of(".svg");
    if ends_with_seq(chars_of(path).as_slice(), suffix.as_slice()) {
        match parse_svg(data) {
            Some(t) => IconData::Svg(t),
            None => IconData::Nothing,
        }
    } else {
        IconData::Nothing
    }
}

} // verus!
