//! Keyboard and filter state of the menu, free of any windowing code.
use vstd::prelude::*;

use crate::items::{filter, filter_selects_exactly_the_matches, filter_spec, hay, needle, Item};
use crate::render::Subpixel;
use crate::text::{chars_of, is_ctrl, is_control, lemma_words_occur, lowercase, string_of};

verus! {

/// Rows of context kept above/below the selection while the list scrolls.
pub const SCROLLOFF: usize = 1;

/// Drawn rows are capped; stdin can be huge, so the list scrolls instead of
/// mapping a giant buffer.
pub const MAX_VISIBLE: usize = 64;

/// Upper bound for `-W`: zero or absurd widths would size a degenerate or
/// huge shm buffer.
pub const MAX_WIDTH: u32 = 16384;

/// Upper bound for `-l`.
pub const MAX_LINES: usize = 1000;

/// The lowest top row that still shows `sel`, with `SCROLLOFF` rows of
/// context below it when three or more rows are visible (two rows leave no
/// room for context on both sides, so then only `sel` itself must show).
pub open spec fn lowest_top(sel: usize, visible: usize) -> int {
    let below = if visible >= 3 {
        SCROLLOFF as int
    } else {
        0
    };
    if sel + below + 1 >= visible {
        sel + below + 1 - visible
    } else {
        0
    }
}

/// The highest top row that still shows `sel`, with `SCROLLOFF` rows of
/// context above it when three or more rows are visible.
pub open spec fn highest_top(sel: usize, visible: usize) -> int {
    if visible >= 3 && sel >= SCROLLOFF {
        sel - SCROLLOFF
    } else if visible >= 3 {
        0
    } else {
        sel as int
    }
}

/// Top row of the visible window for selection `sel`, previous top `top`,
/// `visible` rows and `total` matches: the previous top moved as little as
/// possible into the range that shows the selection with its context, then
/// kept from running past the end of the list.
pub open spec fn viewport_spec(sel: usize, top: usize, visible: usize, total: usize) -> int {
    if visible == 0 {
        0
    } else {
        let max_top = if total > visible {
            total - visible
        } else {
            0
        };
        let lo = lowest_top(sel, visible);
        let hi = highest_top(sel, visible);
        let t = if top < lo {
            lo
        } else if top > hi {
            hi
        } else {
            top as int
        };
        if t < max_top {
            t
        } else {
            max_top
        }
    }
}

/// Top row of the visible window: keeps the selection in view with `SCROLLOFF`
/// rows of context on each side, using the previous top as hysteresis so the
/// list does not jitter while the selection moves inside the window.
pub fn viewport_top(sel: usize, top: usize, visible: usize, total: usize) -> (r: usize)
    ensures
        r == viewport_spec(sel, top, visible, total),
        visible > 0 && sel < total ==> r <= sel < r + visible,
{
    if visible == 0 {
        return 0;
    }
    let max_top = if total > visible {
        total - visible
    } else {
        0
    };
    let (lo, hi) = if visible >= 3 {
        (
            if sel >= visible - SCROLLOFF - 1 {
                sel - (visible - SCROLLOFF - 1)
            } else {
                0
            },
            if sel >= SCROLLOFF {
                sel - SCROLLOFF
            } else {
                0
            },
        )
    } else {
        (
            if sel >= visible - 1 {
                sel - (visible - 1)
            } else {
                0
            },
            sel,
        )
    };
    // Below the range the selection (or its context row) falls off the
    // bottom; above it, off the top. Inside it the window stays put.
    let t = if top < lo {
        lo
    } else if top > hi {
        hi
    } else {
        top
    };
    // The list can shrink under a filter: never leave a stale top past the end.
    if t < max_top {
        t
    } else {
        max_top
    }
}

/// Law: the selected row is always inside the window, and the window never
/// runs past the end of the list.
pub proof fn viewport_keeps_the_selection_visible(
    sel: usize,
    top: usize,
    visible: usize,
    total: usize,
)
    requires
        visible >= 1,
        sel < total,
    ensures
        viewport_spec(sel, top, visible, total) <= sel < viewport_spec(sel, top, visible, total)
            + visible,
        total >= visible ==> viewport_spec(sel, top, visible, total) + visible <= total,
{
}

/// Law: with three or more rows and a list longer than the window, a row of
/// context stays above the selection unless the window is at the top, and
/// below it unless the window is at the bottom.
pub proof fn viewport_keeps_context_rows(sel: usize, top: usize, visible: usize, total: usize)
    requires
        visible >= 3,
        total > visible,
        sel < total,
    ensures
        ({
            let t = viewport_spec(sel, top, visible, total);
            &&& (t == 0 || sel >= t + 1)
            &&& (t == total - visible || sel + 1 < t + visible)
        }),
{
}

/// Law: redrawing with the same selection keeps the window where it is (no
/// jitter).
pub proof fn viewport_is_stable(sel: usize, top: usize, visible: usize, total: usize)
    requires
        sel < total,
    ensures
        viewport_spec(sel, viewport_spec(sel, top, visible, total) as usize, visible, total)
            == viewport_spec(sel, top, visible, total),
{
    if visible > 0 {
        let t = viewport_spec(sel, top, visible, total);
        assert((t as usize) as int == t);
    }
}

/// `-W` must be a usable panel width (0 would create a zero-width buffer).
pub fn valid_width(w: u32) -> (b: bool)
    ensures
        b == (1 <= w <= MAX_WIDTH),
{
    1 <= w && w <= MAX_WIDTH
}

/// `-l 0` means "auto" (see `row_capacity`); the cap keeps the pool hint sane.
pub fn valid_lines(n: usize) -> (b: bool)
    ensures
        b == (n <= MAX_LINES),
{
    n <= MAX_LINES
}

/// Row capacity for the shm pool: `-l` rows, or the cap when it is "auto".
pub fn row_capacity(lines: usize) -> (r: usize)
    ensures
        r == if lines > 0 {
            lines
        } else {
            MAX_VISIBLE
        },
{
    if lines > 0 {
        lines
    } else {
        MAX_VISIBLE
    }
}

/// Rows the list shows for `matches` matching items: `-l` rows when set, else
/// up to `MAX_VISIBLE`, never more than there are matches.
pub fn visible_rows(lines: usize, matches: usize) -> (r: usize)
    ensures
        r == if lines > 0 {
            if lines < matches {
                lines
            } else {
                matches
            }
        } else if matches < MAX_VISIBLE {
            matches
        } else {
            MAX_VISIBLE
        },
{
    if lines > 0 {
        if lines < matches {
            lines
        } else {
            matches
        }
    } else if matches < MAX_VISIBLE {
        matches
    } else {
        MAX_VISIBLE
    }
}

/// Text antialiasing for the output density: LCD subpixel (`Rgb`) pays off on
/// 1× outputs; on HiDPI the pixel grid is already dense, so it only adds
/// colour fringing and paint time there.
pub fn text_aa(scale: u32) -> (s: Subpixel)
    ensures
        s == if scale > 1 {
            Subpixel::Gray
        } else {
            Subpixel::Rgb
        },
{
    if scale > 1 {
        Subpixel::Gray
    } else {
        Subpixel::Rgb
    }
}

/// Menu outcome: `None` while running, `Some` once the user (or an error) closed it.
#[derive(Debug, PartialEq, Eq)]
pub enum Done {
    Cancel,
    Select(String),
}

/// How the program ends once the menu is finished.
#[derive(Debug, PartialEq, Eq)]
pub enum Finish {
    /// Input ended without a single item: report it and fail.
    NoItems,
    /// `--run`: launch the selected command line, then succeed.
    Launch(String),
    /// Print the selected value, then succeed.
    Print(String),
    /// Cancelled: fail without output.
    Fail,
}

/// What the finished menu does: report an empty input, launch (`--run`) or
/// print the selection, or fail on a cancel.
pub fn finish_plan(done: Option<Done>, no_items: bool, run: bool) -> (f: Finish)
    ensures
        no_items ==> f == Finish::NoItems,
        !no_items ==> match done {
            Some(Done::Select(v)) => if run {
                f matches Finish::Launch(c) && c@ == v@
            } else {
                f matches Finish::Print(p) && p@ == v@
            },
            _ => f == Finish::Fail,
        },
{
    if no_items {
        return Finish::NoItems;
    }
    match done {
        Some(Done::Select(v)) => if run {
            Finish::Launch(v)
        } else {
            Finish::Print(v)
        },
        _ => Finish::Fail,
    }
}

/// The keys the menu reacts to; every other key is `Other` (its text, if any,
/// is handed over separately).
#[derive(Debug, Clone, Copy, PartialEq, Eq)]
pub enum Key {
    Escape,
    Return,
    KpEnter,
    BackSpace,
    Up,
    Down,
    PageUp,
    PageDown,
    Home,
    End,
    Tab,
    Other,
}

/// Modifier state of a key press.
#[derive(Debug, Clone, Copy, PartialEq, Eq, Default)]
pub struct Mods {
    pub ctrl: bool,
    pub shift: bool,
}

/// Keyboard/filter state.
pub struct MenuState {
    /// The typed filter text.
    pub query: String,
    /// Indices of the matching items, in display order.
    pub matches: Vec<usize>,
    /// Position of the highlighted row within `matches`.
    pub sel: usize,
    /// Set once the menu is finished.
    pub done: Option<Done>,
    /// Values picked by Ctrl-Return while the menu keeps running (multi-select).
    pub picked: Vec<String>,
}

/// The character sequences of a list of strings.
pub open spec fn strings(v: Seq<String>) -> Seq<Seq<char>> {
    v.map_values(|s: String| s@)
}

/// The menu finished with a selection of `v`.
pub open spec fn selects(d: Option<Done>, v: Seq<char>) -> bool {
    d matches Some(Done::Select(s)) && s@ == v
}

/// The menu finished by cancelling.
pub open spec fn cancels(d: Option<Done>) -> bool {
    d matches Some(Done::Cancel)
}

/// The matches list agrees with the query: the state invariant that every
/// key keeps.
pub open spec fn in_sync(m: MenuState, items: Seq<Item>, ci: bool) -> bool {
    m.matches@ == filter_spec(items, m.query@, ci)
}

/// Every match is an index into `items` and the selection is a match (or 0
/// when there are none).
pub open spec fn well_formed(m: MenuState, items: Seq<Item>) -> bool {
    &&& forall|k: int| 0 <= k < m.matches@.len() ==> (#[trigger] m.matches@[k] as int) < items.len()
    &&& (m.sel < m.matches@.len() || m.sel == 0)
}

/// The value Return picks: the highlighted item, or the typed line when
/// there is no match.
pub open spec fn pick_spec(m: MenuState, items: Seq<Item>) -> Seq<char> {
    if m.sel < m.matches@.len() {
        items[m.matches@[m.sel as int] as int].value@
    } else {
        m.query@
    }
}

/// Only the selection moved (to `sel`).
pub open spec fn moved_to(pre: MenuState, post: MenuState, sel: int) -> bool {
    &&& post.query@ == pre.query@
    &&& post.matches@ == pre.matches@
    &&& post.done == pre.done
    &&& strings(post.picked@) == strings(pre.picked@)
    &&& post.sel == sel
}

/// Nothing changed.
pub open spec fn unchanged(pre: MenuState, post: MenuState) -> bool {
    moved_to(pre, post, pre.sel as int)
}

/// Only `done` changed.
pub open spec fn finished_with(pre: MenuState, post: MenuState) -> bool {
    &&& post.query@ == pre.query@
    &&& post.matches@ == pre.matches@
    &&& post.sel == pre.sel
    &&& strings(post.picked@) == strings(pre.picked@)
}

/// The query became `q` and the list was refiltered (selection back to the top).
pub open spec fn requeried(
    pre: MenuState,
    post: MenuState,
    q: Seq<char>,
    items: Seq<Item>,
    ci: bool,
) -> bool {
    &&& post.query@ == q
    &&& post.matches@ == filter_spec(items, q, ci)
    &&& post.sel == 0
    &&& post.done == pre.done
    &&& strings(post.picked@) == strings(pre.picked@)
}

/// Plain Return: cancel on an empty query (nothing is shown to pick from),
/// otherwise select the highlighted value, or the typed line with no match.
pub open spec fn entered(pre: MenuState, post: MenuState, items: Seq<Item>) -> bool {
    &&& finished_with(pre, post)
    &&& if pre.query@.len() == 0 {
        cancels(post.done)
    } else {
        selects(post.done, pick_spec(pre, items))
    }
}

/// Backspace: drop the last character and refilter; no-op on an empty query.
pub open spec fn backspaced(pre: MenuState, post: MenuState, items: Seq<Item>, ci: bool) -> bool {
    if pre.query@.len() > 0 {
        requeried(pre, post, pre.query@.drop_last(), items, ci)
    } else {
        unchanged(pre, post)
    }
}

/// Length of `q` without its trailing spaces.
pub open spec fn trimmed_len(q: Seq<char>) -> nat
    decreases q.len(),
{
    if q.len() > 0 && q.last() == ' ' {
        trimmed_len(q.drop_last())
    } else {
        q.len()
    }
}

/// Position of the last space before `end`, or 0 when there is none.
pub open spec fn last_space_before(q: Seq<char>, end: int) -> int
    decreases end,
{
    if end <= 0 {
        0
    } else if q[end - 1] == ' ' {
        end - 1
    } else {
        last_space_before(q, end - 1)
    }
}

/// Ctrl-W (readline style): the query without its last word and the
/// separator before it, trailing spaces ignored.
pub open spec fn killed_word(q: Seq<char>) -> Seq<char> {
    q.take(last_space_before(q, trimmed_len(q) as int))
}

/// Tab: complete the highlighted item's text into the query and keep that
/// item highlighted; nothing happens without a match or when the query
/// already is that text.
pub open spec fn tabbed(pre: MenuState, post: MenuState, items: Seq<Item>, ci: bool) -> bool {
    if pre.sel < pre.matches@.len() && items[pre.matches@[pre.sel as int] as int].text@
        != pre.query@ {
        let i = pre.matches@[pre.sel as int];
        let text = items[i as int].text@;
        &&& post.query@ == text
        &&& post.matches@ == filter_spec(items, text, ci)
        &&& post.done == pre.done
        &&& strings(post.picked@) == strings(pre.picked@)
        &&& if post.matches@.contains(i) {
            &&& post.sel < post.matches@.len()
            &&& post.matches@[post.sel as int] == i
            &&& forall|p: int| 0 <= p < post.sel ==> post.matches@[p] != i
        } else {
            post.sel == 0
        }
    } else {
        unchanged(pre, post)
    }
}

/// The selection one row down, stopping at the last match.
pub open spec fn sel_down(m: MenuState) -> int {
    if m.sel + 1 < m.matches@.len() {
        m.sel + 1
    } else {
        m.sel as int
    }
}

/// The selection one row up, stopping at the top.
pub open spec fn sel_up(m: MenuState) -> int {
    if m.sel > 0 {
        m.sel - 1
    } else {
        m.sel as int
    }
}

/// The last position of the match list (0 when it is empty).
pub open spec fn last_pos(m: MenuState) -> int {
    if m.matches@.len() > 0 {
        m.matches@.len() - 1
    } else {
        0
    }
}

/// A page: the visible row count, at least one row.
pub open spec fn page(visible: usize) -> int {
    if visible > 0 {
        visible as int
    } else {
        1
    }
}

/// What a typed text does (the `Other` key): xkb hands ctrl chords over as
/// control characters; the bound ones act, the rest are never typed in.
pub open spec fn typed(
    pre: MenuState,
    post: MenuState,
    t: Seq<char>,
    items: Seq<Item>,
    ci: bool,
) -> bool {
    if t.len() == 0 {
        unchanged(pre, post)
    } else {
        let c = t[0] as u32;
        if c == 0x03 || c == 0x07 {
            finished_with(pre, post) && cancels(post.done)
        } else if c == 0x08 {
            backspaced(pre, post, items, ci)
        } else if c == 0x0a || c == 0x0d {
            entered(pre, post, items)
        } else if c == 0x15 {
            if pre.query@.len() > 0 {
                requeried(pre, post, Seq::empty(), items, ci)
            } else {
                unchanged(pre, post)
            }
        } else if c == 0x0e {
            moved_to(pre, post, sel_down(pre))
        } else if c == 0x10 {
            moved_to(pre, post, sel_up(pre))
        } else if c == 0x17 {
            requeried(pre, post, killed_word(pre.query@), items, ci)
        } else if exists|k: int| 0 <= k < t.len() && is_ctrl(#[trigger] t[k]) {
            unchanged(pre, post)
        } else {
            requeried(pre, post, pre.query@ + t, items, ci)
        }
    }
}

/// The effect of one key press.
pub open spec fn key_effect(
    pre: MenuState,
    post: MenuState,
    key: Key,
    text: Option<Seq<char>>,
    mods: Mods,
    items: Seq<Item>,
    ci: bool,
    visible: usize,
) -> bool {
    match key {
        Key::Escape => finished_with(pre, post) && cancels(post.done),
        Key::Return | Key::KpEnter => if mods.ctrl {
            &&& post.query@ == pre.query@
            &&& post.matches@ == pre.matches@
            &&& post.done == pre.done
            &&& strings(post.picked@) == strings(pre.picked@).push(pick_spec(pre, items))
            &&& post.sel == sel_down(pre)
        } else if mods.shift {
            finished_with(pre, post) && selects(post.done, pre.query@)
        } else {
            entered(pre, post, items)
        },
        Key::BackSpace => backspaced(pre, post, items, ci),
        Key::Up => moved_to(pre, post, sel_up(pre)),
        Key::Down => moved_to(pre, post, sel_down(pre)),
        Key::PageUp => moved_to(
            pre,
            post,
            if pre.sel >= page(visible) {
                pre.sel - page(visible)
            } else {
                0
            },
        ),
        Key::PageDown => moved_to(
            pre,
            post,
            if pre.sel + page(visible) < last_pos(pre) {
                pre.sel + page(visible)
            } else {
                last_pos(pre)
            },
        ),
        Key::Home => moved_to(pre, post, 0),
        Key::End => moved_to(pre, post, last_pos(pre)),
        Key::Tab => tabbed(pre, post, items, ci),
        Key::Other => match text {
            Some(t) => typed(pre, post, t, items, ci),
            None => unchanged(pre, post),
        },
    }
}

impl MenuState {
    /// Fresh state over `count` items: empty query, everything matching.
    pub fn new(count: usize) -> (m: MenuState)
        ensures
            m.query@ == Seq::<char>::empty(),
            m.matches@ == Seq::new(count as nat, |i: int| i as usize),
            m.sel == 0,
            m.done is None,
            m.picked@.len() == 0,
    {
        let mut matches: Vec<usize> = Vec::new();
        for i in 0..count
            invariant
                matches@ == Seq::new(i as nat, |k: int| k as usize),
        {
            matches.push(i);
            assert(matches@ =~= Seq::new((i + 1) as nat, |k: int| k as usize));
        }
        MenuState { query: String::new(), matches, sel: 0, done: None, picked: Vec::new() }
    }

    /// Recompute the matches for the current query; selection back to the top.
    pub fn refilter(&mut self, items: &[Item], ci: bool)
        ensures
            final(self).query@ == old(self).query@,
            final(self).matches@ == filter_spec(items@, old(self).query@, ci),
            final(self).sel == 0,
            final(self).done == old(self).done,
            final(self).picked == old(self).picked,
    {
        self.matches = filter(items, self.query.as_str(), ci);
        self.sel = 0;
    }

    /// The value Return picks: the highlighted item, or (dmenu/wmenu contract)
    /// the typed line when there is no match — that's how `echo "" | rmenu -p …`
    /// prompt-style scripts work.
    pub fn pick_value(&self, items: &[Item]) -> (v: String)
        requires
            well_formed(*self, items@),
        ensures
            v@ == pick_spec(*self, items@),
    {
        if self.sel < self.matches.len() {
            items[self.matches[self.sel]].value.clone()
        } else {
            self.query.clone()
        }
    }

    /// Plain Return: select the highlighted item, or cancel on an empty query
    /// (with the list hidden there is nothing visible to pick, so Enter
    /// cancels instead of selecting blind).
    pub fn enter(&mut self, items: &[Item])
        requires
            well_formed(*old(self), items@),
        ensures
            entered(*old(self), *final(self), items@),
    {
        if self.query.as_str().is_empty() {
            self.done = Some(Done::Cancel);
        } else {
            let v = self.pick_value(items);
            self.done = Some(Done::Select(v));
        }
    }

    /// Take in items that streamed in since the last tick, keeping the
    /// highlighted row steady; once input has `ended` without a single item
    /// the menu finishes cancelled (and `no_items` records why). Returns
    /// whether the list changed (a redraw is due).
    pub fn sync_items(
        &mut self,
        items: &mut Vec<Item>,
        fresh: Vec<Item>,
        ended: bool,
        no_items: &mut bool,
        ci: bool,
    ) -> (changed: bool)
        ensures
            final(items)@ == old(items)@ + fresh@,
            changed == (fresh@.len() > 0),
            final(self).query@ == old(self).query@,
            final(self).picked == old(self).picked,
            changed ==> final(self).matches@ == filter_spec(final(items)@, old(self).query@, ci),
            changed ==> final(self).sel == if old(self).sel + 1 < final(self).matches@.len() {
                old(self).sel as int
            } else if final(self).matches@.len() > 0 {
                final(self).matches@.len() - 1
            } else {
                0
            },
            !changed ==> final(self).matches == old(self).matches && final(self).sel == old(self).sel,
            in_sync(*old(self), old(items)@, ci) ==> in_sync(*final(self), final(items)@, ci),
            ({
                let finish = ended && final(items)@.len() == 0 && !*old(no_items);
                &&& *final(no_items) == (*old(no_items) || finish)
                &&& finish ==> final(self).done == Some(Done::Cancel)
                &&& !finish ==> final(self).done == old(self).done
            }),
    {
        let changed = fresh.len() > 0;
        if !changed {
            assert(items@ + fresh@ =~= items@);
        }
        if changed {
            let sel = self.sel;
            let mut fresh = fresh;
            items.append(&mut fresh);
            self.refilter(items.as_slice(), ci);
            let n = self.matches.len();
            let last = if n > 0 {
                n - 1
            } else {
                0
            };
            self.sel = if sel < last {
                sel
            } else {
                last
            };
        }
        if ended && items.len() == 0 && !*no_items {
            *no_items = true;
            self.done = Some(Done::Cancel);
        }
        changed
    }

    /// Replace the query by `q` and refilter.
    fn set_query(&mut self, q: &[char], items: &[Item], ci: bool)
        ensures
            requeried(*old(self), *final(self), q@, items@, ci),
    {
        self.query = string_of(q);
        self.refilter(items, ci);
    }

    /// Backspace (and Ctrl-H).
    fn backspace(&mut self, items: &[Item], ci: bool)
        ensures
            backspaced(*old(self), *final(self), items@, ci),
    {
        let q = chars_of(self.query.as_str());
        if q.len() > 0 {
            let q2 = slice_prefix(&q, q.len() - 1);
            assert(q2@ =~= q@.drop_last());
            self.set_query(q2.as_slice(), items, ci);
        }
    }

    /// One row down, stopping at the last match.
    fn down(&mut self)
        ensures
            moved_to(*old(self), *final(self), sel_down(*old(self))),
    {
        if self.matches.len() > 0 && self.sel < self.matches.len() - 1 {
            self.sel += 1;
        }
    }

    /// One row up, stopping at the top.
    fn up(&mut self)
        ensures
            moved_to(*old(self), *final(self), sel_up(*old(self))),
    {
        if self.sel > 0 {
            self.sel -= 1;
        }
    }

    /// Handle one key press. `text` is the key's UTF-8 text, `visible` the
    /// number of rows on screen (a page for PageUp/PageDown).
    pub fn on_key(
        &mut self,
        key: Key,
        text: Option<String>,
        mods: Mods,
        items: &[Item],
        ci: bool,
        visible: usize,
    )
        requires
            well_formed(*old(self), items@),
            key is PageDown ==> old(self).sel + visible < usize::MAX,
        ensures
            key_effect(
                *old(self),
                *final(self),
                key,
                match text {
                    Some(t) => Some(t@),
                    None => None,
                },
                mods,
                items@,
                ci,
                visible,
            ),
    {
        match key {
            Key::Escape => {
                self.done = Some(Done::Cancel);
            },
            Key::Return | Key::KpEnter => {
                if mods.ctrl {
                    // Ctrl-Return: pick the highlighted entry, keep the menu open
                    // so scripts can multi-select; advance so repeated presses
                    // walk the list.
                    let v = self.pick_value(items);
                    self.picked.push(v);
                    self.down();
                    proof {
                        assert(strings(self.picked@) =~= strings(old(self).picked@).push(
                            pick_spec(*old(self), items@),
                        ));
                    }
                } else if mods.shift {
                    // Shift-Return: submit exactly what's typed, matches or not.
                    self.done = Some(Done::Select(self.query.clone()));
                } else {
                    self.enter(items);
                }
            },
            Key::BackSpace => self.backspace(items, ci),
            Key::Up => self.up(),
            Key::Down => self.down(),
            Key::PageUp => {
                let p = if visible > 0 {
                    visible
                } else {
                    1
                };
                self.sel = if self.sel >= p {
                    self.sel - p
                } else {
                    0
                };
            },
            Key::PageDown => {
                let p = if visible > 0 {
                    visible
                } else {
                    1
                };
                let last = if self.matches.len() > 0 {
                    self.matches.len() - 1
                } else {
                    0
                };
                self.sel = if self.sel + p < last {
                    self.sel + p
                } else {
                    last
                };
            },
            Key::Home => {
                self.sel = 0;
            },
            Key::End => {
                self.sel = if self.matches.len() > 0 {
                    self.matches.len() - 1
                } else {
                    0
                };
            },
            Key::Tab => self.complete(items, ci),
            Key::Other => {
                if let Some(t) = text {
                    self.on_text(t, items, ci);
                }
            },
        }
    }

    /// Tab: dmenu habit, complete the highlighted item into the query.
    fn complete(&mut self, items: &[Item], ci: bool)
        requires
            well_formed(*old(self), items@),
        ensures
            tabbed(*old(self), *final(self), items@, ci),
    {
        if self.sel < self.matches.len() {
            let i = self.matches[self.sel];
            if items[i].text != self.query {
                self.query = items[i].text.clone();
                self.refilter(items, ci);
                // refilter resets sel to 0; anchor back on the completed item
                // (prefix ties like "libreoffice" vs "libreoffice-stable").
                if let Some(p) = position_of(&self.matches, i) {
                    self.sel = p;
                }
            }
        }
    }

    /// Typed text, including the control characters xkb produces for ctrl chords.
    #[verifier::loop_isolation(false)]
    fn on_text(&mut self, t: String, items: &[Item], ci: bool)
        requires
            well_formed(*old(self), items@),
        ensures
            typed(*old(self), *final(self), t@, items@, ci),
    {
        let tc = chars_of(t.as_str());
        if tc.len() == 0 {
            return;
        }
        let c = tc[0] as u32;
        assert(tc@ == t@);
        if c == 0x03 || c == 0x07 {
            // C-c / C-g
            self.done = Some(Done::Cancel);
        } else if c == 0x08 {
            // C-h = backspace
            self.backspace(items, ci);
        } else if c == 0x0a || c == 0x0d {
            // C-j / C-m = Return
            self.enter(items);
        } else if c == 0x15 {
            // C-u: delete everything left of the caret (end of line)
            if !self.query.as_str().is_empty() {
                let empty: Vec<char> = Vec::new();
                self.set_query(empty.as_slice(), items, ci);
            }
        } else if c == 0x0e {
            self.down();
        } else if c == 0x10 {
            self.up();
        } else if c == 0x17 {
            // C-w: kill the last word and its separator (readline style).
            let q = chars_of(self.query.as_str());
            let k = kill_word(&q);
            self.set_query(k.as_slice(), items, ci);
        } else {
            let mut k: usize = 0;
            while k < tc.len()
                invariant
                    tc@ == t@,
                    k <= tc@.len(),
                    forall|j: int| 0 <= j < k ==> !is_ctrl(#[trigger] tc@[j]),
                decreases tc@.len() - k,
            {
                if is_control(tc[k]) {
                    assert(is_ctrl(t@[k as int]));
                    return;
                }
                k += 1;
            }
            let mut q = chars_of(self.query.as_str());
            let mut tail = tc.clone();
            q.append(&mut tail);
            self.set_query(q.as_slice(), items, ci);
        }
    }
}

/// Law: a fresh menu over all the items is in sync and well formed.
pub proof fn fresh_menu_is_in_sync(m: MenuState, items: Seq<Item>, ci: bool)
    requires
        m.query@ == Seq::<char>::empty(),
        m.matches@ == Seq::new(items.len(), |i: int| i as usize),
        m.sel == 0,
        items.len() <= usize::MAX,
    ensures
        in_sync(m, items, ci),
        well_formed(m, items),
{
}

/// Law: every key keeps the match list in step with the query.
pub proof fn key_keeps_matches_in_sync(
    pre: MenuState,
    post: MenuState,
    key: Key,
    text: Option<Seq<char>>,
    mods: Mods,
    items: Seq<Item>,
    ci: bool,
    visible: usize,
)
    requires
        in_sync(pre, items, ci),
        key_effect(pre, post, key, text, mods, items, ci, visible),
    ensures
        in_sync(post, items, ci),
{
}

/// Law: every key keeps the state well formed: the matches index the items
/// and the selection stays within them.
pub proof fn key_keeps_well_formed(
    pre: MenuState,
    post: MenuState,
    key: Key,
    text: Option<Seq<char>>,
    mods: Mods,
    items: Seq<Item>,
    ci: bool,
    visible: usize,
)
    requires
        items.len() <= usize::MAX,
        in_sync(pre, items, ci),
        well_formed(pre, items),
        key_effect(pre, post, key, text, mods, items, ci, visible),
    ensures
        well_formed(post, items),
{
    filter_selects_exactly_the_matches(items, post.query@, ci);
}

/// Law: typing a printable character and then Backspace gives back the query
/// and the match list, with the selection at the top and the menu running as
/// before.
pub proof fn backspace_undoes_a_typed_character(
    m0: MenuState,
    m1: MenuState,
    m2: MenuState,
    c: char,
    mods: Mods,
    items: Seq<Item>,
    ci: bool,
    visible: usize,
)
    requires
        in_sync(m0, items, ci),
        !is_ctrl(c),
        key_effect(m0, m1, Key::Other, Some(seq![c]), mods, items, ci, visible),
        key_effect(m1, m2, Key::BackSpace, None, Mods { ctrl: false, shift: false }, items, ci, visible),
    ensures
        m2.query@ == m0.query@,
        m2.matches@ == m0.matches@,
        m2.sel == 0,
        m2.done == m0.done,
{
    let t = seq![c];
    assert(!(exists|k: int| 0 <= k < t.len() && is_ctrl(#[trigger] t[k])));
    assert(m1.query@ == m0.query@ + t);
    assert((m0.query@ + t).drop_last() =~= m0.query@);
}

proof fn lemma_trimmed_len_spaces(q: Seq<char>, n: nat)
    requires
        q.len() == 0 || q.last() != ' ',
    ensures
        trimmed_len(q + Seq::new(n, |i: int| ' ')) == q.len(),
    decreases n,
{
    let sp = Seq::new(n, |i: int| ' ');
    if n == 0 {
        assert(q + sp =~= q);
    } else {
        let s1 = Seq::new((n - 1) as nat, |i: int| ' ');
        assert((q + sp).drop_last() =~= q + s1);
        assert((q + sp).last() == ' ');
        lemma_trimmed_len_spaces(q, (n - 1) as nat);
    }
}

proof fn lemma_last_space_in_word(a: Seq<char>, w: Seq<char>, s: Seq<char>, end: int)
    requires
        forall|j: int| 0 <= j < w.len() ==> w[j] != ' ',
        a.len() + 1 <= end <= a.len() + 1 + w.len(),
    ensures
        last_space_before(a + seq![' '] + w + s, end) == a.len(),
    decreases end,
{
    let q = a + seq![' '] + w + s;
    if end == a.len() + 1 {
        assert(q[end - 1] == ' ');
    } else {
        assert(q[end - 1] == w[end - 1 - a.len() - 1]);
        lemma_last_space_in_word(a, w, s, end - 1);
    }
}

/// Law: Ctrl-W removes only the last word and the space before it: for a
/// query `a + " " + w` (a word `w` with no space, then any trailing spaces)
/// the result is `a`, every earlier word kept.
pub proof fn ctrl_w_kills_only_the_last_word(a: Seq<char>, w: Seq<char>, n: nat)
    requires
        w.len() > 0,
        forall|j: int| 0 <= j < w.len() ==> w[j] != ' ',
    ensures
        killed_word(a + seq![' '] + w + Seq::new(n, |i: int| ' ')) == a,
{
    let sp = Seq::new(n, |i: int| ' ');
    let head = a + seq![' '] + w;
    let q = head + sp;
    assert(head.last() == w.last());
    lemma_trimmed_len_spaces(head, n);
    assert(trimmed_len(q) == a.len() + 1 + w.len());
    lemma_last_space_in_word(a, w, sp, (a.len() + 1 + w.len()) as int);
    assert(q.take(a.len() as int) =~= a);
}

/// Law: whatever Ctrl-W leaves of the query is a prefix of it.
pub proof fn ctrl_w_keeps_a_prefix(q: Seq<char>)
    ensures
        killed_word(q).len() <= q.len(),
        killed_word(q) == q.take(killed_word(q).len() as int),
{
    lemma_trimmed_len_le(q);
    lemma_last_space_bound(q, trimmed_len(q) as int);
}

proof fn lemma_trimmed_len_le(q: Seq<char>)
    ensures
        trimmed_len(q) <= q.len(),
    decreases q.len(),
{
    if q.len() > 0 && q.last() == ' ' {
        lemma_trimmed_len_le(q.drop_last());
    }
}

proof fn lemma_last_space_bound(q: Seq<char>, end: int)
    requires
        end <= q.len(),
    ensures
        0 <= last_space_before(q, end),
        end <= 0 || last_space_before(q, end) < end,
    decreases end,
{
    if end > 0 && q[end - 1] != ' ' {
        lemma_last_space_bound(q, end - 1);
    }
}

/// Law: Tab completes the highlighted item into the query and that item stays
/// highlighted after the refilter (for `-i`, given the item's lowercase copy
/// is its text lowercased, as `items::parse` builds it).
pub proof fn tab_keeps_the_completed_item_selected(
    pre: MenuState,
    post: MenuState,
    items: Seq<Item>,
    ci: bool,
)
    requires
        items.len() <= usize::MAX,
        well_formed(pre, items),
        pre.sel < pre.matches@.len(),
        items[pre.matches@[pre.sel as int] as int].text@ != pre.query@,
        ci ==> items[pre.matches@[pre.sel as int] as int].lc@ == lowercase(
            items[pre.matches@[pre.sel as int] as int].text@,
        ),
        tabbed(pre, post, items, ci),
    ensures
        post.query@ == items[pre.matches@[pre.sel as int] as int].text@,
        post.sel < post.matches@.len(),
        post.matches@[post.sel as int] == pre.matches@[pre.sel as int],
{
    let i = pre.matches@[pre.sel as int];
    let it = items[i as int];
    let text = it.text@;
    filter_selects_exactly_the_matches(items, text, ci);
    if text.len() > 0 {
        let q = needle(text, ci);
        assert(hay(it, ci) == q);
        lemma_words_occur(q);
        assert(crate::items::item_matches(it, crate::text::words(q), ci));
    }
    assert((pre.matches@[pre.sel as int] as int) < items.len());
    assert(filter_spec(items, text, ci).contains((i as int) as usize));
    assert(post.matches@.contains(i));
}

/// First position of `x` in `v`.
fn position_of(v: &Vec<usize>, x: usize) -> (r: Option<usize>)
    ensures
        match r {
            Some(p) => p < v@.len() && v@[p as int] == x && forall|t: int|
                0 <= t < p ==> v@[t] != x,
            None => !v@.contains(x),
        },
{
    let mut p: usize = 0;
    while p < v.len()
        invariant
            p <= v@.len(),
            forall|t: int| 0 <= t < p ==> v@[t] != x,
        decreases v@.len() - p,
    {
        if v[p] == x {
            return Some(p);
        }
        p += 1;
    }
    None
}

/// The first `n` elements of `v`.
fn slice_prefix(v: &Vec<char>, n: usize) -> (r: Vec<char>)
    requires
        n <= v@.len(),
    ensures
        r@ == v@.take(n as int),
{
    let mut r: Vec<char> = Vec::new();
    for i in 0..n
        invariant
            n <= v@.len(),
            r@ == v@.take(i as int),
    {
        r.push(v[i]);
        assert(r@ =~= v@.take(i + 1));
    }
    r
}

/// `killed_word` on a concrete query.
fn kill_word(q: &Vec<char>) -> (r: Vec<char>)
    ensures
        r@ == killed_word(q@),
{
    let mut end = q.len();
    assert(q@.take(end as int) =~= q@);
    while end > 0 && q[end - 1] == ' '
        invariant
            end <= q@.len(),
            trimmed_len(q@.take(end as int)) == trimmed_len(q@),
        decreases end,
    {
        assert(q@.take(end as int).drop_last() =~= q@.take(end - 1));
        end -= 1;
    }
    assert(trimmed_len(q@.take(end as int)) == end) by {
        if end > 0 {
            assert(q@.take(end as int).last() == q@[end - 1]);
        }
    }
    let mut k = end;
    while k > 0 && q[k - 1] != ' '
        invariant
            k <= end <= q@.len(),
            last_space_before(q@, k as int) == last_space_before(q@, end as int),
        decreases k,
    {
        k -= 1;
    }
    let start = if k > 0 {
        k - 1
    } else {
        0
    };
    slice_prefix(q, start)
}

} // verus!
