//! What each frame of the menu shows: which rows, how tall the panel is,
//! where it sits on the output, and where the scroll indicator goes.
use vstd::prelude::*;

use crate::menu::{viewport_spec, viewport_top, visible_rows, MenuState, MAX_VISIBLE};
use crate::render::{overflows, scroll_thumb, thumb_len, thumb_offset};

verus! {

/// Horizontal content padding of the panel (logical px).
pub const PAD: u32 = 12;

/// Gap between the panel and the top edge of the output (logical px).
pub const TOP_MARGIN: i32 = 32;

/// What one frame of the menu shows.
pub struct FramePlan {
    /// Rows shown below the input bar.
    pub visible: usize,
    /// Scroll offset: the position in the matches of the first row.
    pub top: usize,
    /// The shown rows, top to bottom: the item each row shows, and whether it
    /// is the highlighted one.
    pub rows: Vec<(usize, bool)>,
    /// Panel height the frame heads for: the input bar plus the rows.
    pub target_h: u32,
}

/// Rows the list may show: `-l` rows (or up to `MAX_VISIBLE`), never more
/// than there are matches.
pub open spec fn visible_spec(lines: usize, matches: usize) -> int {
    if lines > 0 {
        if lines < matches {
            lines as int
        } else {
            matches as int
        }
    } else if matches < MAX_VISIBLE {
        matches as int
    } else {
        MAX_VISIBLE as int
    }
}

/// Rows shown: none while the query is empty (Spotlight: just the input
/// bar), else as many as fit.
pub open spec fn shown_rows(m: MenuState, lines: usize) -> int {
    if m.query@.len() == 0 {
        0
    } else {
        visible_spec(lines, m.matches.len())
    }
}

/// The scroll offset of the frame: moved to keep the selection in view with
/// a row of context, or left as it was when no rows are shown.
pub open spec fn frame_top(m: MenuState, top: usize, lines: usize) -> int {
    let v = shown_rows(m, lines);
    if v > 0 {
        viewport_spec(m.sel, top, v as usize, m.matches.len())
    } else {
        top as int
    }
}

/// Plan the next frame from the menu state, the previous scroll offset
/// `top`, the `-l` row count `lines` and the row height.
pub fn plan_frame(m: &MenuState, top: usize, lines: usize, row_h: u32) -> (p: FramePlan)
    requires
        shown_rows(*m, lines) < u32::MAX,
        row_h * (shown_rows(*m, lines) + 1) <= u32::MAX,
    ensures
        p.visible == shown_rows(*m, lines),
        p.top == frame_top(*m, top, lines),
        p.top + p.visible <= m.matches@.len() || p.visible == 0,
        p.rows@.len() == p.visible,
        forall|i: int|
            0 <= i < p.visible ==> #[trigger] p.rows@[i] == (
                m.matches@[p.top + i],
                p.top + i == m.sel,
            ),
        p.target_h == row_h * (p.visible + 1),
{
    let total = m.matches.len();
    let visible = if m.query.as_str().is_empty() {
        0
    } else {
        visible_rows(lines, total)
    };
    let mut rows: Vec<(usize, bool)> = Vec::new();
    let mut t = top;
    if visible > 0 {
        t = viewport_top(m.sel, top, visible, total);
        let end = if t + visible < total {
            t + visible
        } else {
            total
        };
        let mut k = t;
        while k < end
            invariant
                t <= k <= end,
                end == t + visible,
                end <= m.matches@.len(),
                rows@.len() == k - t,
                forall|i: int|
                    0 <= i < k - t ==> #[trigger] rows@[i] == (m.matches@[t + i], t + i == m.sel),
            decreases end - k,
        {
            rows.push((m.matches[k], k == m.sel));
            k += 1;
        }
    }
    assert(row_h * (visible + 1) <= u32::MAX);
    FramePlan { visible, top: t, rows, target_h: row_h * (visible as u32 + 1) }
}

/// Left margin that centers a panel `w` wide on an output `output_w` wide
/// (0 when the output is unknown or narrower).
pub fn panel_left(output_w: Option<u32>, w: u32) -> (left: i32)
    ensures
        left == match output_w {
            Some(ow) => if ow > w {
                (ow - w) / 2
            } else {
                0
            },
            None => 0,
        },
{
    match output_w {
        Some(ow) => if ow > w {
            ((ow - w) / 2) as i32
        } else {
            0
        },
        None => 0,
    }
}

/// Logical surface height for a buffer `h` pixels tall at density `scale`,
/// rounded up.
pub fn surface_height(h: u32, scale: u32) -> (r: u32)
    requires
        scale >= 1,
    ensures
        r == h / scale + (if h % scale == 0 {
            0int
        } else {
            1int
        }),
{
    let q = h / scale;
    assert(q * scale <= h) by (nonlinear_arith)
        requires
            q == h / scale,
            scale >= 1,
    ;
    assert(q < u32::MAX || h % scale == 0) by (nonlinear_arith)
        requires
            q == h / scale,
            scale >= 1,
            h <= u32::MAX,
    ;
    if h % scale == 0 {
        q
    } else {
        q + 1
    }
}

/// The scroll track: the list below the input bar.
pub open spec fn track_h(h: u32, row_h: u32) -> u32 {
    if h >= row_h {
        (h - row_h) as u32
    } else {
        0
    }
}

/// Where the scroll indicator goes (`x, y, width, height`), only while the
/// list overflows: a bar three density pixels wide centered in the right
/// padding, along the list below the input bar.
pub fn thumb_rect(
    bw: u32,
    h: u32,
    row_h: u32,
    visible: usize,
    total: usize,
    top: usize,
    scale: u32,
) -> (r: Option<(u32, u32, u32, u32)>)
    requires
        PAD * scale <= bw,
        overflows(track_h(h, row_h), visible, total) ==> {
            &&& track_h(h, row_h) * visible <= u64::MAX
            &&& (track_h(h, row_h) - thumb_len(track_h(h, row_h), visible, total)) * (if top < total
                - visible {
                top as int
            } else {
                total - visible
            }) <= u64::MAX
            &&& row_h + thumb_offset(track_h(h, row_h), visible, total, top) <= u32::MAX
        },
    ensures
        r is None <==> !overflows(track_h(h, row_h), visible, total),
        r matches Some((x, y, tw, th)) ==> {
            &&& x == bw - PAD * scale + (if PAD * scale >= 3 * scale {
                PAD * scale - 3 * scale
            } else {
                0
            }) / 2
            &&& y == row_h + thumb_offset(track_h(h, row_h), visible, total, top)
            &&& tw == 3 * scale
            &&& th == thumb_len(track_h(h, row_h), visible, total)
        },
{
    let track = if h >= row_h {
        h - row_h
    } else {
        0
    };
    match scroll_thumb(row_h, track, visible, total, top) {
        None => None,
        Some((ty, th)) => {
            let pad = PAD * scale;
            let tw = 3 * scale;
            let slack = if pad >= tw {
                pad - tw
            } else {
                0
            };
            Some((bw - pad + slack / 2, ty, tw, th))
        },
    }
}

} // verus!
