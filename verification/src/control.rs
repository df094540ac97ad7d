//! Single-instance control: a second launch dismisses the running panel
//! instead of stacking another one. The first instance listens on a socket
//! under `$XDG_RUNTIME_DIR`; the next one connects to it.
use vstd::prelude::*;

use crate::desktop::path_join;
use crate::text::{chars_of, string_of};

verus! {

/// The part of `d` after its last `/` (all of it when there is none).
pub open spec fn basename(d: Seq<char>) -> Seq<char>
    decreases d.len(),
{
    if d.len() == 0 {
        d
    } else if d.last() == '/' {
        seq![]
    } else {
        basename(d.drop_last()).push(d.last())
    }
}

/// A character that may stay in a socket file name.
pub open spec fn name_safe(c: char) -> bool {
    ('a' <= c <= 'z') || ('A' <= c <= 'Z') || ('0' <= c <= '9') || c == '.' || c == '_' || c == '-'
}

/// `$WAYLAND_DISPLAY` reduced to a file-name-safe token: its basename with
/// every other character replaced by `_`, or `default` when that is empty.
pub open spec fn display_token_spec(display: Seq<char>) -> Seq<char> {
    let t = basename(display).map_values(|c: char| if name_safe(c) {
        c
    } else {
        '_'
    });
    if t.len() == 0 {
        "default"@
    } else {
        t
    }
}

/// `$WAYLAND_DISPLAY` is usually a bare socket name, but some setups pass
/// an absolute path: keep the basename and reduce it to a filename-safe token.
pub fn display_token(display: &str) -> (t: String)
    ensures
        t@ == display_token_spec(display@),
{
    let d = chars_of(display);
    let mut start: usize = 0;
    let mut i: usize = 0;
    while i < d.len()
        invariant
            i <= d@.len(),
            start <= i,
            basename(d@.take(i as int)) == d@.subrange(start as int, i as int),
        decreases d@.len() - i,
    {
        let ghost pre = d@.take(i + 1);
        assert(pre.drop_last() =~= d@.take(i as int));
        if d[i] == '/' {
            start = i + 1;
            assert(basename(pre) =~= d@.subrange(start as int, i + 1));
        } else {
            assert(basename(pre) =~= d@.subrange(start as int, i + 1));
        }
        i += 1;
    }
    assert(d@.take(d@.len() as int) =~= d@);
    let mut out: Vec<char> = Vec::new();
    let ghost b = d@.subrange(start as int, d@.len() as int);
    let mut k = start;
    while k < d.len()
        invariant
            start <= k <= d@.len(),
            b == d@.subrange(start as int, d@.len() as int),
            out@ == b.take(k - start).map_values(|c: char| if name_safe(c) {
                c
            } else {
                '_'
            }),
        decreases d@.len() - k,
    {
        let c = d[k];
        let safe = ('a' <= c && c <= 'z') || ('A' <= c && c <= 'Z') || ('0' <= c && c <= '9') || c
            == '.' || c == '_' || c == '-';
        out.push(if safe {
            c
        } else {
            '_'
        });
        assert(b[k - start] == c);
        assert(out@ =~= b.take(k + 1 - start).map_values(|c: char| if name_safe(c) {
            c
        } else {
            '_'
        }));
        k += 1;
    }
    assert(b.take(d@.len() - start) =~= b);
    if out.len() == 0 {
        String::from_str("default")
    } else {
        string_of(out.as_slice())
    }
}

/// The control socket's file name for display `display`.
pub open spec fn socket_name_spec(display: Seq<char>) -> Seq<char> {
    "rmenu-"@ + display_token_spec(display) + ".sock"@
}

/// Per-session socket path: `$WAYLAND_DISPLAY` in the name keeps a nested
/// compositor (which shares `$XDG_RUNTIME_DIR`) from dismissing the outer
/// session's menu. None without a (non-empty) runtime directory.
pub fn socket_path_from(dir: Option<String>, display: &str) -> (p: Option<String>)
    ensures
        match dir {
            Some(d) if d@.len() > 0 => p is Some && p->0@ == path_join(d@, socket_name_spec(display@)),
            _ => p is None,
        },
{
    match dir {
        Some(d) => {
            let dc = chars_of(d.as_str());
            if dc.len() == 0 {
                return None;
            }
            let mut name = chars_of("rmenu-");
            let tok = chars_of(display_token(display).as_str());
            let ghost head = name@;
            for i in 0..tok.len()
                invariant
                    name@ == head + tok@.take(i as int),
            {
                name.push(tok[i]);
                assert(name@ =~= head + tok@.take(i + 1));
            }
            assert(tok@.take(tok@.len() as int) =~= tok@);
            let suffix = chars_of(".sock");
            let ghost mid = name@;
            for i in 0..suffix.len()
                invariant
                    name@ == mid + suffix@.take(i as int),
            {
                name.push(suffix[i]);
                assert(name@ =~= mid + suffix@.take(i + 1));
            }
            assert(suffix@.take(suffix@.len() as int) =~= suffix@);
            let p = crate::desktop::join_path(dc.as_slice(), name.as_slice());
            Some(string_of(p.as_slice()))
        },
        None => None,
    }
}

/// How binding the control socket went.
#[derive(Debug, Clone, Copy, PartialEq, Eq)]
pub enum BindResult {
    Bound,
    /// Another process bound it first.
    InUse,
    Failed,
}

/// What the claim has learned so far.
#[derive(Debug, Clone, Copy, PartialEq, Eq)]
pub enum ClaimEvent {
    /// Nothing tried yet.
    Start,
    /// A connection attempt was made: whether a live instance answered.
    Probed(bool),
    /// The stale socket file was removed and a bind attempted.
    Bind(BindResult),
    /// After losing a bind race, whether the winner answered.
    Reprobed(bool),
}

/// What the claim does next.
#[derive(Debug, Clone, Copy, PartialEq, Eq)]
pub enum ClaimAction {
    /// Connect to the socket (and, when it answers, ask it to close).
    Probe,
    /// Remove a leftover socket file and bind the socket.
    Bind,
    /// Connect again after losing a bind race.
    Reprobe,
    /// This process is the only instance; it owns the listener.
    Own,
    /// Another instance was running and has been told to close.
    Dismissed,
    /// No single-instance guarantee (no usable socket), and no error.
    Disabled,
}

/// The claim protocol: dismiss a live instance if one answers; otherwise
/// reclaim the socket (a killed instance leaves its file behind). A racing
/// start that bound first wins and is assumed live; if it does not answer
/// either, the loser degrades to "no single instance" rather than hanging.
pub fn claim_step(ev: ClaimEvent) -> (a: ClaimAction)
    ensures
        a == match ev {
            ClaimEvent::Start => ClaimAction::Probe,
            ClaimEvent::Probed(true) => ClaimAction::Dismissed,
            ClaimEvent::Probed(false) => ClaimAction::Bind,
            ClaimEvent::Bind(BindResult::Bound) => ClaimAction::Own,
            ClaimEvent::Bind(BindResult::InUse) => ClaimAction::Reprobe,
            ClaimEvent::Bind(BindResult::Failed) => ClaimAction::Disabled,
            ClaimEvent::Reprobed(true) => ClaimAction::Dismissed,
            ClaimEvent::Reprobed(false) => ClaimAction::Disabled,
        },
{
    match ev {
        ClaimEvent::Start => ClaimAction::Probe,
        ClaimEvent::Probed(answered) => if answered {
            ClaimAction::Dismissed
        } else {
            ClaimAction::Bind
        },
        ClaimEvent::Bind(r) => match r {
            BindResult::Bound => ClaimAction::Own,
            BindResult::InUse => ClaimAction::Reprobe,
            BindResult::Failed => ClaimAction::Disabled,
        },
        ClaimEvent::Reprobed(answered) => if answered {
            ClaimAction::Dismissed
        } else {
            ClaimAction::Disabled
        },
    }
}

/// Law: the display token is never empty and holds only characters that are
/// safe in a file name (no `/` can reach the socket path from the display).
pub proof fn display_token_is_filename_safe(display: Seq<char>)
    ensures
        display_token_spec(display).len() > 0,
        forall|i: int|
            0 <= i < display_token_spec(display).len() ==> name_safe(
                #[trigger] display_token_spec(display)[i],
            ),
{
    reveal_strlit("default");
    let t = basename(display).map_values(|c: char| if name_safe(c) {
        c
    } else {
        '_'
    });
    if t.len() > 0 {
        assert forall|i: int| 0 <= i < t.len() implies name_safe(#[trigger] t[i]) by {}
    } else {
        let d = "default"@;
        assert forall|i: int| 0 <= i < d.len() implies name_safe(#[trigger] d[i]) by {}
    }
}

} // verus!
