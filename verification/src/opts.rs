//! Command-line options (wmenu-compatible subset).
use vstd::prelude::*;

use crate::menu::{valid_lines, valid_width, MAX_LINES, MAX_WIDTH};
use crate::num::{dec_digits, dec_ok, dec_value, parse_u64};
use crate::render::{
    color_ok, color_px, parse_color, Colors, BG_NORMAL, BG_PROMPT, BG_SEL, FG_NORMAL, FG_PROMPT,
    FG_SEL, LABEL_ACCENT,
};
use crate::text::chars_of;

verus! {

/// Panel width when `-W` is not given.
pub const DEFAULT_WIDTH: u32 = 640;

/// Parsed options.
pub struct Opts {
    pub prompt: String,
    pub width: u32,
    pub lines: usize,
    pub ci: bool,
    pub font: Option<String>,
    /// `-o NAME`: show the panel on that output (wmenu `-o`).
    pub output: Option<String>,
    pub run: bool,
    pub bottom: bool,
    pub password: bool,
    pub colors: Colors,
}

/// Why the command line was refused: print the usage (after naming the
/// unknown option, if that was the reason) and exit 1.
#[derive(Debug, PartialEq, Eq)]
pub enum OptsError {
    /// Missing or malformed value, `-h`/`--help`.
    Usage,
    /// An option the menu does not know.
    UnknownOption(String),
}

/// The options as plain values.
pub struct OptsView {
    pub prompt: Seq<char>,
    pub width: u32,
    pub lines: usize,
    pub ci: bool,
    pub font: Option<Seq<char>>,
    pub output: Option<Seq<char>>,
    pub run: bool,
    pub bottom: bool,
    pub password: bool,
    pub colors: Colors,
}

impl View for Opts {
    type V = OptsView;

    open spec fn view(&self) -> OptsView {
        OptsView {
            prompt: self.prompt@,
            width: self.width,
            lines: self.lines,
            ci: self.ci,
            font: match self.font {
                Some(f) => Some(f@),
                None => None,
            },
            output: match self.output {
                Some(f) => Some(f@),
                None => None,
            },
            run: self.run,
            bottom: self.bottom,
            password: self.password,
            colors: self.colors,
        }
    }
}

/// Result of reading a command line.
pub enum ArgsOutcome {
    Parsed(OptsView),
    Usage,
    Unknown(Seq<char>),
}

/// The default color scheme.
pub open spec fn default_colors() -> Colors {
    Colors {
        bg_normal: BG_NORMAL,
        fg_normal: FG_NORMAL,
        bg_prompt: BG_PROMPT,
        label_accent: LABEL_ACCENT,
        fg_prompt: FG_PROMPT,
        bg_sel: BG_SEL,
        fg_sel: FG_SEL,
    }
}

/// Options before any argument is read.
pub open spec fn default_opts() -> OptsView {
    OptsView {
        prompt: Seq::empty(),
        width: DEFAULT_WIDTH,
        lines: 0,
        ci: false,
        font: None,
        output: None,
        run: false,
        bottom: false,
        password: false,
        colors: default_colors(),
    }
}

/// `v` is a valid `-l` value.
pub open spec fn lines_ok(v: Seq<char>) -> bool {
    dec_ok(v) && dec_value(dec_digits(v)) <= MAX_LINES
}

/// `v` is a valid `-W` value.
pub open spec fn width_ok(v: Seq<char>) -> bool {
    dec_ok(v) && 1 <= dec_value(dec_digits(v)) <= MAX_WIDTH
}

/// Which color an option sets (0..=5: `-N -n -M -m -S -s`), if it is one.
pub open spec fn color_flag(a: Seq<char>) -> int {
    if a == seq!['-', 'N'] {
        0
    } else if a == seq!['-', 'n'] {
        1
    } else if a == seq!['-', 'M'] {
        2
    } else if a == seq!['-', 'm'] {
        3
    } else if a == seq!['-', 'S'] {
        4
    } else if a == seq!['-', 's'] {
        5
    } else {
        -1
    }
}

/// `c` with color `k` (as numbered by `color_flag`) replaced by `p`.
pub open spec fn with_color(c: Colors, k: int, p: [u8; 4]) -> Colors {
    if k == 0 {
        Colors { bg_normal: p, ..c }
    } else if k == 1 {
        Colors { fg_normal: p, ..c }
    } else if k == 2 {
        Colors { bg_prompt: p, ..c }
    } else if k == 3 {
        Colors { fg_prompt: p, ..c }
    } else if k == 4 {
        Colors { bg_sel: p, ..c }
    } else {
        Colors { fg_sel: p, ..c }
    }
}

/// The option takes a value (the next argument).
pub open spec fn takes_value(a: Seq<char>) -> bool {
    a == seq!['-', 'p'] || a == seq!['-', 'l'] || a == seq!['-', 'W'] || a == seq!['-', 'f'] || a
        == seq!['-', 'o'] || color_flag(a) >= 0
}

/// Read the arguments `args` on top of the options `o`, left to right.
pub open spec fn parse_args(args: Seq<Seq<char>>, o: OptsView) -> ArgsOutcome
    decreases args.len(),
{
    if args.len() == 0 {
        ArgsOutcome::Parsed(o)
    } else {
        let a = args[0];
        let rest = args.drop_first();
        if a == seq!['-', 'i'] {
            parse_args(rest, OptsView { ci: true, ..o })
        } else if a == seq!['-', 'b'] {
            parse_args(rest, OptsView { bottom: true, ..o })
        } else if a == seq!['-', 'P'] {
            parse_args(rest, OptsView { password: true, ..o })
        } else if a == seq!['-', '-', 'r', 'u', 'n'] {
            parse_args(rest, OptsView { run: true, ..o })
        } else if takes_value(a) {
            if rest.len() == 0 {
                ArgsOutcome::Usage
            } else {
                let v = rest[0];
                let more = rest.drop_first();
                if a == seq!['-', 'p'] {
                    parse_args(more, OptsView { prompt: v, ..o })
                } else if a == seq!['-', 'f'] {
                    parse_args(more, OptsView { font: Some(v), ..o })
                } else if a == seq!['-', 'o'] {
                    parse_args(more, OptsView { output: Some(v), ..o })
                } else if a == seq!['-', 'l'] {
                    if lines_ok(v) {
                        parse_args(more, OptsView { lines: dec_value(dec_digits(v)) as usize, ..o })
                    } else {
                        ArgsOutcome::Usage
                    }
                } else if a == seq!['-', 'W'] {
                    if width_ok(v) {
                        parse_args(more, OptsView { width: dec_value(dec_digits(v)) as u32, ..o })
                    } else {
                        ArgsOutcome::Usage
                    }
                } else if color_ok(v) {
                    parse_args(
                        more,
                        OptsView { colors: with_color(o.colors, color_flag(a), color_px(v)), ..o },
                    )
                } else {
                    ArgsOutcome::Usage
                }
            }
        } else if a == seq!['-', 'h'] || a == seq!['-', '-', 'h', 'e', 'l', 'p'] {
            ArgsOutcome::Usage
        } else {
            ArgsOutcome::Unknown(a)
        }
    }
}

/// The character sequences of a list of strings.
pub open spec fn arg_views(args: Seq<String>) -> Seq<Seq<char>> {
    args.map_values(|s: String| s@)
}

/// Whether the argument `a` is exactly the flag `f`.
fn is_flag(a: &Vec<char>, f: &[char]) -> (b: bool)
    ensures
        b == (a@ == f@),
{
    if a.len() != f.len() {
        return false;
    }
    let mut i: usize = 0;
    while i < a.len()
        invariant
            a@.len() == f@.len(),
            i <= a@.len(),
            forall|k: int| 0 <= k < i ==> a@[k] == f@[k],
        decreases a@.len() - i,
    {
        if a[i] != f[i] {
            return false;
        }
        i += 1;
    }
    assert(a@ =~= f@);
    true
}

/// The number of the color option `a`, if it is one.
fn color_index(a: &Vec<char>) -> (k: i32)
    ensures
        k == color_flag(a@),
{
    if is_flag(a, &['-', 'N']) {
        assert(['-', 'N']@ =~= seq!['-', 'N']);
        0
    } else if is_flag(a, &['-', 'n']) {
        assert(['-', 'n']@ =~= seq!['-', 'n']);
        1
    } else if is_flag(a, &['-', 'M']) {
        assert(['-', 'M']@ =~= seq!['-', 'M']);
        2
    } else if is_flag(a, &['-', 'm']) {
        assert(['-', 'm']@ =~= seq!['-', 'm']);
        3
    } else if is_flag(a, &['-', 'S']) {
        assert(['-', 'S']@ =~= seq!['-', 'S']);
        4
    } else if is_flag(a, &['-', 's']) {
        assert(['-', 's']@ =~= seq!['-', 's']);
        5
    } else {
        assert(['-', 'N']@ =~= seq!['-', 'N']);
        assert(['-', 'n']@ =~= seq!['-', 'n']);
        assert(['-', 'M']@ =~= seq!['-', 'M']);
        assert(['-', 'm']@ =~= seq!['-', 'm']);
        assert(['-', 'S']@ =~= seq!['-', 'S']);
        assert(['-', 's']@ =~= seq!['-', 's']);
        -1
    }
}

/// The default options.
fn defaults() -> (o: Opts)
    ensures
        o@ == default_opts(),
{
    Opts {
        prompt: String::new(),
        width: DEFAULT_WIDTH,
        lines: 0,
        ci: false,
        font: None,
        output: None,
        run: false,
        bottom: false,
        password: false,
        colors: Colors::default(),
    }
}

/// Read the command line (without the program name).
pub fn parse_opts_from(args: Vec<String>) -> (r: Result<Opts, OptsError>)
    ensures
        match parse_args(arg_views(args@), default_opts()) {
            ArgsOutcome::Parsed(v) => r matches Ok(o) && o@ == v,
            ArgsOutcome::Usage => r matches Err(OptsError::Usage),
            ArgsOutcome::Unknown(a) => r matches Err(OptsError::UnknownOption(s)) && s@ == a,
        },
{
    let mut o = defaults();
    let mut i: usize = 0;
    let ghost all = arg_views(args@);
    assert(all.skip(0) =~= all);
    while i < args.len()
        invariant
            all == arg_views(args@),
            i <= args@.len(),
            parse_args(all, default_opts()) == parse_args(all.skip(i as int), o@),
        decreases args@.len() - i,
    {
        let a = chars_of(args[i].as_str());
        let ghost rest = all.skip(i as int);
        assert(rest[0] == a@);
        assert(rest.drop_first() =~= all.skip(i + 1));
        if is_flag(&a, &['-', 'i']) {
            assert(['-', 'i']@ =~= seq!['-', 'i']);
            o.ci = true;
            i += 1;
        } else if is_flag(&a, &['-', 'b']) {
            assert(['-', 'b']@ =~= seq!['-', 'b']);
            assert(['-', 'i']@ =~= seq!['-', 'i']);
            o.bottom = true;
            i += 1;
        } else if is_flag(&a, &['-', 'P']) {
            assert(['-', 'P']@ =~= seq!['-', 'P']);
            assert(['-', 'b']@ =~= seq!['-', 'b']);
            assert(['-', 'i']@ =~= seq!['-', 'i']);
            o.password = true;
            i += 1;
        } else if is_flag(&a, &['-', '-', 'r', 'u', 'n']) {
            assert(['-', '-', 'r', 'u', 'n']@ =~= seq!['-', '-', 'r', 'u', 'n']);
            assert(['-', 'P']@ =~= seq!['-', 'P']);
            assert(['-', 'b']@ =~= seq!['-', 'b']);
            assert(['-', 'i']@ =~= seq!['-', 'i']);
            o.run = true;
            i += 1;
        } else {
            assert(['-', '-', 'r', 'u', 'n']@ =~= seq!['-', '-', 'r', 'u', 'n']);
            assert(['-', 'P']@ =~= seq!['-', 'P']);
            assert(['-', 'b']@ =~= seq!['-', 'b']);
            assert(['-', 'i']@ =~= seq!['-', 'i']);
            let is_p = is_flag(&a, &['-', 'p']);
            let is_l = is_flag(&a, &['-', 'l']);
            let is_w = is_flag(&a, &['-', 'W']);
            let is_f = is_flag(&a, &['-', 'f']);
            let is_o = is_flag(&a, &['-', 'o']);
            let ck = color_index(&a);
            assert(['-', 'p']@ =~= seq!['-', 'p']);
            assert(['-', 'l']@ =~= seq!['-', 'l']);
            assert(['-', 'W']@ =~= seq!['-', 'W']);
            assert(['-', 'f']@ =~= seq!['-', 'f']);
            assert(['-', 'o']@ =~= seq!['-', 'o']);
            if is_p || is_l || is_w || is_f || is_o || ck >= 0 {
                if i + 1 >= args.len() {
                    return Err(OptsError::Usage);
                }
                let ghost more = all.skip(i + 2);
                assert(all.skip(i + 1).drop_first() =~= more);
                assert(all.skip(i + 1)[0] == args@[i + 1]@);
                let v = args[i + 1].clone();
                if is_p {
                    o.prompt = v;
                } else if is_f {
                    o.font = Some(v);
                } else if is_o {
                    o.output = Some(v);
                } else if is_l {
                    match parse_u64(v.as_str()) {
                        Some(n) => {
                            if n > MAX_LINES as u64 || !valid_lines(n as usize) {
                                return Err(OptsError::Usage);
                            }
                            o.lines = n as usize;
                        },
                        None => {
                            return Err(OptsError::Usage);
                        },
                    }
                } else if is_w {
                    match parse_u64(v.as_str()) {
                        Some(n) => {
                            if n > MAX_WIDTH as u64 || !valid_width(n as u32) {
                                return Err(OptsError::Usage);
                            }
                            o.width = n as u32;
                        },
                        None => {
                            return Err(OptsError::Usage);
                        },
                    }
                } else {
                    match parse_color(v.as_str()) {
                        Some(p) => {
                            if ck == 0 {
                                o.colors.bg_normal = p;
                            } else if ck == 1 {
                                o.colors.fg_normal = p;
                            } else if ck == 2 {
                                o.colors.bg_prompt = p;
                            } else if ck == 3 {
                                o.colors.fg_prompt = p;
                            } else if ck == 4 {
                                o.colors.bg_sel = p;
                            } else {
                                o.colors.fg_sel = p;
                            }
                        },
                        None => {
                            return Err(OptsError::Usage);
                        },
                    }
                }
                i += 2;
            } else if is_flag(&a, &['-', 'h']) || is_flag(&a, &['-', '-', 'h', 'e', 'l', 'p']) {
                assert(['-', 'h']@ =~= seq!['-', 'h']);
                assert(['-', '-', 'h', 'e', 'l', 'p']@ =~= seq!['-', '-', 'h', 'e', 'l', 'p']);
                return Err(OptsError::Usage);
            } else {
                assert(['-', 'h']@ =~= seq!['-', 'h']);
                assert(['-', '-', 'h', 'e', 'l', 'p']@ =~= seq!['-', '-', 'h', 'e', 'l', 'p']);
                return Err(OptsError::UnknownOption(args[i].clone()));
            }
        }
    }
    assert(all.skip(i as int) =~= Seq::<Seq<char>>::empty());
    Ok(o)
}

/// Whether the command line asks for the version (`-v`/`--version`
/// anywhere), which is answered before any other option is read.
pub fn wants_version(args: &Vec<String>) -> (b: bool)
    ensures
        b == exists|k: int|
            0 <= k < args@.len() && (#[trigger] args@[k]@ == seq!['-', 'v'] || args@[k]@ == seq![
                '-',
                '-',
                'v',
                'e',
                'r',
                's',
                'i',
                'o',
                'n',
            ]),
{
    let mut k: usize = 0;
    while k < args.len()
        invariant
            k <= args@.len(),
            forall|j: int|
                0 <= j < k ==> !(#[trigger] args@[j]@ == seq!['-', 'v'] || args@[j]@ == seq![
                    '-',
                    '-',
                    'v',
                    'e',
                    'r',
                    's',
                    'i',
                    'o',
                    'n',
                ]),
        decreases args@.len() - k,
    {
        let a = chars_of(args[k].as_str());
        assert(['-', 'v']@ =~= seq!['-', 'v']);
        assert(['-', '-', 'v', 'e', 'r', 's', 'i', 'o', 'n']@ =~= seq![
            '-',
            '-',
            'v',
            'e',
            'r',
            's',
            'i',
            'o',
            'n',
        ]);
        if is_flag(&a, &['-', 'v']) || is_flag(&a, &['-', '-', 'v', 'e', 'r', 's', 'i', 'o', 'n']) {
            return true;
        }
        k += 1;
    }
    false
}

/// Law: a command line is read left to right: after a part `xs` that
/// parses on its own, the rest `ys` is read on top of the options `xs` gave
/// (so a later option overrides an earlier one of the same kind).
pub proof fn command_lines_read_left_to_right(xs: Seq<Seq<char>>, ys: Seq<Seq<char>>, o: OptsView)
    requires
        parse_args(xs, o) is Parsed,
    ensures
        parse_args(xs + ys, o) == parse_args(ys, parse_args(xs, o)->Parsed_0),
    decreases xs.len(),
{
    if xs.len() == 0 {
        assert(xs + ys =~= ys);
    } else {
        let a = xs[0];
        let all = xs + ys;
        let rest = xs.drop_first();
        assert(all[0] == a);
        assert(all.drop_first() =~= rest + ys);
        if rest.len() > 0 {
            assert((rest + ys)[0] == rest[0]);
            assert((rest + ys).drop_first() =~= rest.drop_first() + ys);
        }
        if a == seq!['-', 'i'] {
            command_lines_read_left_to_right(rest, ys, OptsView { ci: true, ..o });
        } else if a == seq!['-', 'b'] {
            command_lines_read_left_to_right(rest, ys, OptsView { bottom: true, ..o });
        } else if a == seq!['-', 'P'] {
            command_lines_read_left_to_right(rest, ys, OptsView { password: true, ..o });
        } else if a == seq!['-', '-', 'r', 'u', 'n'] {
            command_lines_read_left_to_right(rest, ys, OptsView { run: true, ..o });
        } else if takes_value(a) {
            let v = rest[0];
            let more = rest.drop_first();
            if a == seq!['-', 'p'] {
                command_lines_read_left_to_right(more, ys, OptsView { prompt: v, ..o });
            } else if a == seq!['-', 'f'] {
                command_lines_read_left_to_right(more, ys, OptsView { font: Some(v), ..o });
            } else if a == seq!['-', 'o'] {
                command_lines_read_left_to_right(more, ys, OptsView { output: Some(v), ..o });
            } else if a == seq!['-', 'l'] {
                command_lines_read_left_to_right(
                    more,
                    ys,
                    OptsView { lines: dec_value(dec_digits(v)) as usize, ..o },
                );
            } else if a == seq!['-', 'W'] {
                command_lines_read_left_to_right(
                    more,
                    ys,
                    OptsView { width: dec_value(dec_digits(v)) as u32, ..o },
                );
            } else {
                command_lines_read_left_to_right(
                    more,
                    ys,
                    OptsView { colors: with_color(o.colors, color_flag(a), color_px(v)), ..o },
                );
            }
        }
    }
}

/// Law: the prompt is the value of the last `-p`: after any command line
/// that parses, `-p v` sets the prompt to `v` and changes nothing else.
pub proof fn the_last_prompt_wins(xs: Seq<Seq<char>>, v: Seq<char>)
    requires
        parse_args(xs, default_opts()) is Parsed,
    ensures
        ({
            let o = parse_args(xs, default_opts())->Parsed_0;
            parse_args(xs + seq![seq!['-', 'p'], v], default_opts()) == ArgsOutcome::Parsed(
                OptsView { prompt: v, ..o },
            )
        }),
{
    let o = parse_args(xs, default_opts())->Parsed_0;
    let ys = seq![seq!['-', 'p'], v];
    command_lines_read_left_to_right(xs, ys, default_opts());
    assert(ys[0] == seq!['-', 'p']);
    assert(ys.drop_first()[0] == v);
    assert(ys.drop_first().drop_first() =~= Seq::<Seq<char>>::empty());
    assert(takes_value(seq!['-', 'p']));
    assert(seq!['-', 'p'] != seq!['-', 'i']) by {
        assert(seq!['-', 'p'][1] != seq!['-', 'i'][1]);
    }
    assert(seq!['-', 'p'] != seq!['-', 'b']) by {
        assert(seq!['-', 'p'][1] != seq!['-', 'b'][1]);
    }
    assert(seq!['-', 'p'] != seq!['-', 'P']) by {
        assert(seq!['-', 'p'][1] != seq!['-', 'P'][1]);
    }
    assert(seq!['-', 'p'] != seq!['-', '-', 'r', 'u', 'n']) by {
        assert(seq!['-', 'p'].len() != seq!['-', '-', 'r', 'u', 'n'].len());
    }
    let o2 = OptsView { prompt: v, ..o };
    assert(parse_args(ys.drop_first().drop_first(), o2) == ArgsOutcome::Parsed(o2));
    assert(parse_args(ys, o) == parse_args(ys.drop_first().drop_first(), o2));
}

} // verus!
