use rmenu::opts::{parse_opts_from, wants_version, Opts, OptsError, DEFAULT_WIDTH};

fn opts(args: &[&str]) -> Opts {
    parse_opts_from(args.iter().map(|s| s.to_string()).collect()).expect("valid options")
}

fn refused(args: &[&str]) -> OptsError {
    match parse_opts_from(args.iter().map(|s| s.to_string()).collect()) {
        Ok(_) => panic!("options {args:?} should be refused"),
        Err(e) => e,
    }
}

#[test]
fn output_flag_is_parsed() {
    assert_eq!(opts(&["-o", "HDMI-A-1"]).output.as_deref(), Some("HDMI-A-1"));
    assert_eq!(opts(&[]).output, None);
}

#[test]
fn color_flags_match_wmenu_fields() {
    let o = opts(&[
        "-N", "112233", "-n", "445566", "-M", "778899", "-m", "aabbcc", "-S", "ddeeff", "-s",
        "010203",
    ]);
    assert_eq!(o.colors.bg_normal, [0x33, 0x22, 0x11, 0xff]);
    assert_eq!(o.colors.fg_normal, [0x66, 0x55, 0x44, 0xff]);
    assert_eq!(o.colors.bg_prompt, [0x99, 0x88, 0x77, 0xff]);
    assert_eq!(o.colors.fg_prompt, [0xcc, 0xbb, 0xaa, 0xff]);
    assert_eq!(o.colors.bg_sel, [0xff, 0xee, 0xdd, 0xff]);
    assert_eq!(o.colors.fg_sel, [0x03, 0x02, 0x01, 0xff]);
}

#[test]
fn bottom_and_password_flags() {
    let o = opts(&["-b", "-P"]);
    assert!(o.bottom && o.password);
    let d = opts(&[]);
    assert!(!d.bottom && !d.password);
}

#[test]
fn defaults_and_value_flags() {
    let d = opts(&[]);
    assert_eq!(d.width, DEFAULT_WIDTH);
    assert_eq!(d.lines, 0);
    assert!(!d.ci && !d.run && d.font.is_none() && d.prompt.is_empty());
    let o = opts(&["-i", "-p", "run: ", "-l", "12", "-W", "800", "-f", "Noto Sans 12", "--run"]);
    assert!(o.ci && o.run);
    assert_eq!(o.prompt, "run: ");
    assert_eq!(o.lines, 12);
    assert_eq!(o.width, 800);
    assert_eq!(o.font.as_deref(), Some("Noto Sans 12"));
}

#[test]
fn bad_options_are_refused_with_usage() {
    assert_eq!(refused(&["-p"]), OptsError::Usage, "missing value");
    assert_eq!(refused(&["-l", "x"]), OptsError::Usage, "not a number");
    assert_eq!(refused(&["-l", "1001"]), OptsError::Usage, "too many lines");
    assert_eq!(refused(&["-W", "0"]), OptsError::Usage, "degenerate width");
    assert_eq!(refused(&["-N", "zzzzzz"]), OptsError::Usage, "bad color");
    assert_eq!(refused(&["-h"]), OptsError::Usage);
    assert_eq!(refused(&["--help"]), OptsError::Usage);
    assert_eq!(refused(&["-x"]), OptsError::UnknownOption("-x".to_string()));
}

#[test]
fn version_flag_is_found_anywhere() {
    let args = |a: &[&str]| a.iter().map(|s| s.to_string()).collect::<Vec<String>>();
    assert!(wants_version(&args(&["-i", "-v"])));
    assert!(wants_version(&args(&["--version"])));
    assert!(!wants_version(&args(&["-i", "-p", "x"])));
}
