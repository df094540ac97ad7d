use rmenu::desktop::{
    app_dirs_from, clean_exec, desktop_files, locale_tags_from, merged, parse_desktop, path_commands_from,
    path_dirs, pick_name, shown_on, sort_apps, App, PathEntry,
};

fn app(name: &str, command: &str, keywords: &str) -> App {
    App { name: name.into(), command: command.into(), keywords: keywords.into() }
}

#[test]
fn merge_apps_and_commands_dedups_by_name() {
    let apps = vec![app("Firefox", "firefox %u", "browser"), app("Zathura", "zathura %f", "")];
    let cmds = vec!["firefox".to_string(), "alacritty".to_string(), "zathura".to_string()];
    let items = merged(apps, cmds);
    let names: Vec<&str> = items.iter().map(|i| i.text.as_str()).collect();
    assert_eq!(names, vec!["alacritty", "Firefox", "Zathura"]);
    assert_eq!(items[1].value, "firefox %u");
    assert_eq!(items[1].extra, "browser");
    assert_eq!(items[1].lc, "firefox");
}

#[test]
fn merged_commands_are_deduped_case_insensitively() {
    let items = merged(Vec::new(), vec!["Vim".to_string(), "vim".to_string(), "ed".to_string()]);
    let names: Vec<&str> = items.iter().map(|i| i.text.as_str()).collect();
    assert_eq!(names, vec!["ed", "Vim"], "the first of a name wins");
}

#[test]
fn apps_sort_by_lowercase_name_stably() {
    let apps = vec![app("b", "1", ""), app("A", "2", ""), app("B", "3", ""), app("a", "4", "")];
    let sorted = sort_apps(apps);
    let cmds: Vec<&str> = sorted.iter().map(|a| a.command.as_str()).collect();
    assert_eq!(cmds, vec!["2", "4", "1", "3"]);
}

#[test]
fn path_commands_keeps_only_executable_files() {
    let entries = vec![
        PathEntry { name: "runnable".into(), runnable: true },
        PathEntry { name: "data.txt".into(), runnable: false },
        PathEntry { name: "subdir".into(), runnable: false },
    ];
    assert_eq!(path_commands_from(&entries), vec!["runnable"], "only regular executable files are listed");
}

#[test]
fn path_commands_first_runnable_of_a_name_wins() {
    let entries = vec![
        PathEntry { name: "tool".into(), runnable: false },
        PathEntry { name: ".hidden".into(), runnable: true },
        PathEntry { name: "ls".into(), runnable: true },
        PathEntry { name: "tool".into(), runnable: true },
        PathEntry { name: "ls".into(), runnable: true },
    ];
    assert_eq!(path_commands_from(&entries), vec!["ls", "tool"]);
}

#[test]
fn path_dirs_skip_empty_parts() {
    assert_eq!(path_dirs("/usr/bin::/bin:"), vec!["/usr/bin", "/bin"]);
    assert!(path_dirs("").is_empty());
}

#[test]
fn clean_exec_strips_field_codes() {
    let name = "App";
    let file = "/apps/app.desktop";
    assert_eq!(clean_exec("firefox %u", name, file), "firefox");
    assert_eq!(clean_exec("alacritty -e fish %F", name, file), "alacritty -e fish");
    assert_eq!(clean_exec("code --new-window %F %U", name, file), "code --new-window");
    assert_eq!(clean_exec("env FOO=1 app --flag", name, file), "env FOO=1 app --flag");
    assert_eq!(clean_exec("app %u --flag", name, file), "app --flag");
    assert_eq!(clean_exec("--open=app%u", name, file), "--open=app");
    assert_eq!(clean_exec("app --name=%c", name, file), "app --name=App");
    assert_eq!(clean_exec("app --file=%k", name, file), "app --file=/apps/app.desktop");
    assert_eq!(clean_exec("app 100%%", name, file), "app 100%");
}

#[test]
fn clean_exec_keeps_a_lone_trailing_percent() {
    assert_eq!(clean_exec("app 50%", "A", "/a"), "app 50%");
}

#[test]
fn localized_name_wins_over_plain_name() {
    let names = vec![
        ("zh_CN".to_string(), "火狐".to_string()),
        ("de".to_string(), "Feuerfuchs".to_string()),
    ];
    let zh = vec!["zh_CN".to_string(), "zh".to_string()];
    assert_eq!(pick_name(&zh, &names, Some("Firefox".into())), Some("火狐".into()));
    let fr = vec!["fr".to_string()];
    assert_eq!(pick_name(&fr, &names, Some("Firefox".into())), Some("Firefox".into()));
    assert_eq!(pick_name(&zh, &Vec::new(), None), None);
}

#[test]
fn locale_tags_drop_the_encoding_and_keep_the_language() {
    assert_eq!(locale_tags_from("zh_CN.UTF-8"), vec!["zh_CN", "zh"]);
    assert_eq!(locale_tags_from("de"), vec!["de", "de"]);
    assert!(locale_tags_from("C").is_empty());
    assert!(locale_tags_from("POSIX.UTF-8").is_empty());
    assert!(locale_tags_from("").is_empty());
}

#[test]
fn desktop_visibility_filters_by_current_desktop() {
    assert!(!shown_on(Some("GNOME;"), None, "sway:wlroots"), "other-DE entry is hidden");
    assert!(shown_on(Some("sway;"), None, "sway:wlroots"));
    assert!(shown_on(Some("wlroots;"), None, "sway:wlroots"));
    assert!(!shown_on(None, Some("sway;"), "sway:wlroots"), "NotShowIn wins");
    assert!(shown_on(None, Some("GNOME;"), "sway:wlroots"));
    assert!(shown_on(None, None, "sway"));
    assert!(shown_on(Some("GNOME;"), Some("sway;"), ""), "no current desktop: no filtering");
}

#[test]
fn parses_desktop_file() {
    let tags: Vec<String> = Vec::new();
    let path = "/tmp/rmenu-test-apps/test-app.desktop";
    let text = "[Desktop Entry]\nType=Application\nName=Test 应用\nIcon=org.test.App\n\
                Exec=test-app --flag %U\nNoDisplay=false\n";
    let app = parse_desktop(text, &tags, "", path).expect("parses");
    assert_eq!(app.name, "Test 应用");
    assert_eq!(app.command, "test-app --flag");

    let hidden = "[Desktop Entry]\nType=Application\nName=Hide Me\nNoDisplay=true\n";
    assert!(parse_desktop(hidden, &tags, "", path).is_none());

    let tty = "[Desktop Entry]\nName=Needs TTY\nExec=htop\nTerminal=true\n";
    assert!(parse_desktop(tty, &tags, "", path).is_none(), "Terminal=true is a dead entry here");

    let gnome = "[Desktop Entry]\nName=GNOME Only\nExec=gnome-thing\nOnlyShowIn=GNOME;\n";
    for current in ["", "sway:wlroots", "GNOME"] {
        assert_eq!(
            parse_desktop(gnome, &tags, current, path).is_some(),
            shown_on(Some("GNOME;"), None, current)
        );
    }
}

#[test]
fn desktop_file_keywords_locale_and_groups() {
    let tags = vec!["de_DE".to_string(), "de".to_string()];
    let text = "# comment\nName=Outside\n[Desktop Entry]\nName=Files\nName[de]=Dateien\n\
                Exec=nautilus --new-window %k\r\nKeywords=Folder;Manager;\n\
                [Desktop Action new]\nName=New Window\nExec=other\n";
    let app = parse_desktop(text, &tags, "", "/a/files.desktop").expect("parses");
    assert_eq!(app.name, "Dateien");
    assert_eq!(app.command, "nautilus --new-window /a/files.desktop");
    assert_eq!(app.keywords, "folder;manager;");
    let no_exec = "[Desktop Entry]\nName=Nothing\n";
    assert!(parse_desktop(no_exec, &tags, "", "/a").is_none());
}

#[test]
fn desktop_files_are_deduped_by_name() {
    let names: Vec<String> = ["a.desktop", "readme", ".desktop", "b.desktop", "a.desktop"]
        .iter()
        .map(|s| s.to_string())
        .collect();
    assert_eq!(desktop_files(&names), vec![0, 3]);
}

#[test]
fn app_dirs_follow_the_freedesktop_order() {
    let d = app_dirs_from(None, Some("/home/u".into()), Some("/opt/share::/usr/share/".into()));
    assert_eq!(
        d,
        vec![
            "/home/u/.local/share/applications",
            "/opt/share/applications",
            "/usr/share/applications",
            "/usr/local/share/applications",
            "/usr/share/applications",
        ]
    );
    let x = app_dirs_from(Some("/xdg".into()), Some("/home/u".into()), None);
    assert_eq!(x[0], "/xdg/applications");
    assert_eq!(x.len(), 3);
}
