use rmenu::items::{filter, parse, Item};

fn items(src: &[&str]) -> Vec<Item> {
    src.iter().map(|s| parse(s)).collect()
}

#[test]
fn parse_keeps_line_verbatim() {
    let it = parse("Firefox 火狐");
    assert_eq!(it.text, "Firefox 火狐");
    assert_eq!(it.value, "Firefox 火狐");
}

#[test]
fn parse_lowercases_for_case_insensitive_matching() {
    let it = parse("Firefox ÄÖ");
    assert_eq!(it.lc, "firefox äö");
    assert_eq!(it.extra, "");
}

#[test]
fn filter_rank_exact_prefix_substr() {
    let it = items(&["libre/server", "libre", "LIBREoffice", "libreoffice", "not-libre"]);
    let m = filter(&it, "libre", false);
    let got: Vec<&str> = m.iter().map(|&i| it[i].text.as_str()).collect();
    assert_eq!(got, vec!["libre/server", "libre", "libreoffice", "not-libre"]);
}

#[test]
fn filter_empty_query_returns_all() {
    let it = items(&["a", "b", "c"]);
    assert_eq!(filter(&it, "", false), vec![0, 1, 2]);
}

#[test]
fn filter_multiple_tokens_and() {
    let it = items(&["Firefox web browser", "Firefox", "Terminal emulator"]);
    assert_eq!(filter(&it, "fire web", true), vec![0]);
}

#[test]
fn filter_case_flags() {
    let it = items(&["Firefox"]);
    assert!(filter(&it, "fire", false).is_empty());
    assert_eq!(filter(&it, "fire", true), vec![0]);
}

#[test]
fn filter_ranks_whole_query_prefix_before_first_token_prefix() {
    // "fire fox": the whole query is a prefix of item 2 (bucket 0), the first
    // token a prefix of item 1 (bucket 1), and item 0 only contains both.
    let it = items(&["wildfire fox", "fire and fox", "fire fox"]);
    assert_eq!(filter(&it, "fire fox", false), vec![2, 1, 0]);
}

#[test]
fn filter_matches_keywords_without_ranking_them() {
    let mut it = items(&["Firefox", "Terminal"]);
    it[1].extra = "shell;console;".to_string();
    assert_eq!(filter(&it, "console", true), vec![1]);
    // A token found only in the keywords still needs every other token.
    assert!(filter(&it, "console web", true).is_empty());
}

#[test]
fn adding_a_token_only_narrows_the_matches() {
    let its = items(&["firefox", "fire-starter", "thunderbird", "foxglove", "Firewall"]);
    for q in ["", "fi", "f", "ire"] {
        for t in ["fox", "re", "zz", "F"] {
            for ci in [false, true] {
                let narrow = filter(&its, &format!("{q} {t}"), ci);
                let wide = filter(&its, q, ci);
                assert!(narrow.iter().all(|i| wide.contains(i)));
            }
        }
    }
}
