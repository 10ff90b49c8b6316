use ctrl_space::filter::{filter_apps, split_whitespace, join_with_spaces, has_upper, MAX_TOKEN_LEN};
use ctrl_space::frequency::Frequency;

fn names(v: &[&str]) -> Vec<String> {
    v.iter().map(|s| s.to_string()).collect()
}

#[test]
fn empty_catalog_yields_empty_results() {
    let freq = Frequency::empty();
    let apps: Vec<String> = Vec::new();
    let r = filter_apps(&apps, &"anything".to_string(), &freq);
    assert_eq!(r.len(), 0);
    let r2 = filter_apps(&apps, &"".to_string(), &freq);
    assert_eq!(r2.len(), 0);
}

#[test]
fn empty_query_browses_all_by_frequency() {
    let mut freq = Frequency::empty();
    freq.increment(&"beta".to_string());
    freq.increment(&"beta".to_string());
    freq.increment(&"alpha".to_string());
    let apps = names(&["alpha", "beta", "gamma"]);
    let r = filter_apps(&apps, &"".to_string(), &freq);
    assert_eq!(r.len(), 3);
    assert_eq!(r[0].name, "beta");
    assert_eq!(r[0].score, 200);
    assert_eq!(r[1].name, "alpha");
    assert_eq!(r[1].score, 100);
    assert_eq!(r[2].name, "gamma");
    assert_eq!(r[2].score, 0);
    assert!(r.iter().all(|f| f.match_indices.is_empty()));
}

#[test]
fn scenario_boundary_bonus_includes_both_excludes_vim() {
    let freq = Frequency::empty();
    let apps = names(&["firefox", "file-manager", "vim"]);
    let r = filter_apps(&apps, &"fi".to_string(), &freq);
    assert_eq!(r.len(), 2);
    let got: Vec<&str> = r.iter().map(|f| f.name.as_str()).collect();
    assert!(got.contains(&"firefox"));
    assert!(got.contains(&"file-manager"));
    assert!(!got.contains(&"vim"));
    // equal scores; the byte-class tie-break puts file-manager first
    assert_eq!(r[0].name, "file-manager");
    assert_eq!(r[1].name, "firefox");
    assert_eq!(r[0].score, r[1].score);
    // boundary-bonused f plus contiguous i, plus the prefix bonus
    assert_eq!(r[0].score, 100_000 + 11 + 6);
    assert_eq!(r[0].match_indices, vec![0, 1]);
}

#[test]
fn scenario_exact_match_outranks_prefix() {
    let mut freq = Frequency::empty();
    for _ in 0..5 {
        freq.increment(&"git".to_string());
    }
    let apps = names(&["github-desktop", "git"]);
    let r = filter_apps(&apps, &"git".to_string(), &freq);
    assert_eq!(r.len(), 2);
    assert_eq!(r[0].name, "git");
    assert_eq!(r[1].name, "github-desktop");
    assert!(r[0].score > r[1].score);
    assert!(r[0].score >= 1_000_000);
    assert!(r[1].score < 1_000_000);
}

#[test]
fn smart_case_is_sensitive_only_with_uppercase() {
    let freq = Frequency::empty();
    let apps = names(&["Firefox", "firefox"]);
    let insensitive = filter_apps(&apps, &"fire".to_string(), &freq);
    assert_eq!(insensitive.len(), 2);
    let sensitive = filter_apps(&apps, &"Fire".to_string(), &freq);
    assert_eq!(sensitive.len(), 1);
    assert_eq!(sensitive[0].name, "Firefox");
}

#[test]
fn match_indices_are_strictly_increasing_and_match_chars() {
    let freq = Frequency::empty();
    let apps = names(&["abc-def"]);
    let r = filter_apps(&apps, &"ad".to_string(), &freq);
    assert_eq!(r.len(), 1);
    let idx = &r[0].match_indices;
    assert_eq!(idx.len(), 2);
    assert!(idx[0] < idx[1]);
    let chars: Vec<char> = r[0].name.chars().collect();
    assert_eq!(chars[idx[0]], 'a');
    assert_eq!(chars[idx[1]], 'd');
}

#[test]
fn multi_token_query_matches_in_order() {
    let freq = Frequency::empty();
    let apps = names(&["open in terminal", "terminal open"]);
    let r = filter_apps(&apps, &"open term".to_string(), &freq);
    // tokens must match in order, each after the previous one ends
    assert_eq!(r.len(), 1);
    assert_eq!(r[0].name, "open in terminal");
}

#[test]
fn determinism_two_runs_agree() {
    let mut freq = Frequency::empty();
    freq.increment(&"beta".to_string());
    let apps = names(&["alpha", "beta", "albatross", "bet"]);
    let a = filter_apps(&apps, &"a".to_string(), &freq);
    let b = filter_apps(&apps, &"a".to_string(), &freq);
    assert_eq!(a.len(), b.len());
    for (x, y) in a.iter().zip(b.iter()) {
        assert_eq!(x.name, y.name);
        assert_eq!(x.score, y.score);
        assert_eq!(x.match_indices, y.match_indices);
    }
}

#[test]
fn overlong_token_matches_nothing() {
    let freq = Frequency::empty();
    let apps = names(&["aaaa"]);
    let long: String = std::iter::repeat('a').take(MAX_TOKEN_LEN + 1).collect();
    let r = filter_apps(&apps, &long, &freq);
    assert_eq!(r.len(), 0);
}

#[test]
fn tie_break_orders_digits_lower_upper_other() {
    let freq = Frequency::empty();
    let apps = names(&["q_", "qZ", "q3", "qz"]);
    let r = filter_apps(&apps, &"q".to_string(), &freq);
    assert_eq!(r.len(), 4);
    // all scores equal; byte classes order digits < lowercase < uppercase < other
    assert_eq!(r[0].name, "q3");
    assert_eq!(r[1].name, "qz");
    assert_eq!(r[2].name, "qZ");
    assert_eq!(r[3].name, "q_");
}

#[test]
fn tokenizer_splits_and_rejoins() {
    let q: Vec<char> = "  a  bc   d ".chars().collect();
    let tokens = split_whitespace(&q);
    assert_eq!(tokens.len(), 3);
    assert_eq!(tokens[0], vec!['a']);
    assert_eq!(tokens[1], vec!['b', 'c']);
    assert_eq!(tokens[2], vec!['d']);
    let joined = join_with_spaces(&tokens);
    let s: String = joined.iter().collect();
    assert_eq!(s, "a bc d");
}

#[test]
fn upper_detection() {
    let a: Vec<char> = "abc".chars().collect();
    let b: Vec<char> = "aBc".chars().collect();
    assert!(!has_upper(&a));
    assert!(has_upper(&b));
}

#[test]
fn unicode_whitespace_separates_tokens() {
    let q: Vec<char> = "a\u{a0}b".chars().collect();
    let tokens = split_whitespace(&q);
    assert_eq!(tokens.len(), 2);
    assert_eq!(tokens[0], vec!['a']);
    assert_eq!(tokens[1], vec!['b']);
    let q2: Vec<char> = "a\u{85}\u{3000}b".chars().collect();
    let tokens2 = split_whitespace(&q2);
    assert_eq!(tokens2.len(), 2);
}
