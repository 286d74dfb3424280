use slack_anonymizer::{
    anonymize_channels, anonymize_keywords, anonymize_text, anonymize_urls, anonymize_users,
    format_legend, parse_keywords, AnonymizationError, AnonymizationMap, LegendError, Mapping,
    Options, PatternError,
};

#[test]
fn scenario_mention_channel_email() {
    let (out, map) = anonymize_text(
        "Hey @john, check #general and email test@example.com",
        &Options::default(),
    )
    .unwrap();
    assert_eq!(out, "Hey @user1, check #ch1 and email user1@domain1.com");
    assert!(map.users.contains_key("@john"));
    assert!(!map.is_empty());
}

#[test]
fn scenario_url_enabled() {
    let (out, _) =
        anonymize_text("Visit https://company.com for more info", &Options::new(true, vec![])).unwrap();
    assert_eq!(out, "Visit https://example1.com for more info");
}

#[test]
fn url_pass_off_by_default() {
    let (out, map) =
        anonymize_text("Visit https://company.com for more info", &Options::default()).unwrap();
    assert_eq!(out, "Visit https://company.com for more info");
    assert!(map.urls.is_empty());
}

#[test]
fn scenario_keywords_numbered_in_order() {
    let kws = vec!["ProjectX".to_string(), "ClientABC".to_string()];
    let (out, _) =
        anonymize_text("ProjectX is ready and ClientABC approved", &Options::new(false, kws)).unwrap();
    assert_eq!(out, "keyword1 is ready and keyword2 approved");
}

#[test]
fn scenario_mention_wins_over_keyword() {
    let kws = vec!["support".to_string()];
    let (out, map) =
        anonymize_text("Contact @support about ProjectX", &Options::new(false, kws)).unwrap();
    assert_eq!(out, "Contact @user1 about ProjectX");
    assert!(map.keywords.is_empty());
}

#[test]
fn scenario_empty_input() {
    let (out, map) = anonymize_text("", &Options::new(true, vec!["x".to_string()])).unwrap();
    assert_eq!(out, "");
    assert!(map.is_empty());
    assert_eq!(format_legend(&map).unwrap(), "");
}

#[test]
fn placeholder_reused_across_texts() {
    let mut map = Mapping::new();
    let a = anonymize_channels("see #alpha", &mut map).unwrap();
    let b = anonymize_channels("#beta then #alpha", &mut map).unwrap();
    assert_eq!(a, "see #ch1");
    assert_eq!(b, "#ch2 then #ch1");
    assert_eq!(map.len(), 2);
}

#[test]
fn numbering_follows_first_occurrence() {
    let mut map = Mapping::new();
    let out = anonymize_channels("#b #a #b #c", &mut map).unwrap();
    assert_eq!(out, "#ch1 #ch2 #ch1 #ch3");
    let (k0, v0) = map.entry(0);
    let (k2, v2) = map.entry(2);
    assert_eq!((k0.as_str(), v0.as_str()), ("#b", "#ch1"));
    assert_eq!((k2.as_str(), v2.as_str()), ("#c", "#ch3"));
}

#[test]
fn numbering_resumes_from_table_size() {
    let mut map = Mapping::new();
    map.insert("#old".to_string(), "#ch1".to_string());
    let out = anonymize_channels("#new", &mut map).unwrap();
    assert_eq!(out, "#ch2");
}

#[test]
fn numbers_past_nine() {
    let mut map = Mapping::new();
    let out = anonymize_channels("#a #b #c #d #e #f #g #h #i #j #k", &mut map).unwrap();
    assert!(out.ends_with("#ch10 #ch11"));
    assert_eq!(map.len(), 11);
}

#[test]
fn email_local_part_is_not_a_mention() {
    let (out, map) = anonymize_text("mail bob@example.org now", &Options::default()).unwrap();
    assert_eq!(out, "mail user1@domain1.com now");
    assert!(map.users.is_empty());
    assert!(map.emails.contains_key("bob@example.org"));
}

#[test]
fn keyword_list_order_governs() {
    let mut map = Mapping::new();
    let kws = vec!["foo".to_string(), "foobar".to_string()];
    let out = anonymize_keywords("foobar foo FOO", &kws, &mut map).unwrap();
    assert_eq!(out, "keyword2 keyword1 keyword1");
    assert!(map.contains_key("foo"));
    assert!(map.contains_key("foobar"));
}

#[test]
fn keyword_casings_share_one_entry() {
    let mut map = Mapping::new();
    let kws = vec!["ProjectX".to_string()];
    let out = anonymize_keywords("projectx and PROJECTX", &kws, &mut map).unwrap();
    assert_eq!(out, "keyword1 and keyword1");
    assert_eq!(map.len(), 1);
    assert!(map.contains_key("projectx"));
}

#[test]
fn keyword_is_taken_literally() {
    let mut map = Mapping::new();
    let kws = vec!["a.b".to_string()];
    let out = anonymize_keywords("axb and a.b", &kws, &mut map).unwrap();
    assert_eq!(out, "axb and keyword1");
}

#[test]
fn blank_keywords_are_skipped() {
    let mut map = Mapping::new();
    let kws = vec!["   ".to_string(), "".to_string(), "foo".to_string()];
    let out = anonymize_keywords("foo bar", &kws, &mut map).unwrap();
    assert_eq!(out, "keyword1 bar");
    assert_eq!(map.len(), 1);
}

#[test]
fn trailing_period_stays_in_text() {
    let mut map = Mapping::new();
    let out = anonymize_users("See @john.doe.", &mut map).unwrap();
    assert_eq!(out, "See @user1.");
    assert!(map.contains_key("@john.doe"));
}

#[test]
fn only_one_trailing_period_is_stripped() {
    let mut map = Mapping::new();
    let out = anonymize_users("ask @a.. now", &mut map).unwrap();
    assert_eq!(out, "ask @user1 now");
    assert!(map.contains_key("@a."));
}

#[test]
fn two_word_mention_keeps_its_key() {
    let mut map = Mapping::new();
    let out = anonymize_users("ping @Aria Stark now", &mut map).unwrap();
    assert_eq!(out, "ping @user1 now");
    assert!(map.contains_key("@Aria Stark"));
}

#[test]
fn url_path_is_kept() {
    let mut map = Mapping::new();
    let out = anonymize_urls("go https://a.com/x/y?q=1 or http://b.org", &mut map).unwrap();
    assert_eq!(out, "go https://example1.com/x/y?q=1 or https://example2.com");
    assert_eq!(map.get("http://b.org").unwrap(), "https://example2.com");
}

#[test]
fn legend_exact_text() {
    let mut map = AnonymizationMap::new();
    map.users.insert("@alpha".to_string(), "@user1".to_string());
    map.channels.insert("#g".to_string(), "#ch1".to_string());
    let legend = format_legend(&map).unwrap();
    assert_eq!(legend, "\n=== ANONYMIZATION LEGEND ===\n#g → #ch1\n@alpha → @user1\n");
    assert_eq!(map.users.len(), 1);
}

#[test]
fn legend_sort_is_lexicographic() {
    let mut map = AnonymizationMap::new();
    map.users.insert("@b".to_string(), "@user2".to_string());
    map.users.insert("@j".to_string(), "@user10".to_string());
    let legend = format_legend(&map).unwrap();
    assert_eq!(legend, "\n=== ANONYMIZATION LEGEND ===\n@j → @user10\n@b → @user2\n");
}

#[test]
fn insert_overwrites_in_place() {
    let mut map = Mapping::new();
    map.insert("k".to_string(), "v1".to_string());
    map.insert("j".to_string(), "w".to_string());
    map.insert("k".to_string(), "v2".to_string());
    assert_eq!(map.len(), 2);
    assert_eq!(map.get("k").unwrap(), "v2");
    let (k0, _) = map.entry(0);
    assert_eq!(k0, "k");
    assert!(map.get("z").is_none());
}

#[test]
fn keyword_list_is_trimmed_and_filtered() {
    let kws = parse_keywords(" ProjectX , ,ClientABC,,  ");
    assert_eq!(kws, vec!["ProjectX".to_string(), "ClientABC".to_string()]);
    assert!(parse_keywords("").is_empty());
}

#[test]
fn error_messages() {
    let e = AnonymizationError::Pattern(PatternError::InvalidRegex("bad".to_string()));
    assert_eq!(e.message(), "Pattern error: Invalid regex: bad");
    let l = AnonymizationError::Legend(LegendError::FormatError("x".to_string()));
    assert_eq!(l.message(), "Legend error: Format error: x");
    assert_eq!(AnonymizationError::Io("gone".to_string()).message(), "IO error: gone");
}

#[test]
fn back_to_back_mentions_both_match() {
    let mut map = Mapping::new();
    let out = anonymize_users("@a @b", &mut map).unwrap();
    assert_eq!(out, "@user1 @user2");
    assert!(map.contains_key("@a"));
    assert!(map.contains_key("@b"));
}

#[test]
fn two_word_mention_after_mention() {
    let mut map = Mapping::new();
    let out = anonymize_users("@a @Aria Stark", &mut map).unwrap();
    assert_eq!(out, "@user1 @user2");
    assert!(map.contains_key("@Aria Stark"));
}

#[test]
fn handle_followed_by_capital_is_no_mention() {
    let mut map = Mapping::new();
    let out = anonymize_users("hi @abcD there", &mut map).unwrap();
    assert_eq!(out, "hi @abcD there");
    assert!(map.is_empty());
}

#[test]
fn keyword_never_matches_inside_placeholder() {
    let kws = vec!["user1".to_string(), "ch1".to_string()];
    let (out, map) = anonymize_text("@john on #general", &Options::new(false, kws)).unwrap();
    assert_eq!(out, "@user1 on #ch1");
    assert!(map.keywords.is_empty());
}

#[test]
fn later_keyword_skips_earlier_placeholder() {
    let mut map = Mapping::new();
    let kws = vec!["alpha".to_string(), "keyword1".to_string()];
    let out = anonymize_keywords("alpha and keyword1", &kws, &mut map).unwrap();
    assert_eq!(out, "keyword1 and keyword2");
    assert_eq!(map.len(), 2);
}
