use slack_anonymizer::{
    anonymize_channels, anonymize_display_names, anonymize_emails, anonymize_keywords,
    anonymize_urls, anonymize_users, Mapping,
};

#[test]
fn test_anonymize_users() {
    let mut map = Mapping::new();
    let text = "Hey @john.doe and @jane_smith, check this out!";
    let result = anonymize_users(text, &mut map).unwrap();

    println!("Result: {}", result);
    assert!(result.contains("@user1"));
    assert!(result.contains("@user2"));
    assert_eq!(map.len(), 2);
}

#[test]
fn test_slack_username_rules() {
    let mut map = Mapping::new();

    let text = "Contact @alice, @bob_123, @test.user, and @dev-team";
    let result = anonymize_users(text, &mut map).unwrap();

    assert_eq!(map.len(), 4);
    assert!(result.contains("@user1"));
    assert!(result.contains("@user2"));
    assert!(result.contains("@user3"));
    assert!(result.contains("@user4"));
}

#[test]
fn test_trailing_period_handling() {
    let mut map = Mapping::new();

    let text = "See @john.doe. Also check @jane_smith.";
    let result = anonymize_users(text, &mut map).unwrap();

    assert!(result.contains("@user1."));
    assert!(result.contains("@user2."));
    assert_eq!(map.len(), 2);

    assert!(map.contains_key("@john.doe"));
    assert!(map.contains_key("@jane_smith"));
}

#[test]
fn test_anonymize_display_names() {
    let mut map = Mapping::new();
    let text = "**Jon Snow** Today at 3:17 PM\nHello Aria Stark and John Doe";
    let result = anonymize_display_names(text, &mut map).unwrap();

    assert!(result.contains("name1"));
    assert!(result.contains("name2"));
    assert!(result.contains("name3"));
    assert!(!result.contains("Jon Snow"));
    assert!(!result.contains("Aria Stark"));
    assert!(!result.contains("John Doe"));
}

#[test]
fn test_display_name_pattern_requirements() {
    let mut map = Mapping::new();

    let text = "Alice Smith and Bob Jones met with Carol White";
    let _result = anonymize_display_names(text, &mut map).unwrap();

    assert_eq!(map.len(), 3);
    assert!(map.contains_key("Alice Smith"));
    assert!(map.contains_key("Bob Jones"));
    assert!(map.contains_key("Carol White"));
}

#[test]
fn test_display_name_edge_cases() {
    let mut map = Mapping::new();

    let text = "john smith and Alice and Bob Smith Jones should not all match";
    let _result = anonymize_display_names(text, &mut map).unwrap();

    assert_eq!(map.len(), 1);
    assert!(map.contains_key("Bob Smith"));
    assert!(!map.contains_key("john smith"));
    assert!(!map.contains_key("Alice"));
    assert!(!map.contains_key("Smith Jones"));
}

#[test]
fn test_user_pattern_handles_both_formats() {
    let mut map = Mapping::new();

    let text = "Contact @john.doe and @Aria Stark about the issue";
    let result = anonymize_users(text, &mut map).unwrap();

    assert_eq!(map.len(), 2);
    assert!(map.contains_key("@john.doe"));
    assert!(map.contains_key("@Aria Stark"));

    assert!(result.contains("@user1"));
    assert!(result.contains("@user2"));
    assert!(!result.contains("@john.doe"));
    assert!(!result.contains("@Aria Stark"));
}

#[test]
fn test_slack_message_format() {
    let mut display_map = Mapping::new();
    let mut user_map = Mapping::new();

    let text = "**Jon Snow Jon Snow**  Today at 3:17 pm\n@Aria Stark глянь пліз до цього";

    let result = anonymize_users(text, &mut user_map).unwrap();
    let result = anonymize_display_names(&result, &mut display_map).unwrap();

    assert!(result.contains("name1 name1"));
    assert!(!result.contains("Jon Snow"));
    assert!(!result.contains("@Aria Stark"));
    assert!(result.contains("@user1"));

    assert_eq!(display_map.len(), 1);
    assert_eq!(user_map.len(), 1);
}

#[test]
fn test_anonymize_channels() {
    let mut map = Mapping::new();
    let text = "Check #general and #random-thoughts";
    let result = anonymize_channels(text, &mut map).unwrap();

    assert!(result.contains("#ch1"));
    assert!(result.contains("#ch2"));
    assert_eq!(map.len(), 2);
}

#[test]
fn test_anonymize_emails() {
    let mut map = Mapping::new();
    let text = "Contact john@company.com or support@client.org";
    let result = anonymize_emails(text, &mut map).unwrap();

    assert!(result.contains("user1@domain1.com"));
    assert!(result.contains("user2@domain2.com"));
    assert_eq!(map.len(), 2);
}

#[test]
fn test_anonymize_urls() {
    let mut map = Mapping::new();
    let text = "Visit https://company.com/docs and http://client.org";
    let result = anonymize_urls(text, &mut map).unwrap();

    assert!(result.contains("https://example1.com/docs"));
    assert!(result.contains("https://example2.com"));
    assert_eq!(map.len(), 2);
}

#[test]
fn test_anonymize_keywords() {
    let mut map = Mapping::new();
    let keywords = vec!["ProjectX".to_string(), "ClientABC".to_string()];
    let text = "ProjectX needs review and ClientABC approved it";
    let result = anonymize_keywords(text, &keywords, &mut map).unwrap();

    assert!(result.contains("keyword1"));
    assert!(result.contains("keyword2"));
    assert_eq!(map.len(), 2);
}

#[test]
fn test_consistency() {
    let mut map = Mapping::new();
    let text1 = "Hey @john.doe";
    let text2 = "Hi @john.doe again";

    let result1 = anonymize_users(text1, &mut map).unwrap();
    let result2 = anonymize_users(text2, &mut map).unwrap();

    assert_eq!(result1, "Hey @user1");
    assert_eq!(result2, "Hi @user1 again");
    assert_eq!(map.len(), 1);
}
