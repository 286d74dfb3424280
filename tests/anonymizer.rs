use slack_anonymizer::{anonymize_text, Options};

#[test]
fn test_basic_anonymization() {
    let text = "Hey @john, check #general and email test@example.com";
    let options = Options::default();

    let (result, map) = anonymize_text(text, &options).unwrap();
    println!("Result: {}", result);

    assert!(result.contains("@user1"));
    assert!(result.contains("#ch1"));
    assert!(result.contains("user1@domain1.com"));
    assert!(!map.is_empty());
}

#[test]
fn test_with_urls() {
    let text = "Visit https://company.com for more info";
    let options = Options::new(true, vec![]);

    let (result, map) = anonymize_text(text, &options).unwrap();

    assert!(result.contains("https://example1.com"));
    assert!(!map.urls.is_empty());
}

#[test]
fn test_with_keywords() {
    let text = "ProjectX is ready and ClientABC approved";
    let keywords = vec!["ProjectX".to_string(), "ClientABC".to_string()];
    let options = Options::new(false, keywords);

    let (result, map) = anonymize_text(text, &options).unwrap();

    assert!(result.contains("keyword1"));
    assert!(result.contains("keyword2"));
    assert!(!map.keywords.is_empty());
}

#[test]
fn test_processing_order() {
    let text = "Contact @support about ProjectX";
    let keywords = vec!["support".to_string()];
    let options = Options::new(false, keywords);

    let (result, _) = anonymize_text(text, &options).unwrap();

    assert!(result.contains("@user1"));
    assert!(!result.contains("keyword1"));
    assert!(!result.contains("@keyword1"));
}

#[test]
fn test_empty_text() {
    let text = "";
    let options = Options::default();

    let (result, map) = anonymize_text(text, &options).unwrap();

    assert_eq!(result, "");
    assert!(map.is_empty());
}

#[test]
fn test_complex_text() {
    let text = r#"
        Hey @john.doe and @jane_smith!
        
        Please check #general and #dev-team channels.
        Contact support@company.com or sales@client.org
        Visit https://company.com/docs and http://client.org/help
        
        ProjectX needs review and ClientABC approved it.
        The SecretFeature is ready for testing.
        "#;

    let keywords = vec![
        "ProjectX".to_string(),
        "ClientABC".to_string(),
        "SecretFeature".to_string(),
    ];
    let options = Options::new(true, keywords);

    let (result, map) = anonymize_text(text, &options).unwrap();

    assert!(!map.users.is_empty());
    assert!(!map.channels.is_empty());
    assert!(!map.emails.is_empty());
    assert!(!map.urls.is_empty());
    assert!(!map.keywords.is_empty());

    assert!(result.contains("@user"));
    assert!(result.contains("#ch"));
    assert!(result.contains("@domain"));
    assert!(result.contains("https://example"));
    assert!(result.contains("keyword"));
}
