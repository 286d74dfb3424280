use slack_anonymizer::{format_legend, AnonymizationMap};

#[test]
fn test_empty_legend() {
    let map = AnonymizationMap::new();
    let legend = format_legend(&map).unwrap();
    assert!(legend.is_empty());
}

#[test]
fn test_format_legend() {
    let mut map = AnonymizationMap::new();
    map.users
        .insert("@john.doe".to_string(), "@user1".to_string());
    map.channels
        .insert("#general".to_string(), "#ch1".to_string());
    map.emails.insert(
        "test@example.com".to_string(),
        "user1@domain1.com".to_string(),
    );

    let legend = format_legend(&map).unwrap();

    assert!(legend.contains("=== ANONYMIZATION LEGEND ==="));
    assert!(legend.contains("@john.doe → @user1"));
    assert!(legend.contains("#general → #ch1"));
    assert!(legend.contains("test@example.com → user1@domain1.com"));
}

#[test]
fn test_legend_sorting() {
    let mut map = AnonymizationMap::new();
    map.users.insert("@beta".to_string(), "@user2".to_string());
    map.users.insert("@alpha".to_string(), "@user1".to_string());

    let legend = format_legend(&map).unwrap();
    let lines: Vec<&str> = legend.lines().collect();

    let user1_pos = lines.iter().position(|line| line.contains("@user1"));
    let user2_pos = lines.iter().position(|line| line.contains("@user2"));

    assert!(user1_pos < user2_pos);
}
