use eisenhower::auth::{check_basic_auth, credentials_match};
use eisenhower::taxonomy::{category_for_bucket, color_class, parse_bucket, parse_task_type, Bucket, TaskType};
use eisenhower::text::{html_escape, same_text, split_timestamp};

#[test]
fn bucket_tokens_round_trip() {
    let all = [
        Bucket::UrgentImportant,
        Bucket::UrgentNotImportant,
        Bucket::NotUrgentImportant,
        Bucket::NotUrgentNotImportant,
        Bucket::Today,
    ];
    for b in all {
        assert_eq!(parse_bucket(b.as_str()), Some(b));
    }
    assert_eq!(Bucket::Today.as_str(), "Today");
    assert_eq!(parse_bucket("Inbox"), None);
    assert_eq!(parse_bucket(""), None);
    assert_eq!(parse_bucket("today"), None);
    assert_eq!(parse_bucket("UrgentImportant "), None);
}

#[test]
fn task_type_tokens_round_trip() {
    let all = [
        TaskType::UrgentImportant,
        TaskType::UrgentNotImportant,
        TaskType::NotUrgentImportant,
        TaskType::NotUrgentNotImportant,
    ];
    for t in all {
        assert_eq!(parse_task_type(t.as_str()), Some(t));
    }
    assert_eq!(TaskType::NotUrgentImportant.as_str(), "NotUrgentImportant");
    assert_eq!(parse_task_type("Today"), None);
}

#[test]
fn category_mapping() {
    assert_eq!(category_for_bucket(Bucket::Today), None);
    assert_eq!(category_for_bucket(Bucket::UrgentNotImportant), Some(TaskType::UrgentNotImportant));
    assert_eq!(TaskType::from_bucket(Bucket::Today), TaskType::UrgentImportant);
    assert_eq!(TaskType::from_bucket(Bucket::NotUrgentImportant), TaskType::NotUrgentImportant);
}

#[test]
fn escapes_html_specials() {
    assert_eq!(html_escape("a < b && c > d"), "a &lt; b &amp;&amp; c &gt; d");
    assert_eq!(html_escape("plain \"text\" é"), "plain \"text\" é");
    assert_eq!(html_escape(""), "");
}

#[test]
fn compares_text() {
    assert!(same_text("abc", "abc"));
    assert!(!same_text("abc", "abd"));
    assert!(!same_text("abc", "ab"));
}

#[test]
fn basic_auth_accepts_right_credentials() {
    // "admin:password"
    assert!(check_basic_auth("Basic YWRtaW46cGFzc3dvcmQ=", "admin", "password"));
    assert!(!check_basic_auth("Basic YWRtaW46cGFzc3dvcmQ=", "admin", "secret"));
    assert!(!check_basic_auth("Bearer YWRtaW46cGFzc3dvcmQ=", "admin", "password"));
    assert!(!check_basic_auth("Basic not*base64", "admin", "password"));
    assert!(!check_basic_auth("Basic", "admin", "password"));
}

#[test]
fn basic_auth_password_may_hold_colons() {
    // "u:a:b"
    assert!(check_basic_auth("Basic dTphOmI=", "u", "a:b"));
}

#[test]
fn credentials_split_at_first_colon() {
    assert!(credentials_match("admin:pw", "admin", "pw"));
    assert!(credentials_match("admin", "admin", ""));
    assert!(credentials_match(":", "", ""));
    assert!(!credentials_match("admin:pw", "admin", "p"));
}

#[test]
fn chip_color_follows_bucket_or_category_in_today() {
    assert_eq!(color_class(Bucket::Today, TaskType::NotUrgentNotImportant), "color-NUN");
    assert_eq!(color_class(Bucket::Today, TaskType::UrgentNotImportant), "color-UNI");
    assert_eq!(color_class(Bucket::NotUrgentImportant, TaskType::UrgentImportant), "color-NUI");
    assert_eq!(color_class(Bucket::UrgentImportant, TaskType::UrgentImportant), "color-UI");
}

#[test]
fn splits_time_stamps_for_display() {
    assert_eq!(
        split_timestamp("2024-05-01T12:34:56.789Z"),
        ("2024-05-01".to_string(), "12:34:56".to_string())
    );
    assert_eq!(
        split_timestamp("2024-05-01 08:00:00"),
        ("2024-05-01".to_string(), "08:00:00".to_string())
    );
    assert_eq!(split_timestamp("yesterday"), ("yesterday".to_string(), String::new()));
    assert_eq!(split_timestamp(""), (String::new(), String::new()));
}
