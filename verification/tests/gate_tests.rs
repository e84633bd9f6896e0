use image_gallery::gate::{validator, validator_opt, Credential};

fn allow_list() -> Vec<Credential> {
    vec![Credential { username: "a".to_string(), password: "1".to_string() }]
}

#[test]
fn exact_pair_is_accepted() {
    let allowed = allow_list();
    assert!(validator(&"a".to_string(), &"1".to_string(), &allowed));
}

#[test]
fn wrong_password_wrong_user_and_empty_password_all_fail() {
    let allowed = allow_list();
    assert!(!validator(&"a".to_string(), &"2".to_string(), &allowed));
    assert!(!validator(&"b".to_string(), &"1".to_string(), &allowed));
    assert!(!validator(&"a".to_string(), &"".to_string(), &allowed));
}

#[test]
fn any_entry_of_the_list_matches() {
    let allowed = vec![
        Credential { username: "a".to_string(), password: "1".to_string() },
        Credential { username: "b".to_string(), password: "2".to_string() },
    ];
    assert!(validator(&"b".to_string(), &"2".to_string(), &allowed));
    assert!(!validator(&"a".to_string(), &"2".to_string(), &allowed));
    assert!(!validator(&"b".to_string(), &"1".to_string(), &allowed));
}

#[test]
fn empty_allow_list_rejects_everything() {
    let allowed: Vec<Credential> = Vec::new();
    assert!(!validator(&"a".to_string(), &"1".to_string(), &allowed));
    assert!(!validator(&"".to_string(), &"".to_string(), &allowed));
}

#[test]
fn absent_password_counts_as_empty_string() {
    let allowed = allow_list();
    assert!(!validator_opt(&"a".to_string(), &None, &allowed));
    assert!(validator_opt(&"a".to_string(), &Some("1".to_string()), &allowed));
    let empty_pw = vec![Credential { username: "guest".to_string(), password: "".to_string() }];
    assert!(validator_opt(&"guest".to_string(), &None, &empty_pw));
    assert!(!validator_opt(&"guest".to_string(), &Some("x".to_string()), &empty_pw));
}
