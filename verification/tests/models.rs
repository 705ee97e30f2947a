use clip_cli::models::check_model_listed;

fn listing(names: &[Option<&str>]) -> Vec<Option<String>> {
    names.iter().map(|n| n.map(|s| s.to_string())).collect()
}

#[test]
fn model_with_a_tag_is_available() {
    let l = listing(&[Some("llama3:latest"), Some("mistral:7b")]);
    assert!(check_model_listed("mistral", Some(&l)).is_ok());
    assert!(check_model_listed("mistral:7b", Some(&l)).is_ok());
    assert!(check_model_listed("llama3", Some(&l)).is_ok());
}

#[test]
fn model_listed_under_its_own_name_is_available() {
    let l = listing(&[Some("phi3")]);
    assert!(check_model_listed("phi3", Some(&l)).is_ok());
}

#[test]
fn a_longer_model_name_does_not_make_the_model_available() {
    let l = listing(&[Some("mistral-nemo:latest"), Some("llama3.1:8b")]);
    assert_eq!(
        check_model_listed("mistral", Some(&l)),
        Err(vec!["mistral-nemo:latest".to_string(), "llama3.1:8b".to_string()])
    );
    assert!(check_model_listed("llama3", Some(&l)).is_err());
    assert!(check_model_listed("mistral:7b", Some(&listing(&[Some("mistral")]))).is_err());
}

#[test]
fn missing_model_reports_listed_names() {
    let l = listing(&[Some("llama3:latest"), None, Some("phi3")]);
    assert_eq!(
        check_model_listed("mistral", Some(&l)),
        Err(vec!["llama3:latest".to_string(), "phi3".to_string()])
    );
    assert_eq!(check_model_listed("mistral", Some(&vec![])), Err(vec![]));
}

#[test]
fn answer_without_model_list_is_accepted() {
    assert!(check_model_listed("anything", None).is_ok());
}
