use ollama_classifier_rs::label_map::LabelMap;
use ollama_classifier_rs::prompts::{
    build_classification_prompt, build_json_schema_for_choices, format_choices, get_choice_labels,
};
use ollama_classifier_rs::Choices;
use serde_json::Value;

#[test]
fn test_format_choices_labels() {
    let choices = Choices::Labels(vec!["positive".into(), "negative".into(), "neutral".into()]);
    let formatted = format_choices(&choices);
    assert!(formatted.contains("- positive"));
    assert!(formatted.contains("- negative"));
    assert!(formatted.contains("- neutral"));
    assert_eq!(formatted, "- positive\n- negative\n- neutral");
}

#[test]
fn test_format_choices_descriptions() {
    let mut map = LabelMap::new();
    map.insert(
        "positive".to_string(),
        "The text expresses a positive sentiment.".to_string(),
    );
    map.insert(
        "negative".to_string(),
        "The text expresses a negative sentiment.".to_string(),
    );
    let choices = Choices::Descriptions(map);
    let formatted = format_choices(&choices);
    assert!(formatted.contains("- positive:"));
    assert!(formatted.contains("- negative:"));
    assert_eq!(
        formatted,
        "- positive: The text expresses a positive sentiment.\n- negative: The text expresses a negative sentiment."
    );
}

#[test]
fn test_build_json_schema() {
    let labels: Vec<String> = vec!["positive".into(), "negative".into()];
    let schema = build_json_schema_for_choices(&labels);
    assert_eq!(schema["type"], "object");
    assert_eq!(schema["properties"]["label"]["type"], "string");
    assert_eq!(schema["required"], Value::from(vec!["label"]));
    assert_eq!(
        schema["properties"]["label"]["enum"],
        Value::from(vec!["positive", "negative"])
    );
}

#[test]
fn test_build_classification_prompt_default_system() {
    let choices = Choices::Labels(vec!["positive".into(), "negative".into()]);
    let (system, user) = build_classification_prompt("Great product!", &choices, None);
    assert!(system.contains("text classifier"));
    assert!(user.contains("Great product!"));
    assert!(user.contains("- positive"));
}

#[test]
fn test_build_classification_prompt_custom_system() {
    let choices = Choices::Labels(vec!["yes".into(), "no".into()]);
    let (system, _) = build_classification_prompt("test", &choices, Some("Custom prompt"));
    assert_eq!(system, "Custom prompt");
}

#[test]
fn whole_prompt_is_as_documented() {
    let choices = Choices::from(vec!["a", "b"]);
    let (system, user) = build_classification_prompt("some text", &choices, None);
    assert_eq!(
        system,
        "You are a precise text classifier. Your task is to classify the given text into exactly one of the provided categories. Respond with only the category label, nothing else."
    );
    assert_eq!(
        user,
        "Classify the following text into one of these categories:\n\n- a\n- b\n\nText to classify:\nsome text\n\nRespond with only the category label."
    );
}

#[test]
fn no_choices_give_no_lines() {
    assert_eq!(format_choices(&Choices::Labels(vec![])), "");
}

#[test]
fn labels_come_in_order() {
    let choices = Choices::from(vec!["z".to_string(), "a".to_string()]);
    assert_eq!(get_choice_labels(&choices), vec!["z", "a"]);
    assert!(!choices.is_descriptions());
    let mut map = LabelMap::new();
    map.insert("z".to_string(), "last".to_string());
    map.insert("a".to_string(), "first".to_string());
    let choices = Choices::from(map);
    assert_eq!(choices.labels(), vec!["z", "a"]);
    assert!(choices.is_descriptions());
}
