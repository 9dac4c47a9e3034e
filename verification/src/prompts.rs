//! Prompt building utilities for classification.

use crate::json;
use crate::json::{array_value, empty_object, set_member, text_value, texts_value};
use crate::label_map::LabelMap;
use crate::text;
use crate::types::Choices;
use serde_json::Value;
use vstd::prelude::*;

verus! {

broadcast use LabelMap::lemma_keys;

/// Default system prompt for classification.
pub const DEFAULT_SYSTEM_PROMPT: &'static str =
    "You are a precise text classifier. Your task is to classify the given text into exactly one of the provided categories. Respond with only the category label, nothing else.";

/// What stands before the choices in the user prompt.
pub const PROMPT_HEAD: &'static str = "Classify the following text into one of these categories:\n\n";

/// What stands between the choices and the text.
pub const PROMPT_MIDDLE: &'static str = "\n\nText to classify:\n";

/// What stands behind the text.
pub const PROMPT_TAIL: &'static str = "\n\nRespond with only the category label.";

/// The choices as lines, one for each label.
pub open spec fn choice_lines(choices: Choices) -> Seq<Seq<char>> {
    match choices {
        Choices::Labels(labels) => labels@.map_values(|l: String| "- "@ + l@),
        Choices::Descriptions(m) => m.keys().map_values(|l: Seq<char>| "- "@ + l + ": "@ + m@[l]@),
    }
}

/// The user prompt.
pub open spec fn user_prompt(text: Seq<char>, choices: Choices) -> Seq<char> {
    PROMPT_HEAD@ + text::join(choice_lines(choices), "\n"@) + PROMPT_MIDDLE@ + text + PROMPT_TAIL@
}

/// Build the system and user prompts for classification.
pub fn build_classification_prompt(
    text: &str,
    choices: &Choices,
    system_prompt: Option<&str>,
) -> (r: (String, String))
    ensures
        r.0@ == match system_prompt {
            Some(s) => s@,
            None => DEFAULT_SYSTEM_PROMPT@,
        },
        r.1@ == user_prompt(text@, *choices),
{
    let system = match system_prompt {
        Some(s) => s.to_owned(),
        None => DEFAULT_SYSTEM_PROMPT.to_owned(),
    };
    let mut user = PROMPT_HEAD.to_owned();
    user.append(format_choices(choices).as_str());
    user.append(PROMPT_MIDDLE);
    user.append(text);
    user.append(PROMPT_TAIL);
    (system, user)
}

/// Format choices for the prompt, one line for each.
pub fn format_choices(choices: &Choices) -> (r: String)
    ensures
        r@ == text::join(choice_lines(*choices), "\n"@),
{
    let mut lines: Vec<String> = Vec::new();
    match choices {
        Choices::Labels(labels) => {
            let n: usize = labels.len();
            for i in 0..n
                invariant
                    n == labels@.len(),
                    lines@.len() == i,
                    forall|j: int|
                        0 <= j < i ==> (#[trigger] lines@[j])@ == "- "@ + labels@[j]@,
            {
                let mut line = "- ".to_owned();
                line.append(labels[i].as_str());
                lines.push(line);
            }
        },
        Choices::Descriptions(m) => {
            let n: usize = m.len();
            for i in 0..n
                invariant
                    n == m.keys().len(),
                    lines@.len() == i,
                    forall|j: int|
                        0 <= j < i ==> (#[trigger] lines@[j])@ == "- "@ + m.keys()[j] + ": "@
                            + m@[m.keys()[j]]@,
            {
                let mut line = "- ".to_owned();
                line.append(m.key_at(i).as_str());
                line.append(": ");
                line.append(m.value_at(i).as_str());
                lines.push(line);
            }
        },
    }
    assert(text::texts(lines@) =~= choice_lines(*choices));
    text::join_texts(lines.as_slice(), "\n")
}

/// The line of every choice stands in the user prompt, and so does the text to
/// classify.
pub proof fn law_prompt_holds_choices_and_text(text: Seq<char>, choices: Choices, i: int)
    requires
        0 <= i < choice_lines(choices).len(),
    ensures
        text::occurs_in(choice_lines(choices)[i], user_prompt(text, choices)),
        text::occurs_in(text, user_prompt(text, choices)),
{
    let body = text::join(choice_lines(choices), "\n"@);
    let line = choice_lines(choices)[i];
    let prompt = user_prompt(text, choices);
    text::lemma_part_occurs(choice_lines(choices), "\n"@, i);
    let within = choose|at: int| text::stands_at(line, body, at);
    let at = PROMPT_HEAD@.len() + within;
    assert(line =~= prompt.subrange(at, at + line.len()));
    assert(text::stands_at(line, prompt, at));
    let start = (PROMPT_HEAD@.len() + body.len() + PROMPT_MIDDLE@.len()) as int;
    assert(text =~= prompt.subrange(start, start + text.len()));
    assert(text::stands_at(text, prompt, start));
}

/// Extract the choice labels from either format.
pub fn get_choice_labels(choices: &Choices) -> (r: Vec<String>)
    ensures
        text::texts(r@) == choices.spec_labels(),
{
    choices.labels()
}

/// The schema of an object whose `label` is one of the given labels.
pub open spec fn label_schema(labels: Seq<Seq<char>>) -> json::JsonView {
    json::JsonView::Object(
        map![
            "type"@ => json::JsonView::Text("object"@),
            "properties"@ => json::JsonView::Object(
                map![
                    "label"@ => json::JsonView::Object(
                        map![
                            "type"@ => json::JsonView::Text("string"@),
                            "enum"@ => json::texts_json(labels),
                        ],
                    ),
                ],
            ),
            "required"@ => json::JsonView::Array(seq![json::JsonView::Text("label"@)]),
        ],
    )
}

/// Build a JSON schema that constrains output to the given choices: an object
/// with one required member, `label`, whose value is one of the labels.
pub fn build_json_schema_for_choices(labels: &[String]) -> (r: Value)
    ensures
        json::json_of(r) == label_schema(text::texts(labels@)),
{
    let mut label = empty_object();
    set_member(&mut label, "type", text_value("string".to_owned()));
    set_member(&mut label, "enum", texts_value(labels));
    let mut properties = empty_object();
    set_member(&mut properties, "label", label);
    let mut required: Vec<Value> = Vec::new();
    required.push(text_value("label".to_owned()));
    assert(json::jsons_of(required@) =~= seq![json::JsonView::Text("label"@)]);
    let mut schema = empty_object();
    set_member(&mut schema, "type", text_value("object".to_owned()));
    set_member(&mut schema, "properties", properties);
    set_member(&mut schema, "required", array_value(required));
    schema
}

// ---------------------------------------------------------------------------
// Laws of prompts
// ---------------------------------------------------------------------------

/// There is a line for each label, in order: a dash, the label, and its
/// description where it has one.
pub proof fn law_every_label_has_a_line(choices: Choices, i: int)
    requires
        0 <= i < choices.spec_labels().len(),
    ensures
        choice_lines(choices).len() == choices.spec_labels().len(),
        choices is Labels ==> choice_lines(choices)[i] == "- "@ + choices.spec_labels()[i],
        choices matches Choices::Descriptions(m) ==> choice_lines(choices)[i] == "- "@
            + choices.spec_labels()[i] + ": "@ + m@[choices.spec_labels()[i]]@,
        text::occurs_in(choices.spec_labels()[i], choice_lines(choices)[i]),
{
    let label = choices.spec_labels()[i];
    let line = choice_lines(choices)[i];
    let at = "- "@.len() as int;
    assert(label =~= line.subrange(at, at + label.len()));
    assert(text::stands_at(label, line, at));
}

/// For given choices the prompt tells the text: no two texts have the same
/// prompt.
pub proof fn law_prompt_tells_the_text(a: Seq<char>, b: Seq<char>, choices: Choices)
    ensures
        user_prompt(a, choices) == user_prompt(b, choices) <==> a == b,
{
    let head = (PROMPT_HEAD@ + text::join(choice_lines(choices), "\n"@) + PROMPT_MIDDLE@).len() as int;
    if user_prompt(a, choices) == user_prompt(b, choices) {
        let p = user_prompt(a, choices);
        assert(p.len() == head + a.len() + PROMPT_TAIL@.len());
        assert(user_prompt(b, choices).len() == head + b.len() + PROMPT_TAIL@.len());
        assert(a =~= p.subrange(head, head + a.len()));
        assert(b =~= p.subrange(head, head + b.len()));
    }
}

/// The prompt is the head, the lines of the choices, the middle, the text and
/// the tail, one behind the other.
pub proof fn law_prompt_is_in_order(text: Seq<char>, choices: Choices)
    ensures
        ({
            let p = user_prompt(text, choices);
            let lines = text::join(choice_lines(choices), "\n"@);
            let a = PROMPT_HEAD@.len() as int;
            let b = a + lines.len();
            let c = b + PROMPT_MIDDLE@.len();
            let d = c + text.len();
            &&& p.take(a) == PROMPT_HEAD@
            &&& p.subrange(a, b) == lines
            &&& p.subrange(b, c) == PROMPT_MIDDLE@
            &&& p.subrange(c, d) == text
            &&& p.skip(d) == PROMPT_TAIL@
        }),
{
    let p = user_prompt(text, choices);
    let lines = text::join(choice_lines(choices), "\n"@);
    let a = PROMPT_HEAD@.len() as int;
    let b = a + lines.len();
    let c = b + PROMPT_MIDDLE@.len();
    let d = c + text.len();
    assert(p.take(a) =~= PROMPT_HEAD@);
    assert(p.subrange(a, b) =~= lines);
    assert(p.subrange(b, c) =~= PROMPT_MIDDLE@);
    assert(p.subrange(c, d) =~= text);
    assert(p.skip(d) =~= PROMPT_TAIL@);
}

/// The labels to choose from are those of the list, or the keys of the
/// descriptions, in their order.
pub proof fn law_labels_are_those_given(choices: Choices)
    ensures
        choices matches Choices::Labels(v) ==> choices.spec_labels().len() == v@.len() && forall|
            i: int,
        |
            0 <= i < v@.len() ==> #[trigger] choices.spec_labels()[i] == v@[i]@,
        choices matches Choices::Descriptions(m) ==> choices.spec_labels() == m.keys(),
{
}

/// The schema asks for an object whose one required member, `label`, is a
/// string out of the labels, each of them offered, in order.
pub proof fn law_schema_offers_every_label(labels: Seq<Seq<char>>)
    ensures
        ({
            let schema = label_schema(labels);
            let properties = json::member_of(schema, "properties"@);
            let label = json::inner(properties, "label"@);
            let offered = json::array_of(json::inner(label, "enum"@));
            &&& json::member_of(schema, "type"@) == Some(json::JsonView::Text("object"@))
            &&& json::member_of(schema, "required"@) == Some(
                json::JsonView::Array(seq![json::JsonView::Text("label"@)]),
            )
            &&& json::inner(label, "type"@) == Some(json::JsonView::Text("string"@))
            &&& offered is Some
            &&& offered->0.len() == labels.len()
            &&& forall|i: int|
                0 <= i < labels.len() ==> #[trigger] offered->0[i] == json::JsonView::Text(
                    labels[i],
                )
        }),
{
    reveal_strlit("type");
    reveal_strlit("properties");
    reveal_strlit("required");
    reveal_strlit("enum");
    assert("type"@.len() == 4 && "properties"@.len() == 10 && "required"@.len() == 8);
    assert("type"@[0] != "enum"@[0]);
}

} // verus!
