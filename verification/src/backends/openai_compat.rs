//! Requests and replies shared by the OpenAI-compatible backends.
//!
//! vLLM, SGLang, and llama.cpp differ only in the member that constrains
//! output to a label set and in how completion scoring works. Those
//! differences are captured by [`Constraint`] and [`BoundaryStrategy`].
//!
//! - **Echo/prefill** (vLLM, SGLang): `/v1/completions` with `echo=true`
//!   recovers the per-token log probabilities of a completion. The `/tokenize`
//!   endpoint pinpoints the prompt/completion boundary.
//! - **Forced constrained generation** (llama.cpp): forces the completion as
//!   the only valid label and reads back its log probabilities.
//!
//! Labels are tokenized by forced constrained generation too, since a model
//! under constraint emits other token boundaries than a tokenizer alone.

use crate::backends::base;
use crate::backends::base::{
    build_chat_body, normalize_base_url, parse_token_logprob_array, read_candidates,
    render_prompt, score_or, tokens_of_forced, ChatMessage, ChatResponse, ScoreFailure,
    ScoringResponse, Token, TokenCache, TokenLogprob, TokenizeStep,
};
use crate::json;
use crate::json::{
    bool_value, count_value, empty_object, inner_array, inner_float, inner_integer,
    inner_member, inner_text, member, merge_extra, nth_element, set_member, text_value,
    texts_value, zero_value,
};
use crate::label_map::LabelMap;
use crate::scalar::Scalar;
use crate::selection;
use crate::text;
use serde_json::Value;
use std::time::Duration;
use vstd::prelude::*;

verus! {

// ---------------------------------------------------------------------------
// Special tokens
// ---------------------------------------------------------------------------

/// End-of-sequence and other special tokens, which constrained responses may
/// carry beside the label. Covers Llama-3, Phi, and Qwen.
pub const SPECIAL_TOKENS: [&'static str; 7] = [
    "<|im_end|>",
    "<|endoftext|>",
    "</s>",
    "<|end_of_turn|>",
    "<|eot_id|>",
    "<|end|>",
    "<|eom_id|>",
];

/// The special tokens as texts.
pub open spec fn special_tokens() -> Seq<Seq<char>> {
    SPECIAL_TOKENS@.map_values(|s: &'static str| s@)
}

/// Whether a token is part of a label: neither blank nor special.
pub open spec fn is_value_token(token: Seq<char>) -> bool {
    text::trimmed(token).len() > 0 && !special_tokens().contains(token)
}

/// The positions whose tokens are part of a label.
pub open spec fn value_positions(v: Seq<base::TokenLogprobView>) -> Seq<base::TokenLogprobView> {
    v.filter(|t: base::TokenLogprobView| is_value_token(t.token))
}

/// Whether a token is one of the special tokens.
fn is_special(token: &String) -> (r: bool)
    ensures
        r == special_tokens().contains(token@),
{
    for i in 0..SPECIAL_TOKENS.len()
        invariant
            forall|j: int| 0 <= j < i ==> #[trigger] special_tokens()[j] != token@,
    {
        if *token == SPECIAL_TOKENS[i].to_owned() {
            assert(special_tokens()[i as int] == token@);
            return true;
        }
        assert(special_tokens()[i as int] == SPECIAL_TOKENS[i as int]@);
    }
    false
}

/// Filter out special / end-of-sequence tokens and blank ones.
///
/// For bare-label backends the constraint guarantees that only label text is
/// generated besides.
pub fn filter_special_tokens(logprobs: &[TokenLogprob]) -> (r: Vec<TokenLogprob>)
    ensures
        base::logprob_views(r@) == value_positions(base::logprob_views(logprobs@)),
{
    let mut r: Vec<TokenLogprob> = Vec::new();
    let n: usize = logprobs.len();
    let ghost all = base::logprob_views(logprobs@);
    proof {
        reveal(Seq::filter);
        assert(all.take(0) =~= Seq::<base::TokenLogprobView>::empty());
        assert(base::logprob_views(r@) =~= value_positions(all.take(0)));
    }
    for i in 0..n
        invariant
            n == logprobs@.len(),
            all == base::logprob_views(logprobs@),
            base::logprob_views(r@) == value_positions(all.take(i as int)),
    {
        let t = &logprobs[i];
        let ghost before = r@;
        proof {
            reveal(Seq::filter);
            assert(all.take(i + 1).drop_last() =~= all.take(i as int));
            assert(all[i as int] == t@);
        }
        let bare = text::trim(t.token.as_str());
        if text::size_of(bare.as_str()) > 0 && !is_special(&t.token) {
            r.push(t.clone());
            assert(base::logprob_views(r@) =~= base::logprob_views(before).push(t@));
        }
    }
    assert(all.take(n as int) =~= all);
    r
}

/// What is kept is neither blank nor special and was there before, and
/// filtering it again keeps all of it.
pub proof fn law_value_positions(v: Seq<base::TokenLogprobView>)
    ensures
        forall|i: int|
            0 <= i < value_positions(v).len() ==> is_value_token(
                (#[trigger] value_positions(v)[i]).token,
            ) && v.contains(value_positions(v)[i]),
        value_positions(value_positions(v)) == value_positions(v),
{
    let keeps = |t: base::TokenLogprobView| is_value_token(t.token);
    let kept = value_positions(v);
    assert forall|i: int| 0 <= i < kept.len() implies is_value_token((#[trigger] kept[i]).token)
        && v.contains(kept[i]) by {
        v.lemma_filter_pred(keeps, i);
        assert(kept.contains(kept[i]));
        v.lemma_filter_contains_rev(keeps, kept[i]);
    }
    lemma_filter_all(kept, keeps);
}

/// Filtering keeps a list all of whose elements are kept.
proof fn lemma_filter_all(
    v: Seq<base::TokenLogprobView>,
    keeps: spec_fn(base::TokenLogprobView) -> bool,
)
    requires
        forall|i: int| 0 <= i < v.len() ==> keeps(#[trigger] v[i]),
    ensures
        v.filter(keeps) == v,
    decreases v.len(),
{
    reveal(Seq::filter);
    if v.len() > 0 {
        let rest = v.drop_last();
        assert forall|i: int| 0 <= i < rest.len() implies keeps(#[trigger] rest[i]) by {
            assert(rest[i] == v[i]);
        }
        lemma_filter_all(rest, keeps);
        assert(keeps(v[v.len() - 1]));
        assert(rest.push(v.last()) =~= v);
    } else {
        assert(v.filter(keeps) =~= v);
    }
}

// ---------------------------------------------------------------------------
// Escaping
// ---------------------------------------------------------------------------

/// A character that means something in a regular expression.
pub open spec fn is_regex_special(c: char) -> bool {
    c == '.' || c == '^' || c == '$' || c == '*' || c == '+' || c == '?' || c == '(' || c == ')'
        || c == '[' || c == ']' || c == '{' || c == '}' || c == '\\' || c == '|' || c == '/'
}

/// A character that means something in a GBNF string literal.
pub open spec fn is_grammar_special(c: char) -> bool {
    c == '\\' || c == '"'
}

/// A text with a backslash before each special character.
pub open spec fn escaped(s: Seq<char>, special: spec_fn(char) -> bool) -> Seq<char>
    decreases s.len(),
{
    if s.len() == 0 {
        Seq::empty()
    } else {
        let before = escaped(s.drop_last(), special);
        if special(s.last()) {
            before.push('\\').push(s.last())
        } else {
            before.push(s.last())
        }
    }
}

/// Escape special characters for a Python `re`-style regex alternation.
pub fn regex_escape(s: &str) -> (r: String)
    ensures
        r@ == escaped(s@, |c: char| is_regex_special(c)),
{
    let mut r = String::new();
    let ghost special = |c: char| is_regex_special(c);
    assert(r@ =~= escaped(s@.take(0), special));
    for c in it: s.chars()
        invariant
            it.seq() == s@,
            special == (|c: char| is_regex_special(c)),
            r@ == escaped(s@.take(it.index() as int), special),
    {
        proof {
            assert(s@.take(it.index() + 1).drop_last() =~= s@.take(it.index() as int));
        }
        if c == '.' || c == '^' || c == '$' || c == '*' || c == '+' || c == '?' || c == '(' || c
            == ')' || c == '[' || c == ']' || c == '{' || c == '}' || c == '\\' || c == '|' || c
            == '/' {
            r.push('\\');
        }
        r.push(c);
    }
    assert(s@.take(s@.len() as int) =~= s@);
    r
}

/// Escape a label for a GBNF string literal.
pub fn grammar_escape(s: &str) -> (r: String)
    ensures
        r@ == escaped(s@, |c: char| is_grammar_special(c)),
{
    let mut r = String::new();
    let ghost special = |c: char| is_grammar_special(c);
    assert(r@ =~= escaped(s@.take(0), special));
    for c in it: s.chars()
        invariant
            it.seq() == s@,
            special == (|c: char| is_grammar_special(c)),
            r@ == escaped(s@.take(it.index() as int), special),
    {
        proof {
            assert(s@.take(it.index() + 1).drop_last() =~= s@.take(it.index() as int));
        }
        if c == '\\' || c == '"' {
            r.push('\\');
        }
        r.push(c);
    }
    assert(s@.take(s@.len() as int) =~= s@);
    r
}

/// The text that an escaped text stands for: a backslash makes the character
/// after it plain. There is none where a special character is not escaped, or
/// where nothing follows a backslash.
pub open spec fn unescaped(t: Seq<char>, special: spec_fn(char) -> bool) -> Option<Seq<char>>
    decreases t.len(),
{
    if t.len() == 0 {
        Some(Seq::empty())
    } else if t[0] == '\\' {
        if t.len() == 1 {
            None
        } else {
            match unescaped(t.skip(2), special) {
                Some(s) => Some(seq![t[1]] + s),
                None => None,
            }
        }
    } else if special(t[0]) {
        None
    } else {
        match unescaped(t.skip(1), special) {
            Some(s) => Some(seq![t[0]] + s),
            None => None,
        }
    }
}

/// Reading an escaped text, followed by more, gives the text and what the rest
/// gives.
proof fn lemma_unescape(s: Seq<char>, rest: Seq<char>, special: spec_fn(char) -> bool)
    requires
        special('\\'),
    ensures
        unescaped(escaped(s, special) + rest, special) == match unescaped(rest, special) {
            Some(r) => Some(s + r),
            None => None,
        },
    decreases s.len(),
{
    if s.len() == 0 {
        assert(escaped(s, special) + rest =~= rest);
        match unescaped(rest, special) {
            Some(r) => assert(s + r =~= r),
            None => {},
        }
    } else {
        let last = s.last();
        let head = s.drop_last();
        let tail = if special(last) {
            seq!['\\', last] + rest
        } else {
            seq![last] + rest
        };
        lemma_unescape(head, tail, special);
        assert(escaped(s, special) + rest =~= escaped(head, special) + tail);
        if special(last) {
            assert(tail.skip(2) =~= rest);
        } else {
            assert(tail.skip(1) =~= rest);
        }
        match unescaped(rest, special) {
            Some(r) => assert(head + (seq![last] + r) =~= s + r),
            None => {},
        }
    }
}

/// A label escaped for a regular expression stands for itself: every special
/// character in it is escaped, and reading it gives the label back.
pub proof fn law_regex_escape_reads_back(label: Seq<char>)
    ensures
        unescaped(escaped(label, |c: char| is_regex_special(c)), |c: char| is_regex_special(c))
            == Some(label),
{
    let special = |c: char| is_regex_special(c);
    lemma_unescape(label, Seq::empty(), special);
    assert(escaped(label, special) + Seq::<char>::empty() =~= escaped(label, special));
    assert(label + Seq::<char>::empty() =~= label);
}

/// A label escaped for a GBNF literal stands for itself: it cannot end the
/// literal, and reading it gives the label back.
pub proof fn law_grammar_escape_reads_back(label: Seq<char>)
    ensures
        unescaped(escaped(label, |c: char| is_grammar_special(c)), |c: char| is_grammar_special(c))
            == Some(label),
{
    let special = |c: char| is_grammar_special(c);
    lemma_unescape(label, Seq::empty(), special);
    assert(escaped(label, special) + Seq::<char>::empty() =~= escaped(label, special));
    assert(label + Seq::<char>::empty() =~= label);
}

// ---------------------------------------------------------------------------
// Constraints
// ---------------------------------------------------------------------------

/// How an OpenAI-compatible backend constrains output to a label set.
#[derive(Debug, Clone, Copy, PartialEq, Eq, Structural)]
pub enum Constraint {
    /// vLLM: `structured_outputs.choice` = labels (vLLM v0.12.0+).
    StructuredOutputsChoice,
    /// SGLang: `regex` = `(label1|label2|...)`.
    Regex,
    /// llama.cpp: `grammar` = GBNF rule `root ::= "a" | "b" | ...`.
    Grammar,
}

/// The regular expression that matches one of the labels.
pub open spec fn label_regex(labels: Seq<Seq<char>>) -> Seq<char> {
    "("@ + text::join(
        labels.map_values(|l: Seq<char>| escaped(l, |c: char| is_regex_special(c))),
        "|"@,
    ) + ")"@
}

/// The GBNF rule that generates one of the labels.
pub open spec fn label_grammar(labels: Seq<Seq<char>>) -> Seq<char> {
    "root ::= "@ + text::join(
        labels.map_values(
            |l: Seq<char>| "\""@ + escaped(l, |c: char| is_grammar_special(c)) + "\""@,
        ),
        " | "@,
    )
}

impl Constraint {
    /// The member of a request that carries the constraint.
    pub open spec fn field(self) -> Seq<char> {
        match self {
            Constraint::StructuredOutputsChoice => "structured_outputs"@,
            Constraint::Regex => "regex"@,
            Constraint::Grammar => "grammar"@,
        }
    }

    /// The value of that member for a label set.
    pub open spec fn constraint_json(self, labels: Seq<Seq<char>>) -> json::JsonView {
        match self {
            Constraint::StructuredOutputsChoice => json::JsonView::Object(
                map!["choice"@ => json::texts_json(labels)],
            ),
            Constraint::Regex => json::JsonView::Text(label_regex(labels)),
            Constraint::Grammar => json::JsonView::Text(label_grammar(labels)),
        }
    }

    /// Apply this constraint to an OpenAI-compatible request body.
    pub fn apply(&self, body: &mut Value, labels: &[String])
        requires
            json::json_of(*old(body)) is Object || json::json_of(*old(body)) is Null,
        ensures
            json::json_of(*final(body)) == json::JsonView::Object(
                json::members_of(json::json_of(*old(body))).insert(
                    self.field(),
                    self.constraint_json(text::texts(labels@)),
                ),
            ),
    {
        match self {
            Constraint::StructuredOutputsChoice => {
                let mut choice = empty_object();
                set_member(&mut choice, "choice", texts_value(labels));
                set_member(body, "structured_outputs", choice);
            },
            Constraint::Regex => {
                let mut alternatives: Vec<String> = Vec::new();
                let n: usize = labels.len();
                for i in 0..n
                    invariant
                        n == labels@.len(),
                        alternatives@.len() == i,
                        forall|j: int|
                            0 <= j < i ==> (#[trigger] alternatives@[j])@ == escaped(
                                labels@[j]@,
                                |c: char| is_regex_special(c),
                            ),
                {
                    alternatives.push(regex_escape(labels[i].as_str()));
                }
                assert(text::texts(alternatives@) =~= text::texts(labels@).map_values(
                    |l: Seq<char>| escaped(l, |c: char| is_regex_special(c)),
                ));
                let mut pattern = "(".to_owned();
                pattern.append(text::join_texts(alternatives.as_slice(), "|").as_str());
                pattern.append(")");
                set_member(body, "regex", text_value(pattern));
            },
            Constraint::Grammar => {
                let mut alternatives: Vec<String> = Vec::new();
                let n: usize = labels.len();
                for i in 0..n
                    invariant
                        n == labels@.len(),
                        alternatives@.len() == i,
                        forall|j: int|
                            0 <= j < i ==> (#[trigger] alternatives@[j])@ == "\""@ + escaped(
                                labels@[j]@,
                                |c: char| is_grammar_special(c),
                            ) + "\""@,
                {
                    let mut quoted = "\"".to_owned();
                    quoted.append(grammar_escape(labels[i].as_str()).as_str());
                    quoted.append("\"");
                    alternatives.push(quoted);
                }
                assert(text::texts(alternatives@) =~= text::texts(labels@).map_values(
                    |l: Seq<char>| "\""@ + escaped(l, |c: char| is_grammar_special(c)) + "\""@,
                ));
                let mut rule = "root ::= ".to_owned();
                rule.append(text::join_texts(alternatives.as_slice(), " | ").as_str());
                set_member(body, "grammar", text_value(rule));
            },
        }
    }
}

/// The alternatives of a regular expression, where it is made of plain or
/// escaped characters and bars alone; `current` is what was read of the first
/// one.
pub open spec fn read_alternatives(t: Seq<char>, current: Seq<char>) -> Option<Seq<Seq<char>>>
    decreases t.len(),
{
    if t.len() == 0 {
        Some(seq![current])
    } else if t[0] == '\\' {
        if t.len() == 1 {
            None
        } else {
            read_alternatives(t.skip(2), current.push(t[1]))
        }
    } else if t[0] == '|' {
        match read_alternatives(t.skip(1), Seq::empty()) {
            Some(rest) => Some(seq![current] + rest),
            None => None,
        }
    } else if is_regex_special(t[0]) {
        None
    } else {
        read_alternatives(t.skip(1), current.push(t[0]))
    }
}

/// The literals of a GBNF alternation. `current` is what was read of the
/// literal that is open, if one is.
pub open spec fn read_literals(t: Seq<char>, current: Option<Seq<char>>) -> Option<Seq<Seq<char>>>
    decreases t.len(),
{
    match current {
        None => if t.len() > 0 && t[0] == '"' {
            read_literals(t.skip(1), Some(Seq::empty()))
        } else {
            None
        },
        Some(s) => if t.len() == 0 {
            None
        } else if t[0] == '\\' {
            if t.len() == 1 {
                None
            } else {
                read_literals(t.skip(2), Some(s.push(t[1])))
            }
        } else if t[0] != '"' {
            read_literals(t.skip(1), Some(s.push(t[0])))
        } else if t.len() == 1 {
            Some(seq![s])
        } else if t.len() > 4 && t[1] == ' ' && t[2] == '|' && t[3] == ' ' {
            match read_literals(t.skip(4), None) {
                Some(rest) => Some(seq![s] + rest),
                None => None,
            }
        } else {
            None
        },
    }
}

/// Reading an escaped label adds the label to what was read.
proof fn lemma_read_label(label: Seq<char>, rest: Seq<char>, current: Seq<char>)
    ensures
        read_alternatives(escaped(label, |c: char| is_regex_special(c)) + rest, current)
            == read_alternatives(rest, current + label),
    decreases label.len(),
{
    let special = |c: char| is_regex_special(c);
    if label.len() == 0 {
        assert(escaped(label, special) + rest =~= rest);
        assert(current + label =~= current);
    } else {
        let head = label.drop_last();
        let last = label.last();
        let tail = if special(last) {
            seq!['\\', last] + rest
        } else {
            seq![last] + rest
        };
        lemma_read_label(head, tail, current);
        assert(escaped(label, special) + rest =~= escaped(head, special) + tail);
        assert((current + head).push(last) =~= current + label);
        if special(last) {
            assert(tail.skip(2) =~= rest);
        } else {
            assert(tail.skip(1) =~= rest);
        }
    }
}

/// Reading an escaped label within a literal adds the label to what was read.
proof fn lemma_read_literal(label: Seq<char>, rest: Seq<char>, current: Seq<char>)
    ensures
        read_literals(escaped(label, |c: char| is_grammar_special(c)) + rest, Some(current))
            == read_literals(rest, Some(current + label)),
    decreases label.len(),
{
    let special = |c: char| is_grammar_special(c);
    if label.len() == 0 {
        assert(escaped(label, special) + rest =~= rest);
        assert(current + label =~= current);
    } else {
        let head = label.drop_last();
        let last = label.last();
        let tail = if special(last) {
            seq!['\\', last] + rest
        } else {
            seq![last] + rest
        };
        lemma_read_literal(head, tail, current);
        assert(escaped(label, special) + rest =~= escaped(head, special) + tail);
        assert((current + head).push(last) =~= current + label);
        if special(last) {
            assert(tail.skip(2) =~= rest);
        } else {
            assert(tail.skip(1) =~= rest);
        }
    }
}

/// The labels as alternatives of a regular expression.
spec fn regex_parts(labels: Seq<Seq<char>>) -> Seq<Seq<char>> {
    labels.map_values(|l: Seq<char>| escaped(l, |c: char| is_regex_special(c)))
}

/// The labels as alternatives of a GBNF rule.
spec fn grammar_parts(labels: Seq<Seq<char>>) -> Seq<Seq<char>> {
    labels.map_values(
        |l: Seq<char>| "\""@ + escaped(l, |c: char| is_grammar_special(c)) + "\""@,
    )
}

/// Reading joined alternatives, at their end or before a bar.
proof fn lemma_read_regex(labels: Seq<Seq<char>>, rest: Seq<char>)
    requires
        labels.len() > 0,
        rest.len() > 0 ==> rest[0] == '|',
    ensures
        read_alternatives(text::join(regex_parts(labels), "|"@) + rest, Seq::empty()) == if rest.len()
            == 0 {
            Some(labels)
        } else {
            match read_alternatives(rest.skip(1), Seq::empty()) {
                Some(more) => Some(labels + more),
                None => None,
            }
        },
    decreases labels.len(),
{
    reveal_strlit("|");
    let parts = regex_parts(labels);
    let last = labels.last();
    let literal = escaped(last, |c: char| is_regex_special(c));
    lemma_read_label(last, rest, Seq::empty());
    assert(Seq::<char>::empty() + last =~= last);
    if labels.len() == 1 {
        assert(parts[0] == literal);
        assert(labels =~= seq![last]);
    } else {
        let head = labels.drop_last();
        assert(parts.drop_last() =~= regex_parts(head));
        let tail = "|"@ + (literal + rest);
        lemma_read_regex(head, tail);
        assert(text::join(parts, "|"@) + rest =~= text::join(regex_parts(head), "|"@) + tail);
        assert(tail.skip(1) =~= literal + rest);
        if rest.len() == 0 {
            assert(head + seq![last] =~= labels);
        } else {
            match read_alternatives(rest.skip(1), Seq::empty()) {
                Some(more) => assert(head + (seq![last] + more) =~= labels + more),
                None => {},
            }
        }
    }
}

/// Reading joined literals, at their end or before another one.
proof fn lemma_read_grammar(labels: Seq<Seq<char>>, rest: Seq<char>)
    requires
        labels.len() > 0,
        rest.len() > 0 ==> rest.len() > 3 && rest[0] == ' ' && rest[1] == '|' && rest[2] == ' ',
    ensures
        read_literals(text::join(grammar_parts(labels), " | "@) + rest, None) == if rest.len() == 0 {
            Some(labels)
        } else {
            match read_literals(rest.skip(3), None) {
                Some(more) => Some(labels + more),
                None => None,
            }
        },
    decreases labels.len(),
{
    reveal_strlit(" | ");
    reveal_strlit("\"");
    let parts = grammar_parts(labels);
    let last = labels.last();
    let inside = escaped(last, |c: char| is_grammar_special(c));
    let literal = "\""@ + inside + "\""@;
    let closing = "\""@ + rest;
    lemma_read_literal(last, closing, Seq::empty());
    assert(Seq::<char>::empty() + last =~= last);
    assert((literal + rest).skip(1) =~= inside + closing);
    assert((literal + rest)[0] == '"');
    if rest.len() > 0 {
        assert(closing.skip(4) =~= rest.skip(3));
    }
    if labels.len() == 1 {
        assert(parts[0] == literal);
        assert(labels =~= seq![last]);
    } else {
        let head = labels.drop_last();
        assert(parts.drop_last() =~= grammar_parts(head));
        assert(parts.last() == literal);
        let tail = " | "@ + (literal + rest);
        lemma_read_grammar(head, tail);
        assert(text::join(parts, " | "@) + rest =~= text::join(grammar_parts(head), " | "@) + tail);
        assert(tail.skip(3) =~= literal + rest);
        if rest.len() == 0 {
            assert(head + seq![last] =~= labels);
        } else {
            match read_literals(rest.skip(3), None) {
                Some(more) => assert(head + (seq![last] + more) =~= labels + more),
                None => {},
            }
        }
    }
}

/// The regular expression of a label set has exactly the labels for its
/// alternatives, whatever characters they hold.
pub proof fn law_label_regex_reads_back(labels: Seq<Seq<char>>)
    requires
        labels.len() > 0,
    ensures
        ({
            let pattern = label_regex(labels);
            &&& pattern.len() >= 2
            &&& pattern[0] == '('
            &&& pattern.last() == ')'
            &&& read_alternatives(pattern.subrange(1, pattern.len() - 1), Seq::empty()) == Some(
                labels,
            )
        }),
{
    reveal_strlit("(");
    reveal_strlit(")");
    let body = text::join(regex_parts(labels), "|"@);
    lemma_read_regex(labels, Seq::empty());
    assert(body + Seq::<char>::empty() =~= body);
    assert(label_regex(labels).subrange(1, label_regex(labels).len() - 1) =~= body);
}

/// The GBNF rule of a label set generates exactly the labels, whatever
/// characters they hold.
pub proof fn law_label_grammar_reads_back(labels: Seq<Seq<char>>)
    requires
        labels.len() > 0,
    ensures
        "root ::= "@.is_prefix_of(label_grammar(labels)),
        read_literals(label_grammar(labels).skip("root ::= "@.len() as int), None) == Some(labels),
{
    let body = text::join(grammar_parts(labels), " | "@);
    lemma_read_grammar(labels, Seq::empty());
    assert(body + Seq::<char>::empty() =~= body);
    assert("root ::= "@ =~= label_grammar(labels).subrange(0, "root ::= "@.len() as int));
    assert(label_grammar(labels).skip("root ::= "@.len() as int) =~= body);
}

/// How completion scoring works for a backend.
#[derive(Debug, Clone, Copy, PartialEq, Eq, Structural)]
pub enum BoundaryStrategy {
    /// vLLM: tokenize the prompt by id count; use echo/prefill.
    Ids,
    /// SGLang: tokenize the prompt by text count; use echo/prefill.
    Count,
    /// llama.cpp: forced constrained generation (no echo support).
    Forced,
}

impl BoundaryStrategy {
    /// Whether completions are scored by echo; by forced generation otherwise.
    pub fn uses_echo(&self) -> (r: bool)
        ensures
            r == !(self is Forced),
    {
        match self {
            BoundaryStrategy::Forced => false,
            _ => true,
        }
    }
}

// ---------------------------------------------------------------------------
// Addresses
// ---------------------------------------------------------------------------

/// The address of the server: a base URL without trailing slashes and without
/// the `/v1` that it may then end with.
pub open spec fn server_of(base_url: Seq<char>) -> Seq<char> {
    let url = base::without_slashes(base_url);
    if "/v1"@.is_suffix_of(url) {
        url.take(url.len() - 3)
    } else {
        url
    }
}

/// Strip the `/v1` suffix to get the server base URL (for `/tokenize`).
pub fn server_url(base_url: &str) -> (r: String)
    ensures
        r@ == server_of(base_url@),
{
    let url = normalize_base_url(base_url);
    let chars = text::chars_of(url.as_str());
    let n: usize = chars.len();
    proof {
        reveal_strlit("/v1");
    }
    if n >= 3 && chars[n - 3] == '/' && chars[n - 2] == 'v' && chars[n - 1] == '1' {
        let r = text::text_between(chars.as_slice(), 0, n - 3);
        assert("/v1"@ =~= url@.subrange(url@.len() - 3, url@.len() as int));
        assert(r@ =~= url@.take(url@.len() - 3));
        r
    } else {
        proof {
            if "/v1"@.is_suffix_of(url@) {
                let end = url@.subrange(url@.len() - 3, url@.len() as int);
                assert(end[0] == '/' && end[1] == 'v' && end[2] == '1');
            }
        }
        url
    }
}

// ---------------------------------------------------------------------------
// Replies of `/completions` and `/tokenize`
// ---------------------------------------------------------------------------

/// What the flat shape says of position `i`.
pub open spec fn flat_position(lp: json::JsonView, i: int) -> base::TokenLogprobView {
    base::TokenLogprobView {
        token: json::text_or_empty(json::nth_of(json::member_of(lp, "tokens"@), i)),
        token_id: match json::integer_of(json::nth_of(json::member_of(lp, "token_ids"@), i)) {
            Some(id) => id as int,
            None => -1,
        },
        logprob: base::logprob_or_zero(json::nth_of(json::member_of(lp, "token_logprobs"@), i)),
        top_logprobs: base::candidates_in(json::nth_of(json::member_of(lp, "top_logprobs"@), i)),
    }
}

/// The positions of the flat shape, one for each token.
pub open spec fn flat_positions(lp: json::JsonView) -> Seq<base::TokenLogprobView> {
    match json::array_of(json::member_of(lp, "tokens"@)) {
        Some(tokens) => Seq::new(tokens.len(), |i: int| flat_position(lp, i)),
        None => Seq::empty(),
    }
}

/// The positions that a `/completions` reply reports: in the flat shape, as
/// the content of a chat reply, or as a bare list, whichever is there first.
pub open spec fn completion_positions(data: json::JsonView) -> Seq<base::TokenLogprobView> {
    match json::inner(base::choice_of(data), "logprobs"@) {
        None => Seq::empty(),
        Some(lp) => if json::array_of(json::member_of(lp, "tokens"@)) is Some {
            flat_positions(lp)
        } else {
            match json::member_of(lp, "content"@) {
                Some(content) => base::positions_of(json::elements_of(content)),
                None => base::positions_of(json::elements_of(lp)),
            }
        },
    }
}

/// Reads the flat shape `{tokens, token_logprobs, top_logprobs, token_ids}`.
pub fn parse_flat_completions_logprobs(lp: &Value) -> (r: Vec<TokenLogprob>)
    ensures
        base::logprob_views(r@) == flat_positions(json::json_of(*lp)),
{
    let mut r: Vec<TokenLogprob> = Vec::new();
    let ghost shape = json::json_of(*lp);
    let n: usize = match inner_array(member(lp, "tokens")) {
        Some(tokens) => tokens.len(),
        None => 0,
    };
    for i in 0..n
        invariant
            shape == json::json_of(*lp),
            r@.len() == i,
            forall|j: int| 0 <= j < i ==> (#[trigger] r@[j])@ == flat_position(shape, j),
    {
        r.push(
            TokenLogprob {
                token: inner_text(nth_element(member(lp, "tokens"), i)),
                token_id: inner_integer(nth_element(member(lp, "token_ids"), i)),
                logprob: Scalar {
                    bits: inner_float(nth_element(member(lp, "token_logprobs"), i)),
                },
                top_logprobs: read_candidates(nth_element(member(lp, "top_logprobs"), i)),
            },
        );
    }
    assert(base::logprob_views(r@) =~= flat_positions(shape));
    r
}

/// Extract the per-token logprob list from a `/completions` response.
pub fn extract_completions_logprobs(data: &Value) -> (r: Vec<TokenLogprob>)
    ensures
        base::logprob_views(r@) == completion_positions(json::json_of(*data)),
{
    let choice = nth_element(member(data, "choices"), 0);
    match inner_member(choice, "logprobs") {
        None => {
            let r: Vec<TokenLogprob> = Vec::new();
            assert(base::logprob_views(r@) =~= Seq::<base::TokenLogprobView>::empty());
            r
        },
        Some(lp) => {
            if inner_array(member(lp, "tokens")).is_some() {
                return parse_flat_completions_logprobs(lp);
            }
            match member(lp, "content") {
                Some(content) => parse_token_logprob_array(content),
                None => parse_token_logprob_array(lp),
            }
        },
    }
}

/// The number of tokens that a `/tokenize` reply lists.
pub fn token_count(data: &Value) -> (r: usize)
    ensures
        r == match json::array_of(json::member_of(json::json_of(*data), "tokens"@)) {
            Some(tokens) => tokens.len(),
            None => 0,
        },
{
    match inner_array(member(data, "tokens")) {
        Some(tokens) => tokens.len(),
        None => 0,
    }
}

// ---------------------------------------------------------------------------
// The core
// ---------------------------------------------------------------------------

/// The API key that is sent where none is set.
pub const DEFAULT_API_KEY: &'static str = "not-needed";

/// The request timeout where none is set, in seconds.
pub const DEFAULT_TIMEOUT_SECS: u64 = 120;

/// The most tokens to generate where no number is set.
pub const DEFAULT_MAX_TOKENS: u32 = 256;

/// The duration that `Duration::from_secs` makes of a number of seconds.
pub uninterp spec fn whole_seconds(secs: u64) -> Duration;

/// `Duration::from_secs`: the result depends on the number of seconds alone.
pub assume_specification[ Duration::from_secs ](secs: u64) -> (d: Duration)
    ensures
        d == whole_seconds(secs),
;

/// What an OpenAI-compatible backend is configured with.
#[derive(Debug)]
pub struct OpenAICompatCore {
    pub model: String,
    pub base_url: String,
    pub api_key: String,
    pub timeout: Duration,
    pub max_tokens: u32,
    pub extra_body: LabelMap<Value>,
    pub constraint: Constraint,
    pub boundary: BoundaryStrategy,
}

impl OpenAICompatCore {
    /// The members of a chat request, with the constraint to the labels given.
    pub open spec fn request_members(
        self,
        messages: Seq<base::ChatMessageView>,
        temperature: json::JsonView,
        constrain_labels: Option<Seq<Seq<char>>>,
        logprobs: bool,
        top_logprobs: u32,
    ) -> Map<Seq<char>, json::JsonView> {
        let body = base::chat_members(
            self.model@,
            messages,
            temperature,
            logprobs,
            top_logprobs,
            self.max_tokens,
        ).union_prefer_right(json::extra_members(self.extra_body));
        match constrain_labels {
            Some(labels) => body.insert(
                self.constraint.field(),
                self.constraint.constraint_json(labels),
            ),
            None => body,
        }
    }

    /// Build a chat request body, applying this backend's constraint when
    /// labels are given.
    pub fn chat_body(
        &self,
        messages: &[ChatMessage],
        temperature: Value,
        constrain_labels: Option<&[String]>,
        logprobs: bool,
        top_logprobs: u32,
    ) -> (r: Value)
        ensures
            json::json_of(r) == json::JsonView::Object(
                self.request_members(
                    base::message_views(messages@),
                    json::json_of(temperature),
                    match constrain_labels {
                        Some(labels) => Some(text::texts(labels@)),
                        None => None,
                    },
                    logprobs,
                    top_logprobs,
                ),
            ),
    {
        let mut body = build_chat_body(
            self.model.as_str(),
            messages,
            temperature,
            logprobs,
            top_logprobs,
            self.max_tokens,
            &self.extra_body,
        );
        if let Some(labels) = constrain_labels {
            self.constraint.apply(&mut body, labels);
        }
        body
    }

    /// The address of `/chat/completions`.
    pub fn chat_url(&self) -> (r: String)
        ensures
            r@ == self.base_url@ + "/chat/completions"@,
    {
        let mut r = self.base_url.clone();
        r.append("/chat/completions");
        r
    }

    /// The address of `/completions`.
    pub fn completions_url(&self) -> (r: String)
        ensures
            r@ == self.base_url@ + "/completions"@,
    {
        let mut r = self.base_url.clone();
        r.append("/completions");
        r
    }

    /// The address of `/tokenize`, which is not below `/v1`.
    pub fn tokenize_url(&self) -> (r: String)
        ensures
            r@ == server_of(self.base_url@) + "/tokenize"@,
    {
        let mut r = server_url(self.base_url.as_str());
        r.append("/tokenize");
        r
    }

    /// The body of a `/tokenize` request.
    pub fn tokenize_body(&self, text: &str) -> (r: Value)
        ensures
            json::json_of(r) == json::JsonView::Object(
                map![
                    "model"@ => json::JsonView::Text(self.model@),
                    "prompt"@ => json::JsonView::Text(text@),
                ],
            ),
    {
        let mut body = empty_object();
        set_member(&mut body, "model", text_value(self.model.clone()));
        set_member(&mut body, "prompt", text_value(text.to_owned()));
        body
    }

    /// The body of a `/completions` request that echoes the prompt with the
    /// log probabilities of its tokens. The extra members are set last.
    pub fn echo_body(&self, prompt_with_completion: &str) -> (r: Value)
        ensures
            json::json_of(r) == json::JsonView::Object(
                map![
                    "model"@ => json::JsonView::Text(self.model@),
                    "prompt"@ => json::JsonView::Text(prompt_with_completion@),
                    "echo"@ => json::JsonView::Bool(true),
                    "max_tokens"@ => json::count_json(1),
                    "temperature"@ => json::zero_json(),
                    "logprobs"@ => json::count_json(1),
                ].union_prefer_right(json::extra_members(self.extra_body)),
            ),
    {
        let mut body = empty_object();
        set_member(&mut body, "model", text_value(self.model.clone()));
        set_member(&mut body, "prompt", text_value(prompt_with_completion.to_owned()));
        set_member(&mut body, "echo", bool_value(true));
        set_member(&mut body, "max_tokens", count_value(1));
        set_member(&mut body, "temperature", zero_value());
        set_member(&mut body, "logprobs", count_value(1));
        merge_extra(&mut body, &self.extra_body);
        body
    }

    /// The body of a chat request that leaves `completion` as the only valid
    /// label, and asks for its log probabilities.
    pub fn forced_body(&self, messages: &[ChatMessage], completion: &str) -> (r: Value)
        ensures
            json::json_of(r) == json::JsonView::Object(
                self.request_members(
                    base::message_views(messages@),
                    json::zero_json(),
                    Some(seq![completion@]),
                    true,
                    1,
                ),
            ),
    {
        let mut labels: Vec<String> = Vec::new();
        labels.push(completion.to_owned());
        assert(text::texts(labels@) =~= seq![completion@]);
        self.chat_body(messages, zero_value(), Some(labels.as_slice()), true, 1)
    }

    /// The body of the chat request whose reply shows the tokens of `text`.
    pub fn forced_tokenize_body(&self, text: &str) -> (r: Value)
        ensures
            json::json_of(r) == json::JsonView::Object(
                self.request_members(
                    seq![base::ChatMessageView { role: "user"@, content: text@ }],
                    json::zero_json(),
                    Some(seq![text@]),
                    true,
                    1,
                ),
            ),
    {
        let mut messages: Vec<ChatMessage> = Vec::new();
        messages.push(ChatMessage::new("user", text));
        assert(base::message_views(messages@) =~= seq![
            base::ChatMessageView { role: "user"@, content: text@ },
        ]);
        self.forced_body(messages.as_slice(), text)
    }

    /// The first step of tokenizing `text`: the remembered tokens, or the body
    /// of the request to send where there are none. The context plays no part.
    pub fn tokenize_step(&self, cache: &TokenCache, text: &str, _context: Option<&str>) -> (r:
        TokenizeStep)
        ensures
            match r {
                TokenizeStep::Known(v) => cache@.contains_key(text@) && base::token_views(v@)
                    == cache@[text@],
                TokenizeStep::Ask(body) => !cache@.contains_key(text@) && json::json_of(body)
                    == json::JsonView::Object(
                    self.request_members(
                        seq![base::ChatMessageView { role: "user"@, content: text@ }],
                        json::zero_json(),
                        Some(seq![text@]),
                        true,
                        1,
                    ),
                ),
            },
    {
        match cache.get(text) {
            Some(v) => TokenizeStep::Known(v),
            None => TokenizeStep::Ask(self.forced_tokenize_body(text)),
        }
    }
}

/// A constrained request carries its constraint, whatever is added to every
/// request.
pub proof fn law_constraint_is_sent(
    core: OpenAICompatCore,
    messages: Seq<base::ChatMessageView>,
    temperature: json::JsonView,
    labels: Seq<Seq<char>>,
    logprobs: bool,
    top_logprobs: u32,
)
    ensures
        ({
            let sent = core.request_members(
                messages,
                temperature,
                Some(labels),
                logprobs,
                top_logprobs,
            );
            &&& sent.contains_key(core.constraint.field())
            &&& sent[core.constraint.field()] == core.constraint.constraint_json(labels)
        }),
{
}

/// The prompt with the completion to be scored behind it.
pub fn prompt_with_completion(messages: &[ChatMessage], completion: &str) -> (r: String)
    ensures
        r@ == text::join(base::prompt_parts(base::message_views(messages@)), "\n\n"@)
            + completion@,
{
    let mut r = render_prompt(messages);
    r.append(completion);
    r
}

/// The positions of a completion within those of an echoed prompt, where the
/// prompt has `prompt_len` tokens and the prompt with the completion
/// `total_len`. Where the reply does not have as many positions, all those
/// behind the prompt.
pub open spec fn completion_span(
    all: Seq<base::TokenLogprobView>,
    prompt_len: nat,
    total_len: nat,
) -> Seq<base::TokenLogprobView> {
    if prompt_len < total_len <= all.len() {
        all.subrange(prompt_len as int, total_len as int)
    } else if prompt_len < all.len() {
        all.skip(prompt_len as int)
    } else {
        Seq::empty()
    }
}

/// A copy of the positions from `start` to `end`.
fn copy_positions(all: &[TokenLogprob], start: usize, end: usize) -> (r: Vec<TokenLogprob>)
    requires
        start <= end <= all@.len(),
    ensures
        base::logprob_views(r@) == base::logprob_views(all@).subrange(start as int, end as int),
{
    let mut r: Vec<TokenLogprob> = Vec::new();
    for i in start..end
        invariant
            start <= end <= all@.len(),
            r@.len() == i - start,
            forall|j: int| 0 <= j < i - start ==> (#[trigger] r@[j])@ == all@[start + j]@,
    {
        r.push(all[i].clone());
    }
    assert(base::logprob_views(r@) =~= base::logprob_views(all@).subrange(
        start as int,
        end as int,
    ));
    r
}

/// The score of a completion from the reply that echoes it behind the prompt.
pub fn echo_score(completion: &str, data: Value, prompt_len: usize, total_len: usize) -> (r: Result<
    ScoringResponse,
    ScoreFailure,
>)
    ensures
        base::score_outcome(r) == base::scored_or(
            completion@,
            completion_span(
                completion_positions(json::json_of(data)),
                prompt_len as nat,
                total_len as nat,
            ),
            json::json_of(data),
            ScoreFailure::NoLabelTokens,
        ),
        prompt_len < total_len <= completion_positions(json::json_of(data)).len() ==> (
        r matches Ok(s) && s.completion@ == completion@ && s.logprobs@.len() == total_len
            - prompt_len && forall|i: int|
            0 <= i < s.logprobs@.len() ==> (#[trigger] s.logprobs@[i])@ == completion_positions(
                json::json_of(data),
            )[prompt_len + i]),
{
    let all = extract_completions_logprobs(&data);
    let ghost views = base::logprob_views(all@);
    let n: usize = all.len();
    assert(views.len() == n);
    let span = if prompt_len < total_len && total_len <= n {
        copy_positions(all.as_slice(), prompt_len, total_len)
    } else if prompt_len < n {
        copy_positions(all.as_slice(), prompt_len, n)
    } else {
        Vec::new()
    };
    assert(base::logprob_views(span@) =~= completion_span(
        views,
        prompt_len as nat,
        total_len as nat,
    ));
    let ghost found = base::logprob_views(span@);
    let r = score_or(completion, span, data, ScoreFailure::NoLabelTokens);
    proof {
        if prompt_len < total_len <= views.len() {
            law_completion_is_what_stands_behind_the_prompt(
                views,
                prompt_len as nat,
                total_len as nat,
            );
            assert(found.len() > 0);
            assert(r is Ok);
            assert(base::logprob_views(r->Ok_0.logprobs@) == found);
            assert forall|i: int| 0 <= i < r->Ok_0.logprobs@.len() implies (
            #[trigger] r->Ok_0.logprobs@[i])@ == views[prompt_len + i] by {
                assert(base::logprob_views(r->Ok_0.logprobs@)[i] == r->Ok_0.logprobs@[i]@);
            }
        }
    }
    r
}

/// The label tokens of a reply to a forced request.
fn value_tokens(response: &ChatResponse) -> (r: Vec<TokenLogprob>)
    ensures
        base::logprob_views(r@) == value_positions(base::emitted_of(response@)),
{
    let nothing: Vec<TokenLogprob> = Vec::new();
    let emitted: &[TokenLogprob] = match &response.logprobs {
        Some(v) => v.as_slice(),
        None => nothing.as_slice(),
    };
    assert(base::logprob_views(emitted@) =~= base::emitted_of(response@));
    filter_special_tokens(emitted)
}

/// The score of a completion from the reply to a request that forced it.
pub fn forced_score(completion: &str, response: ChatResponse) -> (r: Result<
    ScoringResponse,
    ScoreFailure,
>)
    ensures
        base::score_outcome(r) == base::scored_or(
            completion@,
            value_positions(base::emitted_of(response@)),
            response@.raw,
            ScoreFailure::NoValueTokens,
        ),
{
    let lps = value_tokens(&response);
    score_or(completion, lps, response.raw, ScoreFailure::NoValueTokens)
}

/// The tokens of `text` that a reply to a request that forced it shows.
pub open spec fn tokens_read(text: Seq<char>, reply: base::ChatResponseView) -> Seq<
    base::TokenView,
> {
    base::forced_tokens(text, value_positions(base::emitted_of(reply)))
}

/// How the tokens of a text are read off a reply.
pub open spec fn reader() -> spec_fn(Seq<char>, base::ChatResponseView) -> Seq<base::TokenView> {
    |text: Seq<char>, reply: base::ChatResponseView| tokens_read(text, reply)
}

/// The tokens of `text` from the reply to a request that forced it.
pub fn forced_tokenize(text: &str, response: &ChatResponse) -> (r: Vec<Token>)
    ensures
        base::token_views(r@) == tokens_read(text@, response@),
{
    let lps = value_tokens(response);
    tokens_of_forced(text, lps.as_slice())
}

/// The tokens of `text` from what became of the request for them, which is none
/// where it failed. Tokens are remembered; a failure is not.
pub fn tokenize_reply(cache: &mut TokenCache, text: &str, reply: Option<&ChatResponse>) -> (r:
    Option<Vec<Token>>)
    ensures
        match (r, reply) {
            (Some(v), Some(response)) => {
                &&& base::token_views(v@) == tokens_read(text@, response@)
                &&& final(cache)@ == base::learned(
                    old(cache)@,
                    text@,
                    Some(tokens_read(text@, response@)),
                )
            },
            (None, None) => final(cache)@ == base::learned(old(cache)@, text@, None),
            _ => false,
        },
{
    match reply {
        Some(response) => {
            let tokens = forced_tokenize(text, response);
            cache.store(text, tokens.as_slice());
            Some(tokens)
        },
        None => None,
    }
}

/// Tokenization is memoized. Once a call gave tokens for a text, every later
/// call for that text gives the same tokens and sends nothing, whatever the
/// contexts of the calls and whatever was asked between them. Tokens are never
/// empty. A failure is not remembered: as long as every call for a text failed,
/// the next one asks again.
pub proof fn law_tokenization_is_memoized(calls: Seq<base::TokenizeCall>, i: int, j: int)
    requires
        0 <= i < j < calls.len(),
        calls[i].text == calls[j].text,
    ensures
        base::outcome_at(calls, i, reader()).tokens matches Some(v) ==> {
            &&& v.len() > 0
            &&& base::outcome_at(calls, j, reader()) == (base::TokenizeOutcome {
                tokens: Some(v),
                asked: false,
            })
        },
        (forall|k: int|
            0 <= k < j && (#[trigger] calls[k]).text == calls[j].text ==> base::outcome_at(
                calls,
                k,
                reader(),
            ).tokens is None) ==> base::outcome_at(calls, j, reader()).asked,
{
    let outcome = base::outcome_at(calls, i, reader());
    if outcome.tokens is Some {
        base::lemma_stays_known(calls, i, j, reader());
        base::lemma_known_was_read(calls, calls[j].text, j, reader());
    }
    if forall|k: int|
        0 <= k < j && (#[trigger] calls[k]).text == calls[j].text ==> base::outcome_at(
            calls,
            k,
            reader(),
        ).tokens is None {
        base::lemma_failures_leave_unknown(calls, calls[j].text, j, reader());
    }
}

// ---------------------------------------------------------------------------
// The builder
// ---------------------------------------------------------------------------

/// Builder for [`OpenAICompatCore`].
#[derive(Debug)]
pub struct OpenAICompatCoreBuilder {
    pub model: String,
    pub base_url: String,
    pub api_key: String,
    pub timeout: Duration,
    pub max_tokens: u32,
    pub extra_body: LabelMap<Value>,
    pub constraint: Constraint,
    pub boundary: BoundaryStrategy,
}

impl OpenAICompatCoreBuilder {
    /// A builder with the defaults: the API key `"not-needed"`, a timeout of
    /// 120 s, at most 256 tokens, and nothing added to requests.
    pub fn new(
        model: &str,
        base_url: &str,
        constraint: Constraint,
        boundary: BoundaryStrategy,
    ) -> (r: Self)
        ensures
            r.model@ == model@,
            r.base_url@ == base_url@,
            r.api_key@ == DEFAULT_API_KEY@,
            r.timeout == whole_seconds(DEFAULT_TIMEOUT_SECS),
            r.max_tokens == DEFAULT_MAX_TOKENS,
            r.extra_body@ == Map::<Seq<char>, Value>::empty(),
            r.constraint == constraint,
            r.boundary == boundary,
    {
        OpenAICompatCoreBuilder {
            model: model.to_owned(),
            base_url: base_url.to_owned(),
            api_key: DEFAULT_API_KEY.to_owned(),
            timeout: Duration::from_secs(DEFAULT_TIMEOUT_SECS),
            max_tokens: DEFAULT_MAX_TOKENS,
            extra_body: LabelMap::new(),
            constraint,
            boundary,
        }
    }

    /// Set the API key. Defaults to `"not-needed"`.
    pub fn api_key(self, key: &str) -> (r: Self)
        ensures
            r.api_key@ == key@,
            r == (OpenAICompatCoreBuilder { api_key: r.api_key, ..self }),
    {
        OpenAICompatCoreBuilder { api_key: key.to_owned(), ..self }
    }

    /// Set the request timeout. Defaults to 120s.
    pub fn timeout(self, timeout: Duration) -> (r: Self)
        ensures
            r == (OpenAICompatCoreBuilder { timeout, ..self }),
    {
        OpenAICompatCoreBuilder { timeout, ..self }
    }

    /// Set the maximum tokens to generate. Defaults to 256.
    pub fn max_tokens(self, max_tokens: u32) -> (r: Self)
        ensures
            r == (OpenAICompatCoreBuilder { max_tokens, ..self }),
    {
        OpenAICompatCoreBuilder { max_tokens, ..self }
    }

    /// Add an extra parameter merged into every request body.
    pub fn extra_body(self, key: &str, value: Value) -> (r: Self)
        ensures
            r.extra_body@ == self.extra_body@.insert(key@, value),
            r == (OpenAICompatCoreBuilder { extra_body: r.extra_body, ..self }),
    {
        let mut r = self;
        r.extra_body.insert(key.to_owned(), value);
        r
    }

    /// Build the core. The base URL loses its trailing slashes.
    pub fn build(self) -> (r: OpenAICompatCore)
        ensures
            r.model == self.model,
            r.base_url@ == base::without_slashes(self.base_url@),
            r.api_key == self.api_key,
            r.timeout == self.timeout,
            r.max_tokens == self.max_tokens,
            r.extra_body == self.extra_body,
            r.constraint == self.constraint,
            r.boundary == self.boundary,
    {
        OpenAICompatCore {
            model: self.model,
            base_url: normalize_base_url(self.base_url.as_str()),
            api_key: self.api_key,
            timeout: self.timeout,
            max_tokens: self.max_tokens,
            extra_body: self.extra_body,
            constraint: self.constraint,
            boundary: self.boundary,
        }
    }
}

// ---------------------------------------------------------------------------
// Laws of label tokens
// ---------------------------------------------------------------------------

/// A token is part of a label exactly where it has a character that is no white
/// space and is none of the special tokens.
pub proof fn law_value_tokens_are_neither_blank_nor_special(token: Seq<char>)
    ensures
        is_value_token(token) <==> (exists|i: int|
            0 <= i < token.len() && !text::is_space(#[trigger] token[i])) && token
            != "<|im_end|>"@ && token != "<|endoftext|>"@ && token != "</s>"@ && token
            != "<|end_of_turn|>"@ && token != "<|eot_id|>"@ && token != "<|end|>"@ && token
            != "<|eom_id|>"@,
{
    let all = special_tokens();
    assert(all.len() == 7);
    assert(all[0] == "<|im_end|>"@ && all[1] == "<|endoftext|>"@ && all[2] == "</s>"@ && all[3]
        == "<|end_of_turn|>"@ && all[4] == "<|eot_id|>"@ && all[5] == "<|end|>"@ && all[6]
        == "<|eom_id|>"@);
    text::law_trimmed(token);
    text::law_trimming_drops_white_space_only(token);
    let bare = text::trimmed(token);
    let (start, end) = choose|start: int, end: int|
        0 <= start <= end <= token.len() && bare == #[trigger] token.subrange(start, end)
            && (forall|i: int| 0 <= i < start ==> text::is_space(#[trigger] token[i])) && forall|
            i: int,
        |
            end <= i < token.len() ==> text::is_space(#[trigger] token[i]);
    if bare.len() > 0 {
        assert(bare[0] == token[start]);
    }
}

/// The label tokens of a reply are all its positions but the blank and the
/// special ones, in their order.
pub proof fn law_label_tokens_are_all_others(v: Seq<base::TokenLogprobView>)
    ensures
        selection::picked(
            v,
            value_positions(v),
            |t: base::TokenLogprobView| is_value_token(t.token),
        ),
        (forall|i: int| 0 <= i < v.len() ==> is_value_token((#[trigger] v[i]).token))
            ==> value_positions(v) == v,
{
    let keep = |t: base::TokenLogprobView| is_value_token(t.token);
    selection::lemma_filter_picks(v, keep);
    selection::lemma_picked_count(v, value_positions(v), keep);
}

// ---------------------------------------------------------------------------
// Laws of constraints
// ---------------------------------------------------------------------------

/// The characters that are escaped in a regular expression and in a GBNF
/// string.
pub proof fn law_special_characters(c: char)
    ensures
        is_regex_special(c) <==> ".^$*+?()[]{}\\|/"@.contains(c),
        is_grammar_special(c) <==> "\\\""@.contains(c),
{
    reveal_strlit(".^$*+?()[]{}\\|/");
    reveal_strlit("\\\"");
    let r = ".^$*+?()[]{}\\|/"@;
    let g = "\\\""@;
    assert(r.len() == 15 && g.len() == 2);
    assert(r[0] == '.' && r[1] == '^' && r[2] == '$' && r[3] == '*' && r[4] == '+' && r[5] == '?'
        && r[6] == '(' && r[7] == ')');
    assert(r[8] == '[' && r[9] == ']' && r[10] == '{' && r[11] == '}' && r[12] == '\\' && r[13]
        == '|' && r[14] == '/');
    assert(g[0] == '\\' && g[1] == '"');
}

/// A special character is escaped to a backslash and itself, any other to
/// itself, and the characters of a text are escaped one by one.
pub proof fn law_characters_are_escaped_one_by_one(
    a: Seq<char>,
    b: Seq<char>,
    c: char,
    special: spec_fn(char) -> bool,
)
    ensures
        escaped(a + b, special) == escaped(a, special) + escaped(b, special),
        special(c) ==> escaped(seq![c], special) == seq!['\\', c],
        !special(c) ==> escaped(seq![c], special) == seq![c],
        escaped(Seq::empty(), special).len() == 0,
    decreases b.len(),
{
    reveal_with_fuel(escaped, 2);
    assert(seq![c].drop_last() =~= Seq::<char>::empty());
    if special(c) {
        assert(escaped(seq![c], special) =~= seq!['\\', c]);
    } else {
        assert(escaped(seq![c], special) =~= seq![c]);
    }
    if b.len() == 0 {
        assert(a + b =~= a);
        assert(escaped(a, special) + escaped(b, special) =~= escaped(a, special));
    } else {
        law_characters_are_escaped_one_by_one(a, b.drop_last(), c, special);
        assert((a + b).drop_last() =~= a + b.drop_last());
        assert(escaped(a + b, special) =~= escaped(a, special) + escaped(b, special));
    }
}

/// Each kind of server gets the constraint under its own name: the list of all
/// labels, a regular expression, or a grammar.
pub proof fn law_constraint_of_each_server(labels: Seq<Seq<char>>)
    ensures
        Constraint::StructuredOutputsChoice.field() == "structured_outputs"@,
        Constraint::Regex.field() == "regex"@,
        Constraint::Grammar.field() == "grammar"@,
        json::member_of(
            Constraint::StructuredOutputsChoice.constraint_json(labels),
            "choice"@,
        ) == Some(json::texts_json(labels)),
        Constraint::Regex.constraint_json(labels) == json::JsonView::Text(label_regex(labels)),
        Constraint::Grammar.constraint_json(labels) == json::JsonView::Text(label_grammar(labels)),
{
}

/// A request says what every chat request says, with what is added to every
/// request over it, and the constraint over both; without labels it has no
/// constraint. It has no other member.
pub proof fn law_request_is_complete(
    core: OpenAICompatCore,
    messages: Seq<base::ChatMessageView>,
    temperature: json::JsonView,
    labels: Option<Seq<Seq<char>>>,
    logprobs: bool,
    top_logprobs: u32,
    key: Seq<char>,
)
    ensures
        ({
            let sent = core.request_members(messages, temperature, labels, logprobs, top_logprobs);
            let plain = base::chat_members(
                core.model@,
                messages,
                temperature,
                logprobs,
                top_logprobs,
                core.max_tokens,
            );
            let constrained = labels is Some && key == core.constraint.field();
            &&& constrained ==> sent.contains_key(key) && sent[key]
                == core.constraint.constraint_json(labels->0)
            &&& !constrained && core.extra_body.keys().contains(key) ==> sent.contains_key(key)
                && sent[key] == json::json_of(core.extra_body@[key])
            &&& !constrained && !core.extra_body.keys().contains(key) ==> (sent.contains_key(key)
                <==> plain.contains_key(key)) && (plain.contains_key(key) ==> sent[key]
                == plain[key])
        }),
{
    json::law_every_extra_is_added(core.extra_body, key);
}

// ---------------------------------------------------------------------------
// Laws of addresses and replies
// ---------------------------------------------------------------------------

/// The address of the server is the base URL without slashes at its end; where
/// that ends with `/v1`, the address is what stands before it.
pub proof fn law_server_is_above_v1(base_url: Seq<char>)
    ensures
        "/v1"@.is_suffix_of(base::without_slashes(base_url)) ==> server_of(base_url) + "/v1"@
            == base::without_slashes(base_url),
        !"/v1"@.is_suffix_of(base::without_slashes(base_url)) ==> server_of(base_url)
            == base::without_slashes(base_url),
{
    reveal_strlit("/v1");
    let url = base::without_slashes(base_url);
    if "/v1"@.is_suffix_of(url) {
        assert(server_of(base_url) + "/v1"@ =~= url);
    }
}

/// The flat shape describes as many positions as it lists tokens, each by the
/// entries of the four lists at that place. What is missing of a position is no
/// text, a log probability of zero, no candidates, and an id of -1.
pub proof fn law_flat_shape_is_read_place_by_place(
    lp: json::JsonView,
    tokens: Seq<json::JsonView>,
    i: int,
)
    requires
        json::member_of(lp, "tokens"@) == Some(json::JsonView::Array(tokens)),
        0 <= i < tokens.len(),
    ensures
        flat_positions(lp).len() == tokens.len(),
        tokens[i] matches json::JsonView::Text(s) ==> flat_positions(lp)[i].token == s,
        !(tokens[i] is Text) ==> flat_positions(lp)[i].token.len() == 0,
        json::nth_of(json::member_of(lp, "token_logprobs"@), i) matches Some(
            json::JsonView::Number(n),
        ) ==> flat_positions(lp)[i].logprob.bits == n.float_bits,
        json::float_of(json::nth_of(json::member_of(lp, "token_logprobs"@), i)) is None
            ==> flat_positions(lp)[i].logprob.bits == 0,
        json::integer_of(json::nth_of(json::member_of(lp, "token_ids"@), i)) matches Some(id)
            ==> flat_positions(lp)[i].token_id == id,
        json::integer_of(json::nth_of(json::member_of(lp, "token_ids"@), i)) is None
            ==> flat_positions(lp)[i].token_id == -1,
        json::array_of(json::nth_of(json::member_of(lp, "top_logprobs"@), i)) matches Some(a)
            ==> flat_positions(lp)[i].top_logprobs == base::candidates_of(a),
        json::array_of(json::nth_of(json::member_of(lp, "top_logprobs"@), i)) is None
            ==> flat_positions(lp)[i].top_logprobs == Map::<Seq<char>, Scalar>::empty(),
{
}

/// The positions of a reply are those of its first choice: in the flat shape
/// where it lists tokens, else one for each entry of its content, or of the
/// list that it is itself.
pub proof fn law_completion_is_the_first_choice(
    data: json::JsonView,
    choices: Seq<json::JsonView>,
    lp: json::JsonView,
    items: Seq<json::JsonView>,
)
    requires
        json::member_of(data, "choices"@) == Some(json::JsonView::Array(choices)),
        choices.len() > 0,
    ensures
        json::member_of(choices[0], "logprobs"@) is None ==> completion_positions(data).len() == 0,
        json::member_of(choices[0], "logprobs"@) == Some(lp) && json::member_of(lp, "tokens"@)
            == Some(json::JsonView::Array(items)) ==> completion_positions(data) == flat_positions(
            lp,
        ),
        json::member_of(choices[0], "logprobs"@) == Some(lp) && json::member_of(lp, "tokens"@)
            is None && json::member_of(lp, "content"@) == Some(json::JsonView::Array(items))
            ==> completion_positions(data) == base::positions_of(items),
        json::member_of(choices[0], "logprobs"@) == Some(json::JsonView::Array(items))
            ==> completion_positions(data) == base::positions_of(items),
{
}

/// The positions of a completion are those behind the prompt, as many as the
/// completion has tokens, each in its place. The token generated behind the
/// completion is not one of them. Where the reply is shorter than the prompt
/// with the completion, or the counts tell nothing, they are all positions
/// behind the prompt.
pub proof fn law_completion_is_what_stands_behind_the_prompt(
    all: Seq<base::TokenLogprobView>,
    prompt_len: nat,
    total_len: nat,
)
    ensures
        prompt_len < total_len <= all.len() ==> completion_span(all, prompt_len, total_len).len()
            == total_len - prompt_len,
        !(prompt_len < total_len <= all.len()) && prompt_len <= all.len() ==> completion_span(
            all,
            prompt_len,
            total_len,
        ).len() == all.len() - prompt_len,
        prompt_len >= all.len() ==> completion_span(all, prompt_len, total_len).len() == 0,
        forall|i: int|
            0 <= i < completion_span(all, prompt_len, total_len).len()
                ==> #[trigger] completion_span(all, prompt_len, total_len)[i] == all[prompt_len
                + i],
        prompt_len < total_len <= all.len() ==> all == all.take(prompt_len as int)
            + completion_span(all, prompt_len, total_len) + all.skip(total_len as int),
{
    if prompt_len < total_len <= all.len() {
        assert(all =~= all.take(prompt_len as int) + completion_span(all, prompt_len, total_len)
            + all.skip(total_len as int));
    }
}

/// The tokens of a label are those that the reply shows of it, in order, each
/// with the text emitted; where the reply shows none, the label is one token.
pub proof fn law_tokens_are_those_of_the_label(text: Seq<char>, reply: base::ChatResponseView)
    ensures
        ({
            let shown = value_positions(base::emitted_of(reply));
            &&& shown.len() > 0 ==> tokens_read(text, reply).len() == shown.len() && forall|i: int|
                0 <= i < shown.len() ==> (#[trigger] tokens_read(text, reply)[i]).text
                    == shown[i].token
            &&& shown.len() == 0 ==> tokens_read(text, reply).len() == 1 && tokens_read(
                text,
                reply,
            )[0].text == text
            &&& reader()(text, reply) == tokens_read(text, reply)
        }),
{
}

/// A reply without a choice, or whose log probabilities have none of the shapes,
/// has no positions.
pub proof fn law_incomplete_completion_has_no_positions(
    data: json::JsonView,
    choices: Seq<json::JsonView>,
    lp: json::JsonView,
)
    ensures
        json::array_of(json::member_of(data, "choices"@)) is None ==> completion_positions(
            data,
        ).len() == 0,
        json::member_of(data, "choices"@) == Some(json::JsonView::Array(choices)) && choices.len()
            == 0 ==> completion_positions(data).len() == 0,
        json::member_of(data, "choices"@) == Some(json::JsonView::Array(choices)) && choices.len()
            > 0 && json::member_of(choices[0], "logprobs"@) == Some(lp) && json::array_of(
            json::member_of(lp, "tokens"@),
        ) is None && json::array_of(json::member_of(lp, "content"@)) is None && !(lp is Array)
            ==> completion_positions(data).len() == 0,
{
}

} // verus!
