//! Ollama inference backend.
//!
//! Talks to Ollama via its native API (`/api/chat`). Logprobs support requires
//! Ollama 0.12 or later. Unlike the OpenAI-compatible backends, Ollama wraps
//! the constrained label in a JSON object `{"label": "..."}`.
//!
//! Both label tokenization and completion scores come from forced constrained
//! generation: a label is forced as the only valid choice of a chat request,
//! and the log probabilities of its tokens are read back.

use crate::backends::base;
use crate::backends::base::{
    messages_value, normalize_base_url, read_positions, score_or, tokens_of_forced, ChatMessage,
    ChatResponse, ScoreFailure, ScoringResponse, Token, TokenCache, TokenLogprob, TokenizeStep,
};
use crate::backends::openai_compat;
use crate::json;
use crate::json::{
    as_text, bool_value, count_value, empty_object, inner_array, inner_member, inner_text, member,
    merge_extra, parse_json, set_member, text_value, zero_value,
};
use crate::label_map::LabelMap;
use crate::prompts;
use crate::prompts::build_json_schema_for_choices;
use crate::selection;
use crate::text;
use serde_json::Value;
use std::time::Duration;
use vstd::prelude::*;

verus! {

/// Default Ollama host URL.
pub const DEFAULT_HOST: &'static str = "http://localhost:11434";

/// What Ollama emits before the label text under the JSON-schema constraint.
/// Labels are tokenized in this context, so that token boundaries are those
/// that the server generates.
pub const JSON_LABEL_CONTEXT: &'static str = "{\"label\": \"";

// ---------------------------------------------------------------------------
// Replies
// ---------------------------------------------------------------------------

/// The label in a content, given what the content is as JSON: the member
/// `label` where there is such a text, and else the content itself without
/// the white space around it.
pub open spec fn label_in(parsed: Option<json::JsonView>, content: Seq<char>) -> Seq<char> {
    match json::text_of(json::inner(parsed, "label"@)) {
        Some(label) => label,
        None => text::trimmed(content),
    }
}

/// The label in a content, given what the content is as JSON.
pub fn label_from_parsed(parsed: Option<&Value>, content: &str) -> (r: String)
    ensures
        r@ == label_in(json::optional_json(parsed), content@),
{
    match inner_member(parsed, "label") {
        Some(v) => match as_text(v) {
            Some(s) => s.to_owned(),
            None => text::trim(content),
        },
        None => text::trim(content),
    }
}

/// Extract the label from Ollama's JSON-wrapped content (`{"label": "..."}`),
/// falling back to the trimmed raw content.
pub fn extract_label(content: &str) -> (r: String)
    ensures
        r@ == label_in(json::parsed_json(content@), content@),
{
    match parse_json(content) {
        Some(v) => label_from_parsed(Some(&v), content),
        None => label_from_parsed(None, content),
    }
}

/// Parse Ollama's logprobs array shape (`[{token, logprob, top_logprobs: [...]}]`).
pub fn parse_ollama_logprobs(arr: &[Value]) -> (r: Vec<TokenLogprob>)
    ensures
        base::logprob_views(r@) == base::positions_of(json::jsons_of(arr@)),
{
    read_positions(arr)
}

/// The content of an `/api/chat` reply.
pub open spec fn content_of(data: json::JsonView) -> Seq<char> {
    json::text_or_empty(json::inner(json::member_of(data, "message"@), "content"@))
}

/// What an `/api/chat` reply says.
pub open spec fn chat_reply(data: json::JsonView) -> base::ChatResponseView {
    base::ChatResponseView {
        content: content_of(data),
        label: label_in(json::parsed_json(content_of(data)), content_of(data)),
        logprobs: match json::array_of(json::member_of(data, "logprobs"@)) {
            Some(items) => Some(base::positions_of(items)),
            None => None,
        },
        raw: data,
    }
}

/// Reads an `/api/chat` reply.
pub fn parse_chat_response(data: Value) -> (r: ChatResponse)
    ensures
        r@ == chat_reply(json::json_of(data)),
{
    let content = inner_text(inner_member(member(&data, "message"), "content"));
    let label = extract_label(content.as_str());
    let logprobs = match inner_array(member(&data, "logprobs")) {
        Some(items) => Some(parse_ollama_logprobs(items.as_slice())),
        None => None,
    };
    ChatResponse { content, label, logprobs, raw: data }
}

// ---------------------------------------------------------------------------
// The label within an emitted object
// ---------------------------------------------------------------------------

/// The position of the first `c` in a text.
pub open spec fn find_char(s: Seq<char>, c: char) -> Option<int>
    decreases s.len(),
{
    if s.len() == 0 {
        None
    } else if s[0] == c {
        Some(0)
    } else {
        match find_char(s.drop_first(), c) {
            Some(i) => Some(i + 1),
            None => None,
        }
    }
}

/// The position of the first occurrence of `part` in a text.
pub open spec fn find_text(s: Seq<char>, part: Seq<char>) -> Option<int>
    decreases s.len(),
{
    if part.is_prefix_of(s) {
        Some(0)
    } else if s.len() == 0 {
        None
    } else {
        match find_text(s.drop_first(), part) {
            Some(i) => Some(i + 1),
            None => None,
        }
    }
}

/// The text that the tokens make up.
pub open spec fn emitted_text(v: Seq<base::TokenLogprobView>) -> Seq<char>
    decreases v.len(),
{
    if v.len() == 0 {
        Seq::empty()
    } else {
        emitted_text(v.drop_last()) + v.last().token
    }
}

/// Where the label stands in an emitted object: its first occurrence behind
/// the first colon.
pub open spec fn label_span(full: Seq<char>, label: Seq<char>) -> Option<(int, int)> {
    match find_char(full, ':') {
        None => None,
        Some(colon) => match find_text(full.skip(colon + 1), label) {
            None => None,
            Some(i) => Some((colon + 1 + i, colon + 1 + i + label.len())),
        },
    }
}

/// The positions whose tokens overlap the span from `start` to `end` of the
/// text that the tokens make up.
pub open spec fn overlapping(v: Seq<base::TokenLogprobView>, start: int, end: int) -> Seq<
    base::TokenLogprobView,
>
    decreases v.len(),
{
    if v.len() == 0 {
        Seq::empty()
    } else {
        let before = overlapping(v.drop_last(), start, end);
        let from = emitted_text(v.drop_last()).len();
        if from + v.last().token.len() > start && from < end {
            before.push(v.last())
        } else {
            before
        }
    }
}

/// A character of the JSON around a label.
pub open spec fn is_structure(c: char) -> bool {
    c == '"' || c == '{' || c == '}' || c == ':' || c == ' ' || c == '\t' || c == '\n'
}

/// Whether a token is more than JSON structure and the key `label`.
pub open spec fn is_label_text(token: Seq<char>) -> bool {
    let bare = text::trimmed(token);
    bare.filter(|c: char| !is_structure(c)).len() > 0 && bare != "label"@
}

/// The positions of the label in an emitted object: those that overlap the
/// span of the label where there are any, and else all that are more than
/// structure.
pub open spec fn label_positions(v: Seq<base::TokenLogprobView>, label: Seq<char>) -> Seq<
    base::TokenLogprobView,
> {
    let fallback = v.filter(|t: base::TokenLogprobView| is_label_text(t.token));
    match label_span(emitted_text(v), label) {
        Some((start, end)) => if overlapping(v, start, end).len() > 0 {
            overlapping(v, start, end)
        } else {
            fallback
        },
        None => fallback,
    }
}

/// The position of the first `c`, searched from the beginning.
fn position_of_char(s: &Vec<char>, c: char) -> (r: Option<usize>)
    ensures
        match r {
            Some(i) => find_char(s@, c) == Some(i as int) && i < s@.len(),
            None => find_char(s@, c) is None,
        },
{
    let n: usize = s.len();
    assert(s@.skip(0) =~= s@);
    for i in 0..n
        invariant
            n == s@.len(),
            find_char(s@, c) == match find_char(s@.skip(i as int), c) {
                Some(k) => Some(k + i),
                None => None,
            },
    {
        assert(s@.skip(i as int)[0] == s@[i as int]);
        if s[i] == c {
            return Some(i);
        }
        assert(s@.skip(i as int).drop_first() =~= s@.skip(i + 1));
    }
    assert(s@.skip(n as int) =~= Seq::<char>::empty());
    None
}

/// Whether `part` stands at position `at`.
fn stands_at(s: &Vec<char>, at: usize, part: &Vec<char>) -> (r: bool)
    requires
        at <= s@.len(),
    ensures
        r == part@.is_prefix_of(s@.skip(at as int)),
{
    let n: usize = part.len();
    let size: usize = s.len();
    if n > size - at {
        return false;
    }
    let ghost rest = s@.skip(at as int);
    for i in 0..n
        invariant
            at <= size,
            size == s@.len(),
            n == part@.len(),
            n <= size - at,
            rest == s@.skip(at as int),
            forall|j: int| 0 <= j < i ==> #[trigger] part@[j] == rest[j],
    {
        assert(rest[i as int] == s@[at + i]);
        if s[at + i] != part[i] {
            assert(part@.is_prefix_of(rest) ==> part@[i as int] == rest.subrange(
                0,
                part@.len() as int,
            )[i as int]);
            return false;
        }
    }
    assert(part@ =~= rest.subrange(0, part@.len() as int));
    true
}

/// The position of the first occurrence of `part` at `from` or behind it.
fn position_of_text(s: &Vec<char>, from: usize, part: &Vec<char>) -> (r: Option<usize>)
    requires
        from <= s@.len(),
    ensures
        match r {
            Some(i) => find_text(s@.skip(from as int), part@) == Some(i - from) && from <= i && i
                + part@.len() <= s@.len(),
            None => find_text(s@.skip(from as int), part@) is None,
        },
{
    let n: usize = s.len();
    for i in from..n
        invariant
            n == s@.len(),
            from <= n,
            find_text(s@.skip(from as int), part@) == match find_text(s@.skip(i as int), part@) {
                Some(k) => Some(k + i - from),
                None => None,
            },
    {
        if stands_at(s, i, part) {
            return Some(i);
        }
        assert(s@.skip(i as int).drop_first() =~= s@.skip(i + 1));
    }
    if stands_at(s, n, part) {
        Some(n)
    } else {
        None
    }
}

/// The text that the tokens make up, as characters.
fn emitted_chars(logprobs: &[TokenLogprob]) -> (r: Vec<char>)
    ensures
        r@ == emitted_text(base::logprob_views(logprobs@)),
{
    let mut r: Vec<char> = Vec::new();
    let n: usize = logprobs.len();
    let ghost all = base::logprob_views(logprobs@);
    assert(r@ =~= emitted_text(all.take(0)));
    for i in 0..n
        invariant
            n == logprobs@.len(),
            all == base::logprob_views(logprobs@),
            r@ == emitted_text(all.take(i as int)),
    {
        let ghost before = r@;
        let mut chars = text::chars_of(logprobs[i].token.as_str());
        r.append(&mut chars);
        proof {
            assert(all.take(i + 1).drop_last() =~= all.take(i as int));
            assert(r@ =~= before + all[i as int].token);
        }
    }
    assert(all.take(n as int) =~= all);
    r
}

/// What the first tokens make up is no longer than what all of them do.
proof fn lemma_emitted_len(v: Seq<base::TokenLogprobView>, i: int)
    requires
        0 <= i <= v.len(),
    ensures
        emitted_text(v.take(i)).len() <= emitted_text(v).len(),
    decreases v.len() - i,
{
    if i < v.len() {
        lemma_emitted_len(v, i + 1);
        assert(v.take(i + 1).drop_last() =~= v.take(i));
    } else {
        assert(v.take(i) =~= v);
    }
}

/// The positions that overlap a span of the text that the tokens make up.
fn overlapping_positions(
    logprobs: &[TokenLogprob],
    full: &Vec<char>,
    start: usize,
    end: usize,
) -> (r: Vec<TokenLogprob>)
    requires
        full@ == emitted_text(base::logprob_views(logprobs@)),
    ensures
        base::logprob_views(r@) == overlapping(
            base::logprob_views(logprobs@),
            start as int,
            end as int,
        ),
{
    let mut r: Vec<TokenLogprob> = Vec::new();
    let n: usize = logprobs.len();
    let mut from: usize = 0;
    let ghost all = base::logprob_views(logprobs@);
    assert(base::logprob_views(r@) =~= overlapping(all.take(0), start as int, end as int));
    for i in 0..n
        invariant
            n == logprobs@.len(),
            all == base::logprob_views(logprobs@),
            full@ == emitted_text(all),
            from == emitted_text(all.take(i as int)).len(),
            base::logprob_views(r@) == overlapping(all.take(i as int), start as int, end as int),
    {
        let t = &logprobs[i];
        let size: usize = text::size_of(t.token.as_str());
        let ghost before = r@;
        proof {
            assert(all.take(i + 1).drop_last() =~= all.take(i as int));
            assert(all[i as int] == t@);
            lemma_emitted_len(all, i + 1);
            assert(full@.len() == full.len());
        }
        let to: usize = from + size;
        if to > start && from < end {
            r.push(t.clone());
            assert(base::logprob_views(r@) =~= base::logprob_views(before).push(t@));
        }
        from = to;
    }
    assert(all.take(n as int) =~= all);
    r
}

/// Whether a token is more than JSON structure and the key `label`.
fn holds_label_text(token: &str) -> (r: bool)
    ensures
        r == is_label_text(token@),
{
    let bare = text::trim(token);
    let ghost keeps = |c: char| !is_structure(c);
    if bare == "label".to_owned() {
        return false;
    }
    let chars = text::chars_of(bare.as_str());
    let n: usize = chars.len();
    proof {
        reveal(Seq::filter);
        assert(bare@.take(0) =~= Seq::<char>::empty());
    }
    for i in 0..n
        invariant
            n == chars@.len(),
            chars@ == bare@,
            keeps == (|c: char| !is_structure(c)),
            bare@ == text::trimmed(token@),
            bare@ != "label"@,
            bare@.take(i as int).filter(keeps).len() == 0,
    {
        let c = chars[i];
        proof {
            reveal(Seq::filter);
            assert(bare@.take(i + 1).drop_last() =~= bare@.take(i as int));
        }
        if !(c == '"' || c == '{' || c == '}' || c == ':' || c == ' ' || c == '\t' || c == '\n') {
            proof {
                bare@.lemma_filter_contains(keeps, i as int);
            }
            return true;
        }
    }
    assert(bare@.take(n as int) =~= bare@);
    false
}

/// Map the character span of `label` within the emitted text back to token
/// positions; none where the label is not there or no token overlaps it.
fn span_map_logprobs(full: &Vec<char>, logprobs: &[TokenLogprob], label: &str) -> (r: Option<
    Vec<TokenLogprob>,
>)
    requires
        full@ == emitted_text(base::logprob_views(logprobs@)),
    ensures
        match r {
            Some(v) => label_span(full@, label@) matches Some((start, end)) && v@.len() > 0
                && base::logprob_views(v@) == overlapping(
                base::logprob_views(logprobs@),
                start,
                end,
            ),
            None => label_span(full@, label@) matches Some((start, end)) ==> overlapping(
                base::logprob_views(logprobs@),
                start,
                end,
            ).len() == 0,
        },
{
    assert(full@.len() == full.len());
    let colon: usize = match position_of_char(full, ':') {
        Some(i) => i,
        None => {
            return None;
        },
    };
    let wanted = text::chars_of(label);
    let start: usize = match position_of_text(full, colon + 1, &wanted) {
        Some(i) => i,
        None => {
            return None;
        },
    };
    let r = overlapping_positions(logprobs, full, start, start + wanted.len());
    assert(base::logprob_views(r@).len() == r@.len());
    if r.len() == 0 {
        None
    } else {
        Some(r)
    }
}

/// Extract the label-value tokens (with their logprobs) from a
/// `{"label": "<label>"}` constrained response.
///
/// Robust to model-specific whitespace in the emitted JSON. The returned
/// tokens keep their *exact* emitted strings, so that they match the tokens
/// that the model produces when it chooses between several labels.
pub fn label_token_logprobs(logprobs: &[TokenLogprob], label: &str) -> (r: Vec<TokenLogprob>)
    ensures
        base::logprob_views(r@) == label_positions(base::logprob_views(logprobs@), label@),
{
    let full = emitted_chars(logprobs);
    if let Some(r) = span_map_logprobs(&full, logprobs, label) {
        assert(base::logprob_views(r@).len() == r@.len());
        return r;
    }
    let mut r: Vec<TokenLogprob> = Vec::new();
    let n: usize = logprobs.len();
    let ghost all = base::logprob_views(logprobs@);
    let ghost keeps = |t: base::TokenLogprobView| is_label_text(t.token);
    proof {
        reveal(Seq::filter);
        assert(base::logprob_views(r@) =~= all.take(0).filter(keeps));
    }
    for i in 0..n
        invariant
            n == logprobs@.len(),
            all == base::logprob_views(logprobs@),
            keeps == (|t: base::TokenLogprobView| is_label_text(t.token)),
            base::logprob_views(r@) == all.take(i as int).filter(keeps),
    {
        let t = &logprobs[i];
        let ghost before = r@;
        proof {
            reveal(Seq::filter);
            assert(all.take(i + 1).drop_last() =~= all.take(i as int));
            assert(all[i as int] == t@);
        }
        if holds_label_text(t.token.as_str()) {
            r.push(t.clone());
            assert(base::logprob_views(r@) =~= base::logprob_views(before).push(t@));
        }
    }
    assert(all.take(n as int) =~= all);
    r
}

// ---------------------------------------------------------------------------
// Laws of the label within an emitted object
// ---------------------------------------------------------------------------

/// A text is where it is found.
proof fn lemma_found(s: Seq<char>, part: Seq<char>)
    ensures
        find_text(s, part) matches Some(i) ==> 0 <= i && i + part.len() <= s.len() && s.subrange(
            i,
            i + part.len(),
        ) == part,
    decreases s.len(),
{
    if part.is_prefix_of(s) {
        assert(s.subrange(0, part.len() as int) =~= part);
    } else if s.len() > 0 {
        lemma_found(s.drop_first(), part);
        match find_text(s.drop_first(), part) {
            Some(i) => assert(s.subrange(i + 1, i + 1 + part.len()) =~= s.drop_first().subrange(
                i,
                i + part.len(),
            )),
            None => {},
        }
    }
}

/// A character is found within the text.
proof fn lemma_found_char(s: Seq<char>, c: char)
    ensures
        find_char(s, c) matches Some(i) ==> 0 <= i < s.len(),
    decreases s.len(),
{
    if s.len() > 0 && s[0] != c {
        lemma_found_char(s.drop_first(), c);
    }
}

/// Whether `part` stands in `whole` from `lo` to `hi`.
spec fn stands_between(part: Seq<char>, whole: Seq<char>, lo: int, hi: int) -> bool {
    0 <= lo <= hi <= whole.len() && part == whole.subrange(lo, hi)
}

/// The tokens that overlap a span make up a stretch of the text around it.
proof fn lemma_overlapping(v: Seq<base::TokenLogprobView>, start: int, end: int)
    requires
        0 <= start < end,
    ensures
        emitted_text(v).len() <= start ==> overlapping(v, start, end).len() == 0,
        emitted_text(v).len() > start ==> exists|lo: int, hi: int|
            #![trigger stands_between(
                emitted_text(overlapping(v, start, end)),
                emitted_text(v),
                lo,
                hi,
            )]
            {
                &&& stands_between(
                    emitted_text(overlapping(v, start, end)),
                    emitted_text(v),
                    lo,
                    hi,
                )
                &&& lo <= start
                &&& (hi >= end || hi == emitted_text(v).len())
            },
    decreases v.len(),
{
    if v.len() > 0 {
        let w = v.drop_last();
        let t = v.last();
        let part = overlapping(v, start, end);
        let before = overlapping(w, start, end);
        let whole = emitted_text(v);
        let from = emitted_text(w).len() as int;
        lemma_overlapping(w, start, end);
        if whole.len() > start {
            if from <= start {
                assert(before =~= Seq::<base::TokenLogprobView>::empty());
                assert(part.drop_last() =~= before);
                assert(emitted_text(before) =~= Seq::<char>::empty());
                assert(emitted_text(part) =~= whole.subrange(from, whole.len() as int));
                assert(stands_between(emitted_text(part), whole, from, whole.len() as int));
            } else {
                let (lo, hi) = choose|lo: int, hi: int|
                    #![trigger stands_between(emitted_text(before), emitted_text(w), lo, hi)]
                    {
                        &&& stands_between(emitted_text(before), emitted_text(w), lo, hi)
                        &&& lo <= start
                        &&& (hi >= end || hi == emitted_text(w).len())
                    };
                if from < end {
                    assert(part.drop_last() =~= before);
                    assert(emitted_text(part) =~= whole.subrange(lo, whole.len() as int));
                    assert(stands_between(emitted_text(part), whole, lo, whole.len() as int));
                } else {
                    assert(emitted_text(part) =~= whole.subrange(lo, hi));
                    assert(stands_between(emitted_text(part), whole, lo, hi));
                }
            }
        }
    }
}

/// Where the label stands behind the colon of an emitted object, the positions
/// taken for it spell the label, with what its first and last token hold
/// besides.
pub proof fn law_label_positions_spell_label(v: Seq<base::TokenLogprobView>, label: Seq<char>)
    requires
        label.len() > 0,
        label_span(emitted_text(v), label) is Some,
    ensures
        text::occurs_in(label, emitted_text(label_positions(v, label))),
{
    let full = emitted_text(v);
    let colon = find_char(full, ':')->0;
    let rest = full.skip(colon + 1);
    lemma_found_char(full, ':');
    lemma_found(rest, label);
    let i = find_text(rest, label)->0;
    let start = colon + 1 + i;
    let end = start + label.len();
    assert(full.subrange(start, end) =~= rest.subrange(i, i + label.len()));
    lemma_overlapping(v, start, end);
    let part = overlapping(v, start, end);
    let (lo, hi) = choose|lo: int, hi: int|
        #![trigger stands_between(emitted_text(part), full, lo, hi)]
        {
            &&& stands_between(emitted_text(part), full, lo, hi)
            &&& lo <= start
            &&& (hi >= end || hi == full.len())
        };
    if part.len() == 0 {
        assert(emitted_text(part).len() == 0);
    }
    let at = start - lo;
    assert(label =~= emitted_text(part).subrange(at, at + label.len()));
    assert(text::stands_at(label, emitted_text(part), at));
}

/// Every position taken for the label is one that was emitted, as it was
/// emitted.
pub proof fn law_label_positions_are_emitted(
    v: Seq<base::TokenLogprobView>,
    label: Seq<char>,
    i: int,
)
    requires
        0 <= i < label_positions(v, label).len(),
    ensures
        v.contains(label_positions(v, label)[i]),
{
    let keeps = |t: base::TokenLogprobView| is_label_text(t.token);
    let x = label_positions(v, label)[i];
    if let Some((start, end)) = label_span(emitted_text(v), label) {
        lemma_overlapping_emitted(v, start, end, x);
    }
    if v.filter(keeps).contains(x) {
        v.lemma_filter_contains_rev(keeps, x);
    }
}

/// A position that overlaps a span is one of those given.
proof fn lemma_overlapping_emitted(
    v: Seq<base::TokenLogprobView>,
    start: int,
    end: int,
    x: base::TokenLogprobView,
)
    ensures
        overlapping(v, start, end).contains(x) ==> v.contains(x),
    decreases v.len(),
{
    if v.len() > 0 && overlapping(v, start, end).contains(x) {
        let w = v.drop_last();
        let before = overlapping(w, start, end);
        let part = overlapping(v, start, end);
        lemma_overlapping_emitted(w, start, end, x);
        let i = part.index_of(x);
        assert(part[i] == x);
        if i < before.len() {
            assert(before[i] == x);
            assert(w.contains(x));
            assert(v[w.index_of(x)] == x);
        } else {
            assert(v[v.len() - 1] == x);
        }
    }
}

// ---------------------------------------------------------------------------
// The backend
// ---------------------------------------------------------------------------

/// What a native Ollama backend is configured with.
#[derive(Debug)]
pub struct OllamaBackend {
    pub model: String,
    pub host: String,
    pub timeout: Duration,
    pub max_tokens: u32,
    pub extra_body: LabelMap<Value>,
}

/// The options of a chat request.
pub open spec fn chat_options(temperature: json::JsonView, max_tokens: u32) -> json::JsonView {
    json::JsonView::Object(
        map![
            "temperature"@ => temperature,
            "num_predict"@ => json::count_json(max_tokens),
        ],
    )
}

impl OllamaBackend {
    /// A backend with the defaults for `model` at `host`.
    pub open spec fn has_defaults(self, model: Seq<char>, host: Seq<char>) -> bool {
        &&& self.model@ == model
        &&& self.host@ == base::without_slashes(host)
        &&& self.timeout == openai_compat::whole_seconds(openai_compat::DEFAULT_TIMEOUT_SECS)
        &&& self.max_tokens == openai_compat::DEFAULT_MAX_TOKENS
        &&& self.extra_body@ == Map::<Seq<char>, Value>::empty()
    }

    /// Create a new Ollama backend pointed at the default host.
    pub fn new(model: &str) -> (r: Self)
        ensures
            r.has_defaults(model@, DEFAULT_HOST@),
    {
        Self::with_config(model, DEFAULT_HOST)
    }

    /// Create an Ollama backend with a custom host URL.
    pub fn with_config(model: &str, host: &str) -> (r: Self)
        ensures
            r.has_defaults(model@, host@),
    {
        Self::builder(model, host).build()
    }

    /// Create a builder for fine-grained configuration.
    pub fn builder(model: &str, host: &str) -> (r: OllamaBackendBuilder)
        ensures
            r.model@ == model@,
            r.host@ == host@,
            r.timeout == openai_compat::whole_seconds(openai_compat::DEFAULT_TIMEOUT_SECS),
            r.max_tokens == openai_compat::DEFAULT_MAX_TOKENS,
            r.extra_body@ == Map::<Seq<char>, Value>::empty(),
    {
        OllamaBackendBuilder {
            model: model.to_owned(),
            host: host.to_owned(),
            timeout: Duration::from_secs(openai_compat::DEFAULT_TIMEOUT_SECS),
            max_tokens: openai_compat::DEFAULT_MAX_TOKENS,
            extra_body: LabelMap::new(),
        }
    }

    /// The model identifier.
    pub fn model(&self) -> (r: &str)
        ensures
            r@ == self.model@,
    {
        self.model.as_str()
    }

    /// The host URL.
    pub fn base_url(&self) -> (r: &str)
        ensures
            r@ == self.host@,
    {
        self.host.as_str()
    }

    /// A chat reply holds the label wrapped in JSON.
    pub fn supports_bare_label_constraint(&self) -> (r: bool)
        ensures
            !r,
    {
        false
    }

    /// The address of `/api/chat`.
    pub fn chat_url(&self) -> (r: String)
        ensures
            r@ == self.host@ + "/api/chat"@,
    {
        let mut r = self.host.clone();
        r.append("/api/chat");
        r
    }

    /// The members of a chat request. The extra members are set last, over any
    /// other.
    pub open spec fn request_members(
        self,
        messages: Seq<base::ChatMessageView>,
        temperature: json::JsonView,
        constrain_labels: Option<Seq<Seq<char>>>,
        logprobs: bool,
        top_logprobs: u32,
    ) -> Map<Seq<char>, json::JsonView> {
        let plain = map![
            "model"@ => json::JsonView::Text(self.model@),
            "messages"@ => base::messages_json(messages),
            "stream"@ => json::JsonView::Bool(false),
            "options"@ => chat_options(temperature, self.max_tokens),
        ];
        let constrained = match constrain_labels {
            Some(labels) => plain.insert("format"@, prompts::label_schema(labels)),
            None => plain,
        };
        let asked = if logprobs {
            constrained.insert("logprobs"@, json::count_json(top_logprobs))
        } else {
            constrained
        };
        asked.union_prefer_right(json::extra_members(self.extra_body))
    }

    /// Build an `/api/chat` request body, constrained to the labels where they
    /// are given.
    pub fn chat_body(
        &self,
        messages: &[ChatMessage],
        temperature: Value,
        constrain_labels: Option<&[String]>,
        logprobs: bool,
        top_logprobs: u32,
    ) -> (r: Value)
        ensures
            json::json_of(r) == json::JsonView::Object(
                self.request_members(
                    base::message_views(messages@),
                    json::json_of(temperature),
                    match constrain_labels {
                        Some(labels) => Some(text::texts(labels@)),
                        None => None,
                    },
                    logprobs,
                    top_logprobs,
                ),
            ),
    {
        let mut options = empty_object();
        set_member(&mut options, "temperature", temperature);
        set_member(&mut options, "num_predict", count_value(self.max_tokens));
        let mut body = empty_object();
        set_member(&mut body, "model", text_value(self.model.clone()));
        set_member(&mut body, "messages", messages_value(messages));
        set_member(&mut body, "stream", bool_value(false));
        set_member(&mut body, "options", options);
        if let Some(labels) = constrain_labels {
            set_member(&mut body, "format", build_json_schema_for_choices(labels));
        }
        if logprobs {
            set_member(&mut body, "logprobs", count_value(top_logprobs));
        }
        merge_extra(&mut body, &self.extra_body);
        body
    }

    /// The body of a chat request that leaves `completion` as the only valid
    /// label, and asks for its log probabilities.
    pub fn forced_body(&self, messages: &[ChatMessage], completion: &str) -> (r: Value)
        ensures
            json::json_of(r) == json::JsonView::Object(
                self.request_members(
                    base::message_views(messages@),
                    json::zero_json(),
                    Some(seq![completion@]),
                    true,
                    1,
                ),
            ),
    {
        let mut labels: Vec<String> = Vec::new();
        labels.push(completion.to_owned());
        assert(text::texts(labels@) =~= seq![completion@]);
        self.chat_body(messages, zero_value(), Some(labels.as_slice()), true, 1)
    }

    /// The body of the chat request whose reply shows the tokens of `text`.
    pub fn forced_tokenize_body(&self, text: &str) -> (r: Value)
        ensures
            json::json_of(r) == json::JsonView::Object(
                self.request_members(
                    seq![base::ChatMessageView { role: "user"@, content: text@ }],
                    json::zero_json(),
                    Some(seq![text@]),
                    true,
                    1,
                ),
            ),
    {
        let mut messages: Vec<ChatMessage> = Vec::new();
        messages.push(ChatMessage::new("user", text));
        assert(base::message_views(messages@) =~= seq![
            base::ChatMessageView { role: "user"@, content: text@ },
        ]);
        self.forced_body(messages.as_slice(), text)
    }

    /// The first step of tokenizing `text`: the remembered tokens, or the body
    /// of the request to send where there are none. The context plays no part.
    pub fn tokenize_step(&self, cache: &TokenCache, text: &str, _context: Option<&str>) -> (r:
        TokenizeStep)
        ensures
            match r {
                TokenizeStep::Known(v) => cache@.contains_key(text@) && base::token_views(v@)
                    == cache@[text@],
                TokenizeStep::Ask(body) => !cache@.contains_key(text@) && json::json_of(body)
                    == json::JsonView::Object(
                    self.request_members(
                        seq![base::ChatMessageView { role: "user"@, content: text@ }],
                        json::zero_json(),
                        Some(seq![text@]),
                        true,
                        1,
                    ),
                ),
            },
    {
        match cache.get(text) {
            Some(v) => TokenizeStep::Known(v),
            None => TokenizeStep::Ask(self.forced_tokenize_body(text)),
        }
    }
}

/// The label tokens of a reply to a forced request.
fn value_tokens(label: &str, response: &ChatResponse) -> (r: Vec<TokenLogprob>)
    ensures
        base::logprob_views(r@) == label_positions(base::emitted_of(response@), label@),
{
    let nothing: Vec<TokenLogprob> = Vec::new();
    let emitted: &[TokenLogprob] = match &response.logprobs {
        Some(v) => v.as_slice(),
        None => nothing.as_slice(),
    };
    assert(base::logprob_views(emitted@) =~= base::emitted_of(response@));
    label_token_logprobs(emitted, label)
}

/// The score of a completion from the reply to a request that forced it.
pub fn forced_score(completion: &str, response: ChatResponse) -> (r: Result<
    ScoringResponse,
    ScoreFailure,
>)
    ensures
        base::score_outcome(r) == base::scored_or(
            completion@,
            label_positions(base::emitted_of(response@), completion@),
            response@.raw,
            ScoreFailure::NoValueTokens,
        ),
{
    let lps = value_tokens(completion, &response);
    score_or(completion, lps, response.raw, ScoreFailure::NoValueTokens)
}

/// The tokens of `text` that a reply to a request that forced it shows.
pub open spec fn tokens_read(text: Seq<char>, reply: base::ChatResponseView) -> Seq<
    base::TokenView,
> {
    base::forced_tokens(text, label_positions(base::emitted_of(reply), text))
}

/// How the tokens of a text are read off a reply.
pub open spec fn reader() -> spec_fn(Seq<char>, base::ChatResponseView) -> Seq<base::TokenView> {
    |text: Seq<char>, reply: base::ChatResponseView| tokens_read(text, reply)
}

/// The tokens of `text` from the reply to a request that forced it.
pub fn forced_tokenize(text: &str, response: &ChatResponse) -> (r: Vec<Token>)
    ensures
        base::token_views(r@) == tokens_read(text@, response@),
{
    let lps = value_tokens(text, response);
    tokens_of_forced(text, lps.as_slice())
}

/// The tokens of `text` from what became of the request for them, which is none
/// where it failed. Tokens are remembered; a failure is not.
pub fn tokenize_reply(cache: &mut TokenCache, text: &str, reply: Option<&ChatResponse>) -> (r:
    Option<Vec<Token>>)
    ensures
        match (r, reply) {
            (Some(v), Some(response)) => {
                &&& base::token_views(v@) == tokens_read(text@, response@)
                &&& final(cache)@ == base::learned(
                    old(cache)@,
                    text@,
                    Some(tokens_read(text@, response@)),
                )
            },
            (None, None) => final(cache)@ == base::learned(old(cache)@, text@, None),
            _ => false,
        },
{
    match reply {
        Some(response) => {
            let tokens = forced_tokenize(text, response);
            cache.store(text, tokens.as_slice());
            Some(tokens)
        },
        None => None,
    }
}

/// Tokenization is memoized. Once a call gave tokens for a text, every later
/// call for that text gives the same tokens and sends nothing, whatever the
/// contexts of the calls and whatever was asked between them. Tokens are never
/// empty. A failure is not remembered: as long as every call for a text failed,
/// the next one asks again.
pub proof fn law_tokenization_is_memoized(calls: Seq<base::TokenizeCall>, i: int, j: int)
    requires
        0 <= i < j < calls.len(),
        calls[i].text == calls[j].text,
    ensures
        base::outcome_at(calls, i, reader()).tokens matches Some(v) ==> {
            &&& v.len() > 0
            &&& base::outcome_at(calls, j, reader()) == (base::TokenizeOutcome {
                tokens: Some(v),
                asked: false,
            })
        },
        (forall|k: int|
            0 <= k < j && (#[trigger] calls[k]).text == calls[j].text ==> base::outcome_at(
                calls,
                k,
                reader(),
            ).tokens is None) ==> base::outcome_at(calls, j, reader()).asked,
{
    let outcome = base::outcome_at(calls, i, reader());
    if outcome.tokens is Some {
        base::lemma_stays_known(calls, i, j, reader());
        base::lemma_known_was_read(calls, calls[j].text, j, reader());
    }
    if forall|k: int|
        0 <= k < j && (#[trigger] calls[k]).text == calls[j].text ==> base::outcome_at(
            calls,
            k,
            reader(),
        ).tokens is None {
        base::lemma_failures_leave_unknown(calls, calls[j].text, j, reader());
    }
}

/// Builder for [`OllamaBackend`].
#[derive(Debug)]
pub struct OllamaBackendBuilder {
    pub model: String,
    pub host: String,
    pub timeout: Duration,
    pub max_tokens: u32,
    pub extra_body: LabelMap<Value>,
}

impl OllamaBackendBuilder {
    /// Set the request timeout. Defaults to 120s.
    pub fn timeout(self, timeout: Duration) -> (r: Self)
        ensures
            r == (OllamaBackendBuilder { timeout, ..self }),
    {
        OllamaBackendBuilder { timeout, ..self }
    }

    /// Set the maximum tokens to generate. Defaults to 256.
    pub fn max_tokens(self, max_tokens: u32) -> (r: Self)
        ensures
            r == (OllamaBackendBuilder { max_tokens, ..self }),
    {
        OllamaBackendBuilder { max_tokens, ..self }
    }

    /// Add an extra parameter merged into every request body.
    pub fn extra_body(self, key: &str, value: Value) -> (r: Self)
        ensures
            r.extra_body@ == self.extra_body@.insert(key@, value),
            r == (OllamaBackendBuilder { extra_body: r.extra_body, ..self }),
    {
        let mut r = self;
        r.extra_body.insert(key.to_owned(), value);
        r
    }

    /// Build the [`OllamaBackend`]. The host loses its trailing slashes.
    pub fn build(self) -> (r: OllamaBackend)
        ensures
            r.model == self.model,
            r.host@ == base::without_slashes(self.host@),
            r.timeout == self.timeout,
            r.max_tokens == self.max_tokens,
            r.extra_body == self.extra_body,
    {
        OllamaBackend {
            model: self.model,
            host: normalize_base_url(self.host.as_str()),
            timeout: self.timeout,
            max_tokens: self.max_tokens,
            extra_body: self.extra_body,
        }
    }
}

// ---------------------------------------------------------------------------
// Laws of replies
// ---------------------------------------------------------------------------

/// The label of a content is the text under `label` where the content is an
/// object with such a text, and else the content without the white space around
/// it.
pub proof fn law_label_is_unwrapped(
    members: Map<Seq<char>, json::JsonView>,
    label: Seq<char>,
    content: Seq<char>,
    other: json::JsonView,
)
    ensures
        members.contains_key("label"@) && members["label"@] == json::JsonView::Text(label)
            ==> label_in(Some(json::JsonView::Object(members)), content) == label,
        members.contains_key("label"@) && !(members["label"@] is Text) ==> label_in(
            Some(json::JsonView::Object(members)),
            content,
        ) == text::trimmed(content),
        !members.contains_key("label"@) ==> label_in(Some(json::JsonView::Object(members)), content)
            == text::trimmed(content),
        !(other is Object) ==> label_in(Some(other), content) == text::trimmed(content),
        label_in(None, content) == text::trimmed(content),
{
}

/// A chat reply gives the content of its message, the label in that content,
/// and a position for each entry of its log probabilities.
pub proof fn law_chat_reply_is_the_message(
    data: json::JsonView,
    message: json::JsonView,
    content: Seq<char>,
    items: Seq<json::JsonView>,
)
    requires
        json::member_of(data, "message"@) == Some(message),
        json::member_of(message, "content"@) == Some(json::JsonView::Text(content)),
    ensures
        chat_reply(data).content == content,
        chat_reply(data).label == label_in(json::parsed_json(content), content),
        chat_reply(data).raw == data,
        json::member_of(data, "logprobs"@) == Some(json::JsonView::Array(items)) ==> chat_reply(
            data,
        ).logprobs == Some(base::positions_of(items)),
        json::member_of(data, "logprobs"@) is None ==> chat_reply(data).logprobs is None,
{
}

// ---------------------------------------------------------------------------
// Laws of finding the label
// ---------------------------------------------------------------------------

/// A character is found at its first place, and not found exactly where it does
/// not stand.
pub proof fn law_first_character_is_found(s: Seq<char>, c: char)
    ensures
        match find_char(s, c) {
            Some(i) => 0 <= i < s.len() && s[i] == c && forall|j: int|
                0 <= j < i ==> #[trigger] s[j] != c,
            None => forall|j: int| 0 <= j < s.len() ==> #[trigger] s[j] != c,
        },
    decreases s.len(),
{
    if s.len() > 0 && s[0] != c {
        let rest = s.drop_first();
        law_first_character_is_found(rest, c);
        match find_char(rest, c) {
            Some(i) => {
                assert(s[i + 1] == rest[i]);
                assert forall|j: int| 0 <= j < i + 1 implies #[trigger] s[j] != c by {
                    if j > 0 {
                        assert(rest[j - 1] == s[j]);
                    }
                }
            },
            None => {
                assert forall|j: int| 0 <= j < s.len() implies #[trigger] s[j] != c by {
                    if j > 0 {
                        assert(rest[j - 1] == s[j]);
                    }
                }
            },
        }
    }
}

/// A text is found at its first place, and not found exactly where it does not
/// occur.
pub proof fn law_first_text_is_found(s: Seq<char>, part: Seq<char>)
    ensures
        match find_text(s, part) {
            Some(i) => text::stands_at(part, s, i) && forall|j: int|
                0 <= j < i ==> !#[trigger] text::stands_at(part, s, j),
            None => forall|j: int| !#[trigger] text::stands_at(part, s, j),
        },
    decreases s.len(),
{
    assert(part.is_prefix_of(s) <==> text::stands_at(part, s, 0)) by {
        assert(0 + part.len() == part.len());
    }
    if !part.is_prefix_of(s) && s.len() > 0 {
        let rest = s.drop_first();
        law_first_text_is_found(rest, part);
        assert forall|j: int| 0 < j implies (#[trigger] text::stands_at(part, s, j)
            <==> text::stands_at(part, rest, j - 1)) by {
            if j + part.len() <= s.len() {
                assert(s.subrange(j, j + part.len()) =~= rest.subrange(j - 1, j - 1 + part.len()));
            }
        }
        match find_text(rest, part) {
            Some(i) => {
                assert(text::stands_at(part, s, i + 1));
                assert forall|j: int| 0 <= j < i + 1 implies !#[trigger] text::stands_at(
                    part,
                    s,
                    j,
                ) by {
                    if j > 0 {
                        assert(!text::stands_at(part, rest, j - 1));
                    }
                }
            },
            None => {
                assert forall|j: int| !#[trigger] text::stands_at(part, s, j) by {
                    if j > 0 {
                        assert(!text::stands_at(part, rest, j - 1));
                    }
                }
            },
        }
    } else if !part.is_prefix_of(s) {
        assert forall|j: int| !#[trigger] text::stands_at(part, s, j) by {
            if text::stands_at(part, s, j) {
                assert(j == 0);
            }
        }
    }
}

/// The text that tokens make up is the text of the first ones and that of the
/// others behind it; one token makes up its own text.
pub proof fn law_emitted_text_of_parts(
    a: Seq<base::TokenLogprobView>,
    b: Seq<base::TokenLogprobView>,
    t: base::TokenLogprobView,
)
    ensures
        emitted_text(a + b) == emitted_text(a) + emitted_text(b),
        emitted_text(seq![t]) == t.token,
        emitted_text(Seq::empty()).len() == 0,
    decreases b.len(),
{
    reveal_with_fuel(emitted_text, 2);
    assert(seq![t].drop_last() =~= Seq::<base::TokenLogprobView>::empty());
    assert(emitted_text(seq![t]) =~= t.token);
    if b.len() == 0 {
        assert(a + b =~= a);
        assert(emitted_text(a) + emitted_text(b) =~= emitted_text(a));
    } else {
        law_emitted_text_of_parts(a, b.drop_last(), t);
        assert((a + b).drop_last() =~= a + b.drop_last());
        assert(emitted_text(a + b) =~= emitted_text(a) + emitted_text(b));
    }
}

/// The label is sought behind the first colon, at its first place there: the
/// span holds the label, and no earlier place behind the colon does. There is
/// no span exactly where there is no colon or no label behind it.
pub proof fn law_label_span_is_behind_the_colon(full: Seq<char>, label: Seq<char>, colon: int)
    requires
        0 <= colon < full.len(),
        full[colon] == ':',
        forall|j: int| 0 <= j < colon ==> #[trigger] full[j] != ':',
    ensures
        match label_span(full, label) {
            Some((start, end)) => colon < start && end == start + label.len() && text::stands_at(
                label,
                full,
                start,
            ) && forall|j: int| colon < j < start ==> !#[trigger] text::stands_at(label, full, j),
            None => forall|j: int| colon < j ==> !#[trigger] text::stands_at(label, full, j),
        },
{
    law_first_character_is_found(full, ':');
    assert(find_char(full, ':') == Some(colon));
    let rest = full.skip(colon + 1);
    law_first_text_is_found(rest, label);
    assert forall|j: int| colon < j implies (#[trigger] text::stands_at(label, full, j)
        <==> text::stands_at(label, rest, j - colon - 1)) by {
        if j + label.len() <= full.len() {
            assert(full.subrange(j, j + label.len()) =~= rest.subrange(
                j - colon - 1,
                j - colon - 1 + label.len(),
            ));
        }
    }
}

/// Without a colon there is no span.
pub proof fn law_no_span_without_a_colon(full: Seq<char>, label: Seq<char>)
    requires
        forall|j: int| 0 <= j < full.len() ==> #[trigger] full[j] != ':',
    ensures
        label_span(full, label) is None,
{
    law_first_character_is_found(full, ':');
}

/// Whether the token at position `p` has a character in the span from `start`
/// to `end` of the text that the tokens make up, or closes around it.
pub open spec fn reaches_into(
    v: Seq<base::TokenLogprobView>,
    p: int,
    start: int,
    end: int,
) -> bool {
    emitted_text(v.take(p)).len() < end && emitted_text(v.take(p)).len() + v[p].token.len() > start
}

/// Whether `kept` is what stands at the positions that reach into a span, in
/// order.
pub open spec fn is_reaching(
    v: Seq<base::TokenLogprobView>,
    kept: Seq<base::TokenLogprobView>,
    start: int,
    end: int,
) -> bool {
    exists|picks: Seq<int>|
        #![trigger selection::ascending(picks, v.len() as int)]
        selection::ascending(picks, v.len() as int) && picks.len() == kept.len() && (forall|i: int|
            0 <= i < kept.len() ==> #[trigger] kept[i] == v[picks[i]]) && forall|p: int|
            0 <= p < v.len() ==> (#[trigger] reaches_into(v, p, start, end) <==> picks.contains(p))
}

/// The positions that overlap a span are those whose tokens reach into it, all
/// of them, in order.
pub proof fn law_overlapping_positions_reach_into_the_span(
    v: Seq<base::TokenLogprobView>,
    start: int,
    end: int,
)
    ensures
        is_reaching(v, overlapping(v, start, end), start, end),
    decreases v.len(),
{
    let kept = overlapping(v, start, end);
    if v.len() == 0 {
        assert(selection::ascending(Seq::<int>::empty(), 0));
    } else {
        let rest = v.drop_last();
        let last = v.len() - 1;
        let before = overlapping(rest, start, end);
        law_overlapping_positions_reach_into_the_span(rest, start, end);
        let old = choose|picks: Seq<int>|
            #![trigger selection::ascending(picks, rest.len() as int)]
            selection::ascending(picks, rest.len() as int) && picks.len() == before.len()
                && (forall|i: int| 0 <= i < before.len() ==> #[trigger] before[i] == rest[picks[i]])
                && forall|p: int|
                0 <= p < rest.len() ==> (#[trigger] reaches_into(rest, p, start, end)
                    <==> picks.contains(p));
        assert(v.take(last) =~= rest);
        let picks = if reaches_into(v, last, start, end) {
            old.push(last)
        } else {
            old
        };
        assert(selection::ascending(picks, v.len() as int));
        assert forall|i: int| 0 <= i < kept.len() implies #[trigger] kept[i] == v[picks[i]] by {
            if i < before.len() {
                assert(before[i] == rest[old[i]]);
            }
        }
        assert forall|p: int| 0 <= p < v.len() implies (#[trigger] reaches_into(v, p, start, end)
            <==> picks.contains(p)) by {
            if p < last {
                assert(v.take(p) =~= rest.take(p));
                assert(reaches_into(rest, p, start, end) == reaches_into(v, p, start, end));
                if old.contains(p) {
                    assert(picks[old.index_of(p)] == p);
                }
                if picks.contains(p) {
                    assert(old[picks.index_of(p)] == p);
                }
            } else {
                if reaches_into(v, p, start, end) {
                    assert(picks[old.len() as int] == p);
                }
                if old.contains(p) {
                    assert(old[old.index_of(p)] == p);
                }
            }
        }
    }
}

/// A token is more than structure exactly where, without the white space around
/// it, it is not the word `label` and has a character that is none of the JSON
/// around a label.
pub proof fn law_label_text_is_more_than_structure(token: Seq<char>)
    ensures
        is_label_text(token) <==> text::trimmed(token) != "label"@ && exists|i: int|
            0 <= i < text::trimmed(token).len() && !"\"{}: \t\n"@.contains(
                #[trigger] text::trimmed(token)[i],
            ),
{
    reveal_strlit("\"{}: \t\n");
    let structure = "\"{}: \t\n"@;
    assert(structure.len() == 7);
    assert(structure[0] == '"' && structure[1] == '{' && structure[2] == '}' && structure[3] == ':'
        && structure[4] == ' ' && structure[5] == '\t' && structure[6] == '\n');
    assert forall|c: char| #[trigger] structure.contains(c) <==> is_structure(c) by {}
    let bare = text::trimmed(token);
    let keep = |c: char| !is_structure(c);
    let kept = bare.filter(keep);
    if kept.len() > 0 {
        bare.lemma_filter_pred(keep, 0);
        bare.lemma_filter_contains_rev(keep, kept[0]);
        let i = bare.index_of(kept[0]);
        assert(!structure.contains(bare[i]));
    }
    if exists|i: int| 0 <= i < bare.len() && !structure.contains(#[trigger] bare[i]) {
        let i = choose|i: int| 0 <= i < bare.len() && !structure.contains(#[trigger] bare[i]);
        bare.lemma_filter_contains(keep, i);
    }
}

/// The positions of a label are those that reach into the span of the label,
/// where there is a span and any reach into it; else they are all positions
/// that are more than structure. Either way none of them is left out.
pub proof fn law_label_positions_are_complete(
    v: Seq<base::TokenLogprobView>,
    label: Seq<char>,
)
    ensures
        match label_span(emitted_text(v), label) {
            Some((start, end)) => {
                &&& (exists|p: int| 0 <= p < v.len() && #[trigger] reaches_into(v, p, start, end))
                    ==> is_reaching(v, label_positions(v, label), start, end)
                &&& (forall|p: int|
                    0 <= p < v.len() ==> !#[trigger] reaches_into(v, p, start, end))
                    ==> selection::picked(
                    v,
                    label_positions(v, label),
                    |t: base::TokenLogprobView| is_label_text(t.token),
                )
            },
            None => selection::picked(
                v,
                label_positions(v, label),
                |t: base::TokenLogprobView| is_label_text(t.token),
            ),
        },
{
    let keep = |t: base::TokenLogprobView| is_label_text(t.token);
    selection::lemma_filter_picks(v, keep);
    if let Some((start, end)) = label_span(emitted_text(v), label) {
        let kept = overlapping(v, start, end);
        law_overlapping_positions_reach_into_the_span(v, start, end);
        let picks = choose|picks: Seq<int>|
            #![trigger selection::ascending(picks, v.len() as int)]
            selection::ascending(picks, v.len() as int) && picks.len() == kept.len() && (forall|
                i: int,
            |
                0 <= i < kept.len() ==> #[trigger] kept[i] == v[picks[i]]) && forall|p: int|
                0 <= p < v.len() ==> (#[trigger] reaches_into(v, p, start, end)
                    <==> picks.contains(p));
        if kept.len() > 0 {
            assert(picks.contains(picks[0]));
            assert(reaches_into(v, picks[0], start, end));
        }
    }
}

// ---------------------------------------------------------------------------
// Laws of requests
// ---------------------------------------------------------------------------

/// A request names the model, carries every message, is not streamed, and has
/// the temperature and the limit on tokens among its options. It has the schema
/// of the labels exactly where labels are given, and the number of candidates
/// exactly where they are wanted. What is added to every request is set over
/// all of these, and there is no other member.
pub proof fn law_request_is_complete(
    backend: OllamaBackend,
    messages: Seq<base::ChatMessageView>,
    temperature: json::JsonView,
    labels: Option<Seq<Seq<char>>>,
    logprobs: bool,
    top_logprobs: u32,
    key: Seq<char>,
)
    ensures
        ({
            let sent = backend.request_members(
                messages,
                temperature,
                labels,
                logprobs,
                top_logprobs,
            );
            let extra = backend.extra_body.keys();
            &&& extra.contains(key) ==> sent.contains_key(key) && sent[key] == json::json_of(
                backend.extra_body@[key],
            )
            &&& !extra.contains("model"@) ==> sent.contains_key("model"@) && sent["model"@]
                == json::JsonView::Text(backend.model@)
            &&& !extra.contains("messages"@) ==> sent.contains_key("messages"@)
                && sent["messages"@] == base::messages_json(messages)
            &&& !extra.contains("stream"@) ==> sent.contains_key("stream"@) && sent["stream"@]
                == json::JsonView::Bool(false)
            &&& !extra.contains("options"@) ==> sent.contains_key("options"@) && json::inner(
                Some(sent["options"@]),
                "temperature"@,
            ) == Some(temperature) && json::inner(Some(sent["options"@]), "num_predict"@) == Some(
                json::count_json(backend.max_tokens),
            )
            &&& !extra.contains("format"@) ==> (sent.contains_key("format"@) <==> labels is Some)
                && (labels is Some ==> sent["format"@] == prompts::label_schema(labels->0))
            &&& !extra.contains("logprobs"@) ==> (sent.contains_key("logprobs"@) <==> logprobs) && (
            logprobs ==> sent["logprobs"@] == json::count_json(top_logprobs))
            &&& sent.contains_key(key) ==> extra.contains(key) || key == "model"@ || key
                == "messages"@ || key == "stream"@ || key == "options"@ || key == "format"@ || key
                == "logprobs"@
        }),
{
    reveal_strlit("model");
    reveal_strlit("messages");
    reveal_strlit("stream");
    reveal_strlit("options");
    reveal_strlit("format");
    reveal_strlit("logprobs");
    reveal_strlit("temperature");
    reveal_strlit("num_predict");
    assert("model"@.len() == 5 && "messages"@.len() == 8 && "stream"@.len() == 6);
    assert("options"@.len() == 7 && "format"@.len() == 6 && "logprobs"@.len() == 8);
    assert("temperature"@.len() == 11 && "num_predict"@.len() == 11);
    assert("messages"@[0] != "logprobs"@[0]);
    assert("stream"@[0] != "format"@[0]);
    assert("temperature"@[0] != "num_predict"@[0]);
    json::law_every_extra_is_added(backend.extra_body, key);
    json::law_every_extra_is_added(backend.extra_body, "model"@);
    json::law_every_extra_is_added(backend.extra_body, "messages"@);
    json::law_every_extra_is_added(backend.extra_body, "stream"@);
    json::law_every_extra_is_added(backend.extra_body, "options"@);
    json::law_every_extra_is_added(backend.extra_body, "format"@);
    json::law_every_extra_is_added(backend.extra_body, "logprobs"@);
}

/// The tokens of a label are those that the reply shows of it, in order, each
/// with the text emitted; where the reply shows none, the label is one token.
pub proof fn law_tokens_are_those_of_the_label(text: Seq<char>, reply: base::ChatResponseView)
    ensures
        ({
            let shown = label_positions(base::emitted_of(reply), text);
            &&& shown.len() > 0 ==> tokens_read(text, reply).len() == shown.len() && forall|i: int|
                0 <= i < shown.len() ==> (#[trigger] tokens_read(text, reply)[i]).text
                    == shown[i].token
            &&& shown.len() == 0 ==> tokens_read(text, reply).len() == 1 && tokens_read(
                text,
                reply,
            )[0].text == text
            &&& reader()(text, reply) == tokens_read(text, reply)
        }),
{
}

/// A backend with the defaults sends what it was given to the address it was
/// given, and adds nothing to a request.
pub proof fn law_defaults_of_the_backend(
    backend: OllamaBackend,
    model: Seq<char>,
    host: Seq<char>,
    key: Seq<char>,
)
    requires
        backend.has_defaults(model, host),
    ensures
        backend.model@ == model,
        backend.host@.is_prefix_of(host),
        backend.host@.len() > 0 ==> backend.host@.last() != '/',
        backend.max_tokens == 256,
        backend.timeout == openai_compat::whole_seconds(120),
        !backend.extra_body@.contains_key(key),
{
    base::law_normalized_url(host);
}

/// A reply whose message has no text for its content has no content; log
/// probabilities that are no list are none.
pub proof fn law_incomplete_reply_says_nothing(data: json::JsonView)
    ensures
        json::text_of(json::inner(json::member_of(data, "message"@), "content"@)) is None
            ==> chat_reply(data).content.len() == 0,
        json::array_of(json::member_of(data, "logprobs"@)) is None ==> chat_reply(data).logprobs
            is None,
        chat_reply(data).label == label_in(
            json::parsed_json(chat_reply(data).content),
            chat_reply(data).content,
        ),
        chat_reply(data).raw == data,
{
}

} // verus!
