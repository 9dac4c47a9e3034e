//! Types shared by the backends, and the requests and replies of servers that
//! speak the OpenAI protocol.

use crate::json;
use crate::json::{
    array_value, as_array, as_float_bits, as_text, bool_value, count_value, empty_object,
    inner_array, inner_float, inner_member, inner_text, member, merge_extra, nth_element,
    set_member, text_value,
};
use crate::label_map::LabelMap;
use crate::scalar::Scalar;
use crate::text;
use serde_json::Value;
use vstd::prelude::*;

verus! {

broadcast use LabelMap::lemma_keys;

/// A single chat message.
#[derive(Debug, Clone)]
pub struct ChatMessage {
    /// Role (e.g. "system", "user", "assistant").
    pub role: String,
    /// Content of the message.
    pub content: String,
}

impl ChatMessage {
    /// Create a new chat message.
    pub fn new(role: &str, content: &str) -> (r: Self)
        ensures
            r.role@ == role@,
            r.content@ == content@,
    {
        ChatMessage { role: role.to_owned(), content: content.to_owned() }
    }
}

/// What a [`ChatMessage`] says.
pub struct ChatMessageView {
    pub role: Seq<char>,
    pub content: Seq<char>,
}

impl ChatMessage {
    pub open spec fn view(&self) -> ChatMessageView {
        ChatMessageView { role: self.role@, content: self.content@ }
    }
}

/// The views of a list of messages.
pub open spec fn message_views(v: Seq<ChatMessage>) -> Seq<ChatMessageView> {
    v.map_values(|m: ChatMessage| m@)
}

/// A tokenizer token (text + id).
#[derive(Debug, Clone)]
pub struct Token {
    /// Token text.
    pub text: String,
    /// Token id.
    pub id: i64,
}

/// What a [`Token`] says.
pub struct TokenView {
    pub text: Seq<char>,
    pub id: int,
}

impl Token {
    pub open spec fn view(&self) -> TokenView {
        TokenView { text: self.text@, id: self.id as int }
    }
}

/// The views of a list of tokens.
pub open spec fn token_views(v: Seq<Token>) -> Seq<TokenView> {
    v.map_values(|t: Token| t@)
}

/// A copy of a list of tokens.
pub fn copy_tokens(v: &[Token]) -> (r: Vec<Token>)
    ensures
        token_views(r@) == token_views(v@),
{
    let mut r: Vec<Token> = Vec::new();
    let n: usize = v.len();
    for i in 0..n
        invariant
            n == v@.len(),
            r@.len() == i,
            forall|j: int| 0 <= j < i ==> (#[trigger] r@[j])@ == v@[j]@,
    {
        r.push(Token { text: v[i].text.clone(), id: v[i].id });
    }
    assert(token_views(r@) =~= token_views(v@));
    r
}

/// Logprob info for a single generated or scored token position.
#[derive(Debug)]
pub struct TokenLogprob {
    /// The token string.
    pub token: String,
    /// Token id (when reported by the server, otherwise `-1`).
    pub token_id: i64,
    /// Log probability of this token.
    pub logprob: Scalar,
    /// Candidate tokens and their log probabilities at this position.
    pub top_logprobs: LabelMap<Scalar>,
}

/// What a [`TokenLogprob`] says.
pub struct TokenLogprobView {
    pub token: Seq<char>,
    pub token_id: int,
    pub logprob: Scalar,
    pub top_logprobs: Map<Seq<char>, Scalar>,
}

/// The views of a list of positions.
pub open spec fn logprob_views(v: Seq<TokenLogprob>) -> Seq<TokenLogprobView> {
    v.map_values(|t: TokenLogprob| t@)
}

impl TokenLogprob {
    pub open spec fn view(&self) -> TokenLogprobView {
        TokenLogprobView {
            token: self.token@,
            token_id: self.token_id as int,
            logprob: self.logprob,
            top_logprobs: self.top_logprobs@,
        }
    }

    /// Create a new token-logprob entry without candidates.
    pub fn new(token: &str, logprob: Scalar) -> (r: Self)
        ensures
            r@ == (TokenLogprobView {
                token: token@,
                token_id: -1,
                logprob,
                top_logprobs: Map::empty(),
            }),
    {
        TokenLogprob {
            token: token.to_owned(),
            token_id: -1,
            logprob,
            top_logprobs: LabelMap::new(),
        }
    }
}

impl Clone for TokenLogprob {
    fn clone(&self) -> (r: Self)
        ensures
            r@ == self@,
    {
        let top = self.top_logprobs.clone();
        proof {
            assert(top@ =~= self.top_logprobs@) by {
                assert forall|k: Seq<char>| self.top_logprobs@.contains_key(k) implies top@[k]
                    == self.top_logprobs@[k] by {
                    assert(cloned(self.top_logprobs@[k], top@[k]));
                }
            }
        }
        TokenLogprob {
            token: self.token.clone(),
            token_id: self.token_id,
            logprob: self.logprob,
            top_logprobs: top,
        }
    }
}

/// Response from a chat completion call.
#[derive(Debug, Clone)]
pub struct ChatResponse {
    /// The generated content.
    pub content: String,
    /// The label extracted from the (possibly JSON-wrapped) content.
    pub label: String,
    /// Log probabilities per token, if requested.
    pub logprobs: Option<Vec<TokenLogprob>>,
    /// Raw JSON response from the API.
    pub raw: Value,
}

/// Response from a completion-scoring call.
#[derive(Debug, Clone)]
pub struct ScoringResponse {
    /// The completion text that was scored.
    pub completion: String,
    /// Per-token logprob info along the completion.
    pub logprobs: Vec<TokenLogprob>,
    /// Raw JSON response from the API.
    pub raw: Value,
}

/// What a [`ChatResponse`] says.
#[verifier::ext_equal]
pub struct ChatResponseView {
    pub content: Seq<char>,
    pub label: Seq<char>,
    pub logprobs: Option<Seq<TokenLogprobView>>,
    pub raw: json::JsonView,
}

impl ChatResponse {
    pub open spec fn view(&self) -> ChatResponseView {
        ChatResponseView {
            content: self.content@,
            label: self.label@,
            logprobs: match self.logprobs {
                Some(v) => Some(logprob_views(v@)),
                None => None,
            },
            raw: json::json_of(self.raw),
        }
    }
}

/// What a [`ScoringResponse`] says.
#[verifier::ext_equal]
pub struct ScoringResponseView {
    pub completion: Seq<char>,
    pub logprobs: Seq<TokenLogprobView>,
    pub raw: json::JsonView,
}

impl ScoringResponse {
    pub open spec fn view(&self) -> ScoringResponseView {
        ScoringResponseView {
            completion: self.completion@,
            logprobs: logprob_views(self.logprobs@),
            raw: json::json_of(self.raw),
        }
    }
}

/// Why a completion could not be scored.
#[derive(Debug, Clone, Copy, PartialEq, Eq, Structural)]
pub enum ScoreFailure {
    /// The echoed prompt held no token of the label.
    NoLabelTokens,
    /// Forced generation returned no token of the label.
    NoValueTokens,
}

/// A completion with its positions, unless it has none.
pub open spec fn scored_or(
    completion: Seq<char>,
    logprobs: Seq<TokenLogprobView>,
    raw: json::JsonView,
    failure: ScoreFailure,
) -> Result<ScoringResponseView, ScoreFailure> {
    if logprobs.len() == 0 {
        Err(failure)
    } else {
        Ok(ScoringResponseView { completion, logprobs, raw })
    }
}

/// What the outcome of scoring says.
pub open spec fn score_outcome(r: Result<ScoringResponse, ScoreFailure>) -> Result<
    ScoringResponseView,
    ScoreFailure,
> {
    match r {
        Ok(s) => Ok(s@),
        Err(e) => Err(e),
    }
}

/// A completion with its positions, unless it has none.
pub(crate) fn score_or(
    completion: &str,
    logprobs: Vec<TokenLogprob>,
    raw: Value,
    failure: ScoreFailure,
) -> (r: Result<ScoringResponse, ScoreFailure>)
    ensures
        score_outcome(r) == scored_or(
            completion@,
            logprob_views(logprobs@),
            json::json_of(raw),
            failure,
        ),
{
    assert(logprob_views(logprobs@).len() == logprobs@.len());
    if logprobs.len() == 0 {
        Err(failure)
    } else {
        Ok(ScoringResponse { completion: completion.to_owned(), logprobs, raw })
    }
}

/// The tokens of a text that was forced out of a backend: those it emitted, or
/// the text as one token where it reported none. Ids are not known.
pub open spec fn forced_tokens(text: Seq<char>, emitted: Seq<TokenLogprobView>) -> Seq<TokenView> {
    if emitted.len() == 0 {
        seq![TokenView { text, id: -1 }]
    } else {
        emitted.map_values(|t: TokenLogprobView| TokenView { text: t.token, id: -1 })
    }
}

/// The tokens of a text that was forced out of a backend.
pub(crate) fn tokens_of_forced(text: &str, emitted: &[TokenLogprob]) -> (r: Vec<Token>)
    ensures
        token_views(r@) == forced_tokens(text@, logprob_views(emitted@)),
{
    let mut r: Vec<Token> = Vec::new();
    let n: usize = emitted.len();
    if n == 0 {
        r.push(Token { text: text.to_owned(), id: -1 });
    } else {
        for i in 0..n
            invariant
                n == emitted@.len(),
                r@.len() == i,
                forall|j: int|
                    0 <= j < i ==> (#[trigger] r@[j])@ == (TokenView {
                        text: emitted@[j].token@,
                        id: -1,
                    }),
        {
            r.push(Token { text: emitted[i].token.clone(), id: -1 });
        }
    }
    assert(token_views(r@) =~= forced_tokens(text@, logprob_views(emitted@)));
    r
}

/// The positions that a response reports; none where it reports none.
pub open spec fn emitted_of(response: ChatResponseView) -> Seq<TokenLogprobView> {
    match response.logprobs {
        Some(v) => v,
        None => Seq::empty(),
    }
}

// ---------------------------------------------------------------------------
// Remembered tokens
// ---------------------------------------------------------------------------

/// The tokens of the labels that were tokenized before, so that each label is
/// tokenized once.
#[derive(Debug)]
pub struct TokenCache {
    entries: LabelMap<Vec<Token>>,
}

impl TokenCache {
    /// The tokens remembered for each label.
    pub closed spec fn view(&self) -> Map<Seq<char>, Seq<TokenView>> {
        self.entries@.map_values(|v: Vec<Token>| token_views(v@))
    }

    /// A cache that remembers nothing.
    pub fn new() -> (r: Self)
        ensures
            r@ == Map::<Seq<char>, Seq<TokenView>>::empty(),
    {
        let r = TokenCache { entries: LabelMap::new() };
        assert(r@ =~= Map::<Seq<char>, Seq<TokenView>>::empty());
        r
    }

    /// The tokens remembered for a label.
    pub fn get(&self, text: &str) -> (r: Option<Vec<Token>>)
        ensures
            match r {
                Some(v) => self@.contains_key(text@) && token_views(v@) == self@[text@],
                None => !self@.contains_key(text@),
            },
    {
        match self.entries.get(text) {
            Some(v) => Some(copy_tokens(v.as_slice())),
            None => None,
        }
    }

    /// Remembers the tokens of a label.
    pub fn store(&mut self, text: &str, tokens: &[Token])
        ensures
            final(self)@ == old(self)@.insert(text@, token_views(tokens@)),
    {
        let ghost before = self@;
        self.entries.insert(text.to_owned(), copy_tokens(tokens));
        assert(self@ =~= before.insert(text@, token_views(tokens@)));
    }
}

/// The first step of tokenizing a text.
#[derive(Debug)]
pub enum TokenizeStep {
    /// The tokens are remembered: nothing is to be sent.
    Known(Vec<Token>),
    /// The chat request with this body is to be sent.
    Ask(Value),
}

/// A call that tokenizes a text, at a time at which a request for it would get
/// `reply`; none where the request would fail.
pub struct TokenizeCall {
    pub text: Seq<char>,
    pub context: Option<Seq<char>>,
    pub reply: Option<ChatResponseView>,
}

/// What a call that tokenizes a text did: the tokens, none where the call
/// failed, and whether a request was sent.
pub struct TokenizeOutcome {
    pub tokens: Option<Seq<TokenView>>,
    pub asked: bool,
}

/// What is remembered once `tokens` were found for `text`; nothing is added
/// where none were found.
pub open spec fn learned(
    known: Map<Seq<char>, Seq<TokenView>>,
    text: Seq<char>,
    tokens: Option<Seq<TokenView>>,
) -> Map<Seq<char>, Seq<TokenView>> {
    match tokens {
        Some(v) => known.insert(text, v),
        None => known,
    }
}

/// What a call does where `known` is remembered, for a backend that reads the
/// tokens of a text off a reply by `read`.
pub open spec fn outcome_of(
    known: Map<Seq<char>, Seq<TokenView>>,
    call: TokenizeCall,
    read: spec_fn(Seq<char>, ChatResponseView) -> Seq<TokenView>,
) -> TokenizeOutcome {
    if known.contains_key(call.text) {
        TokenizeOutcome { tokens: Some(known[call.text]), asked: false }
    } else {
        TokenizeOutcome {
            tokens: match call.reply {
                Some(reply) => Some(read(call.text, reply)),
                None => None,
            },
            asked: true,
        }
    }
}

/// What is remembered after some calls, in their order, where nothing was
/// remembered before.
pub open spec fn known_after(
    calls: Seq<TokenizeCall>,
    read: spec_fn(Seq<char>, ChatResponseView) -> Seq<TokenView>,
) -> Map<Seq<char>, Seq<TokenView>>
    decreases calls.len(),
{
    if calls.len() == 0 {
        Map::empty()
    } else {
        let known = known_after(calls.drop_last(), read);
        learned(known, calls.last().text, outcome_of(known, calls.last(), read).tokens)
    }
}

/// What the call at position `i` does, after the calls before it.
pub open spec fn outcome_at(
    calls: Seq<TokenizeCall>,
    i: int,
    read: spec_fn(Seq<char>, ChatResponseView) -> Seq<TokenView>,
) -> TokenizeOutcome {
    outcome_of(known_after(calls.take(i), read), calls[i], read)
}

/// What one more call adds to what is remembered.
proof fn lemma_known_after_next(
    calls: Seq<TokenizeCall>,
    i: int,
    read: spec_fn(Seq<char>, ChatResponseView) -> Seq<TokenView>,
)
    requires
        0 <= i < calls.len(),
    ensures
        known_after(calls.take(i + 1), read) == learned(
            known_after(calls.take(i), read),
            calls[i].text,
            outcome_at(calls, i, read).tokens,
        ),
{
    assert(calls.take(i + 1).drop_last() =~= calls.take(i));
    assert(calls.take(i + 1).last() == calls[i]);
}

/// What was found for a text is remembered as it is.
pub(crate) proof fn lemma_stays_known(
    calls: Seq<TokenizeCall>,
    i: int,
    j: int,
    read: spec_fn(Seq<char>, ChatResponseView) -> Seq<TokenView>,
)
    requires
        0 <= i < j <= calls.len(),
        outcome_at(calls, i, read).tokens is Some,
    ensures
        known_after(calls.take(j), read).contains_key(calls[i].text),
        known_after(calls.take(j), read)[calls[i].text] == outcome_at(calls, i, read).tokens->0,
    decreases j,
{
    lemma_known_after_next(calls, j - 1, read);
    if i < j - 1 {
        lemma_stays_known(calls, i, j - 1, read);
    }
}

/// A call that failed changes nothing that is remembered, and a text for which
/// every call failed stays unknown.
pub(crate) proof fn lemma_failures_leave_unknown(
    calls: Seq<TokenizeCall>,
    text: Seq<char>,
    j: int,
    read: spec_fn(Seq<char>, ChatResponseView) -> Seq<TokenView>,
)
    requires
        0 <= j <= calls.len(),
        forall|i: int|
            0 <= i < j && (#[trigger] calls[i]).text == text ==> outcome_at(
                calls,
                i,
                read,
            ).tokens is None,
    ensures
        !known_after(calls.take(j), read).contains_key(text),
    decreases j,
{
    if j > 0 {
        lemma_known_after_next(calls, j - 1, read);
        lemma_failures_leave_unknown(calls, text, j - 1, read);
        assert(calls[j - 1].text == text ==> outcome_at(calls, j - 1, read).tokens is None);
    }
}

/// Nothing is remembered but what a reply showed.
pub(crate) proof fn lemma_known_was_read(
    calls: Seq<TokenizeCall>,
    text: Seq<char>,
    j: int,
    read: spec_fn(Seq<char>, ChatResponseView) -> Seq<TokenView>,
)
    requires
        0 <= j <= calls.len(),
        known_after(calls.take(j), read).contains_key(text),
    ensures
        exists|reply: ChatResponseView|
            known_after(calls.take(j), read)[text] == #[trigger] read(text, reply),
    decreases j,
{
    if j > 0 {
        let known = known_after(calls.take(j - 1), read);
        lemma_known_after_next(calls, j - 1, read);
        if known.contains_key(text) {
            lemma_known_was_read(calls, text, j - 1, read);
        } else {
            assert(calls[j - 1].text == text);
        }
    }
}

// ---------------------------------------------------------------------------
// Addresses and headers
// ---------------------------------------------------------------------------

/// A text without the slashes that it ends with.
pub open spec fn without_slashes(s: Seq<char>) -> Seq<char>
    decreases s.len(),
{
    if s.len() > 0 && s.last() == '/' {
        without_slashes(s.drop_last())
    } else {
        s
    }
}

/// Strip every trailing `/` from a base URL.
pub fn normalize_base_url(url: &str) -> (r: String)
    ensures
        r@ == without_slashes(url@),
{
    let chars = text::chars_of(url);
    let mut end: usize = chars.len();
    assert(url@.take(end as int) =~= url@);
    while end > 0 && chars[end - 1] == '/'
        invariant
            chars@ == url@,
            end <= chars@.len(),
            without_slashes(url@.take(end as int)) == without_slashes(url@),
        decreases end,
    {
        assert(url@.take(end as int).drop_last() =~= url@.take(end - 1));
        end = end - 1;
    }
    let r = text::text_between(chars.as_slice(), 0, end);
    assert(r@ =~= url@.take(end as int));
    r
}

/// A normalized URL does not end with a slash, and begins the URL that it was
/// made of; normalizing it again changes nothing.
pub proof fn law_normalized_url(url: Seq<char>)
    ensures
        without_slashes(url).len() > 0 ==> without_slashes(url).last() != '/',
        without_slashes(without_slashes(url)) == without_slashes(url),
        without_slashes(url).is_prefix_of(url),
    decreases url.len(),
{
    if url.len() > 0 && url.last() == '/' {
        law_normalized_url(url.drop_last());
        let s = without_slashes(url);
        assert(s =~= url.subrange(0, s.len() as int));
    } else {
        assert(url =~= url.subrange(0, url.len() as int));
    }
}

/// Nothing but slashes is stripped from a URL, and only at its end.
pub proof fn law_only_slashes_are_stripped(url: Seq<char>, i: int)
    requires
        without_slashes(url).len() <= i < url.len(),
    ensures
        url[i] == '/',
    decreases url.len(),
{
    if url.len() > 0 && url.last() == '/' && i < url.len() - 1 {
        law_only_slashes_are_stripped(url.drop_last(), i);
    }
}

/// The HTTP headers of a request to an OpenAI-compatible API, as pairs of name
/// and value.
pub fn build_headers(api_key: &str) -> (r: Vec<(String, String)>)
    ensures
        r@.len() == 2,
        r@[0].0@ == "content-type"@,
        r@[0].1@ == "application/json"@,
        r@[1].0@ == "authorization"@,
        r@[1].1@ == "Bearer "@ + api_key@,
{
    let mut token = "Bearer ".to_owned();
    token.append(api_key);
    let mut r: Vec<(String, String)> = Vec::new();
    r.push(("content-type".to_owned(), "application/json".to_owned()));
    r.push(("authorization".to_owned(), token));
    r
}

// ---------------------------------------------------------------------------
// Requests
// ---------------------------------------------------------------------------

/// A message as JSON.
pub open spec fn message_json(m: ChatMessageView) -> json::JsonView {
    json::JsonView::Object(
        map![
            "role"@ => json::JsonView::Text(m.role),
            "content"@ => json::JsonView::Text(m.content),
        ],
    )
}

/// A list of messages as JSON.
pub open spec fn messages_json(messages: Seq<ChatMessageView>) -> json::JsonView {
    json::JsonView::Array(messages.map_values(|m: ChatMessageView| message_json(m)))
}

/// The messages as a JSON array.
pub(crate) fn messages_value(messages: &[ChatMessage]) -> (r: Value)
    ensures
        json::json_of(r) == messages_json(message_views(messages@)),
{
    let mut items: Vec<Value> = Vec::new();
    let n: usize = messages.len();
    for i in 0..n
        invariant
            n == messages@.len(),
            items@.len() == i,
            forall|j: int|
                0 <= j < i ==> json::json_of(#[trigger] items@[j]) == message_json(messages@[j]@),
    {
        let mut item = empty_object();
        set_member(&mut item, "role", text_value(messages[i].role.clone()));
        set_member(&mut item, "content", text_value(messages[i].content.clone()));
        items.push(item);
    }
    assert(json::jsons_of(items@) =~= message_views(messages@).map_values(
        |m: ChatMessageView| message_json(m),
    ));
    array_value(items)
}

/// The members of a chat request, before what is added to every request. The
/// log probabilities are asked for or turned down in so many words; how many
/// candidates are wanted is said only where they are asked for.
pub open spec fn chat_members(
    model: Seq<char>,
    messages: Seq<ChatMessageView>,
    temperature: json::JsonView,
    logprobs: bool,
    top_logprobs: u32,
    max_tokens: u32,
) -> Map<Seq<char>, json::JsonView> {
    let asked = map![
        "model"@ => json::JsonView::Text(model),
        "messages"@ => messages_json(messages),
        "temperature"@ => temperature,
        "max_tokens"@ => json::count_json(max_tokens),
        "logprobs"@ => json::JsonView::Bool(logprobs),
    ];
    if logprobs {
        asked.insert("top_logprobs"@, json::count_json(top_logprobs))
    } else {
        asked
    }
}

/// Build the base JSON body for an OpenAI-compatible `/chat/completions` call.
/// The temperature is given as the JSON number to send. The extra members are
/// set last, over any other.
///
/// How output is constrained differs from server to server and is added by
/// [`Constraint::apply`](crate::backends::openai_compat::Constraint::apply).
pub fn build_chat_body(
    model: &str,
    messages: &[ChatMessage],
    temperature: Value,
    logprobs: bool,
    top_logprobs: u32,
    max_tokens: u32,
    extra_body: &LabelMap<Value>,
) -> (r: Value)
    ensures
        json::json_of(r) == json::JsonView::Object(
            chat_members(
                model@,
                message_views(messages@),
                json::json_of(temperature),
                logprobs,
                top_logprobs,
                max_tokens,
            ).union_prefer_right(json::extra_members(*extra_body)),
        ),
{
    let mut body = empty_object();
    set_member(&mut body, "model", text_value(model.to_owned()));
    set_member(&mut body, "messages", messages_value(messages));
    set_member(&mut body, "temperature", temperature);
    set_member(&mut body, "max_tokens", count_value(max_tokens));
    set_member(&mut body, "logprobs", bool_value(logprobs));
    if logprobs {
        set_member(&mut body, "top_logprobs", count_value(top_logprobs));
    }
    merge_extra(&mut body, extra_body);
    body
}

/// One message of a flat prompt.
pub open spec fn prompt_part(m: ChatMessageView) -> Seq<char> {
    "<|"@ + m.role + "|>\n"@ + m.content
}

/// The parts of a flat prompt: the messages, and the beginning of the answer.
pub open spec fn prompt_parts(messages: Seq<ChatMessageView>) -> Seq<Seq<char>> {
    messages.map_values(|m: ChatMessageView| prompt_part(m)).push("<|assistant|>\n"@)
}

/// Render chat messages into a flat prompt string for the `/completions`
/// scoring path:
///
/// ```text
/// <|system|>
/// {system content}
///
/// <|user|>
/// {user content}
///
/// <|assistant|>
/// ```
pub fn render_prompt(messages: &[ChatMessage]) -> (r: String)
    ensures
        r@ == text::join(prompt_parts(message_views(messages@)), "\n\n"@),
{
    let mut parts: Vec<String> = Vec::new();
    let n: usize = messages.len();
    for i in 0..n
        invariant
            n == messages@.len(),
            parts@.len() == i,
            forall|j: int| 0 <= j < i ==> (#[trigger] parts@[j])@ == prompt_part(messages@[j]@),
    {
        let mut part = "<|".to_owned();
        part.append(messages[i].role.as_str());
        part.append("|>\n");
        part.append(messages[i].content.as_str());
        parts.push(part);
    }
    parts.push("<|assistant|>\n".to_owned());
    assert(text::texts(parts@) =~= prompt_parts(message_views(messages@)));
    text::join_texts(parts.as_slice(), "\n\n")
}

// ---------------------------------------------------------------------------
// Replies
// ---------------------------------------------------------------------------

/// The first choice of a reply.
pub open spec fn choice_of(data: json::JsonView) -> Option<json::JsonView> {
    json::nth_of(json::member_of(data, "choices"@), 0)
}

/// The candidates that a list of `{token, logprob}` objects names, the last
/// one where a token is named twice. What is no such object names none.
pub open spec fn candidates_of(entries: Seq<json::JsonView>) -> Map<Seq<char>, Scalar>
    decreases entries.len(),
{
    if entries.len() == 0 {
        Map::empty()
    } else {
        let before = candidates_of(entries.drop_last());
        match (
            json::text_of(json::member_of(entries.last(), "token"@)),
            json::float_of(json::member_of(entries.last(), "logprob"@)),
        ) {
            (Some(token), Some(bits)) => before.insert(token, Scalar { bits }),
            _ => before,
        }
    }
}

/// The candidates of an array, where there is one.
pub open spec fn candidates_in(j: Option<json::JsonView>) -> Map<Seq<char>, Scalar> {
    match json::array_of(j) {
        Some(a) => candidates_of(a),
        None => Map::empty(),
    }
}

/// The log probability that a value is; zero where it is none.
pub open spec fn logprob_or_zero(j: Option<json::JsonView>) -> Scalar {
    match json::float_of(j) {
        Some(bits) => Scalar { bits },
        None => Scalar { bits: 0 },
    }
}

/// What a `{token, logprob, top_logprobs}` object says of a position. Such an
/// object does not report an id.
pub open spec fn position_of(j: json::JsonView) -> TokenLogprobView {
    TokenLogprobView {
        token: json::text_or_empty(json::member_of(j, "token"@)),
        token_id: -1,
        logprob: logprob_or_zero(json::member_of(j, "logprob"@)),
        top_logprobs: candidates_in(json::member_of(j, "top_logprobs"@)),
    }
}

/// The positions that a list of such objects describes.
pub open spec fn positions_of(items: Seq<json::JsonView>) -> Seq<TokenLogprobView> {
    items.map_values(|j: json::JsonView| position_of(j))
}

/// Reads a list of candidates into a map.
pub(crate) fn read_candidates(list: Option<&Value>) -> (r: LabelMap<Scalar>)
    ensures
        r@ == candidates_in(json::optional_json(list)),
{
    let mut r: LabelMap<Scalar> = LabelMap::new();
    if let Some(entries) = inner_array(list) {
        let n: usize = entries.len();
        let ghost all = json::jsons_of(entries@);
        assert(all.take(0) =~= Seq::<json::JsonView>::empty());
        for i in 0..n
            invariant
                n == entries@.len(),
                all == json::jsons_of(entries@),
                r@ == candidates_of(all.take(i as int)),
        {
            let entry = &entries[i];
            proof {
                assert(all.take(i + 1).drop_last() =~= all.take(i as int));
                assert(all[i as int] == json::json_of(*entry));
            }
            let token = match member(entry, "token") {
                Some(v) => as_text(v),
                None => None,
            };
            let bits = match member(entry, "logprob") {
                Some(v) => as_float_bits(v),
                None => None,
            };
            match (token, bits) {
                (Some(token), Some(bits)) => {
                    r.insert(token.to_owned(), Scalar { bits });
                },
                _ => {},
            }
        }
        assert(all.take(n as int) =~= all);
    }
    r
}

/// Reads one position.
pub(crate) fn read_position(v: &Value) -> (r: TokenLogprob)
    ensures
        r@ == position_of(json::json_of(*v)),
{
    TokenLogprob {
        token: inner_text(member(v, "token")),
        token_id: -1,
        logprob: Scalar { bits: inner_float(member(v, "logprob")) },
        top_logprobs: read_candidates(member(v, "top_logprobs")),
    }
}

/// Reads a list of positions.
pub(crate) fn read_positions(items: &[Value]) -> (r: Vec<TokenLogprob>)
    ensures
        logprob_views(r@) == positions_of(json::jsons_of(items@)),
{
    let mut r: Vec<TokenLogprob> = Vec::new();
    let n: usize = items.len();
    for i in 0..n
        invariant
            n == items@.len(),
            r@.len() == i,
            forall|j: int|
                0 <= j < i ==> (#[trigger] r@[j])@ == position_of(json::json_of(items@[j])),
    {
        r.push(read_position(&items[i]));
    }
    assert(logprob_views(r@) =~= positions_of(json::jsons_of(items@)));
    r
}

/// Parse an array of OpenAI-style token-logprob objects; what is no array
/// holds none.
pub fn parse_token_logprob_array(arr: &Value) -> (r: Vec<TokenLogprob>)
    ensures
        logprob_views(r@) == positions_of(json::elements_of(json::json_of(*arr))),
{
    match as_array(arr) {
        Some(items) => read_positions(items.as_slice()),
        None => {
            let r: Vec<TokenLogprob> = Vec::new();
            assert(logprob_views(r@) =~= positions_of(json::elements_of(json::json_of(*arr))));
            r
        },
    }
}

/// What a `/chat/completions` reply says: the content of the first choice, the
/// label in it, and the positions where it reports any.
pub open spec fn chat_reply(data: json::JsonView) -> ChatResponseView {
    let choice = choice_of(data);
    let content = json::text_or_empty(json::inner(json::inner(choice, "message"@), "content"@));
    ChatResponseView {
        content,
        label: text::trimmed(content),
        logprobs: match json::inner(json::inner(choice, "logprobs"@), "content"@) {
            Some(j) => Some(positions_of(json::elements_of(j))),
            None => None,
        },
        raw: data,
    }
}

/// Parse an OpenAI-compatible `/chat/completions` response. The candidates of
/// each position become a map from token to log probability.
pub fn parse_chat_response(data: &Value) -> (r: ChatResponse)
    ensures
        r@ == chat_reply(json::json_of(*data)),
{
    let choice = nth_element(member(data, "choices"), 0);
    let content = inner_text(inner_member(inner_member(choice, "message"), "content"));
    let logprobs = match inner_member(inner_member(choice, "logprobs"), "content") {
        Some(list) => Some(parse_token_logprob_array(list)),
        None => None,
    };
    let label = text::trim(content.as_str());
    ChatResponse { content, label, logprobs, raw: data.clone() }
}

// ---------------------------------------------------------------------------
// Laws of requests
// ---------------------------------------------------------------------------

/// Every message is sent, in its place, with its own role and content.
pub proof fn law_every_message_is_sent(messages: Seq<ChatMessageView>)
    ensures
        messages_json(messages) is Array,
        json::elements_of(messages_json(messages)).len() == messages.len(),
        forall|i: int|
            0 <= i < messages.len() ==> {
                let sent = #[trigger] json::elements_of(messages_json(messages))[i];
                &&& json::member_of(sent, "role"@) == Some(json::JsonView::Text(messages[i].role))
                &&& json::member_of(sent, "content"@) == Some(
                    json::JsonView::Text(messages[i].content),
                )
            },
{
    reveal_strlit("role");
    reveal_strlit("content");
    assert("role"@.len() != "content"@.len());
}

/// The views of messages are those of the messages, each in its place.
pub proof fn law_views_are_those_of_the_items(
    messages: Seq<ChatMessage>,
    tokens: Seq<Token>,
    positions: Seq<TokenLogprob>,
    i: int,
)
    ensures
        message_views(messages).len() == messages.len(),
        0 <= i < messages.len() ==> message_views(messages)[i].role == messages[i].role@
            && message_views(messages)[i].content == messages[i].content@,
        token_views(tokens).len() == tokens.len(),
        0 <= i < tokens.len() ==> token_views(tokens)[i].text == tokens[i].text@ && token_views(
            tokens,
        )[i].id == tokens[i].id,
        logprob_views(positions).len() == positions.len(),
        0 <= i < positions.len() ==> logprob_views(positions)[i].token == positions[i].token@
            && logprob_views(positions)[i].token_id == positions[i].token_id && logprob_views(
            positions,
        )[i].logprob == positions[i].logprob && logprob_views(positions)[i].top_logprobs
            == positions[i].top_logprobs@,
{
}

/// A chat request names the model, carries every message, the temperature and
/// the limit on tokens, and says whether log probabilities are wanted; how many
/// candidates are wanted is said exactly where they are. It has no other
/// member.
pub proof fn law_chat_request_says_all(
    model: Seq<char>,
    messages: Seq<ChatMessageView>,
    temperature: json::JsonView,
    logprobs: bool,
    top_logprobs: u32,
    max_tokens: u32,
    key: Seq<char>,
)
    ensures
        ({
            let sent = chat_members(
                model,
                messages,
                temperature,
                logprobs,
                top_logprobs,
                max_tokens,
            );
            &&& sent.contains_key("model"@) && sent["model"@] == json::JsonView::Text(model)
            &&& sent.contains_key("messages"@) && sent["messages"@] == messages_json(messages)
            &&& sent.contains_key("temperature"@) && sent["temperature"@] == temperature
            &&& sent.contains_key("max_tokens"@) && sent["max_tokens"@] == json::count_json(
                max_tokens,
            )
            &&& sent.contains_key("logprobs"@) && sent["logprobs"@] == json::JsonView::Bool(
                logprobs,
            )
            &&& sent.contains_key("top_logprobs"@) <==> logprobs
            &&& logprobs ==> sent["top_logprobs"@] == json::count_json(top_logprobs)
            &&& sent.contains_key(key) ==> key == "model"@ || key == "messages"@ || key
                == "temperature"@ || key == "max_tokens"@ || key == "logprobs"@ || key
                == "top_logprobs"@
        }),
{
    lemma_request_keys();
}

/// The names of the members of a request are distinct.
pub(crate) proof fn lemma_request_keys()
    ensures
        "model"@ != "messages"@,
        "model"@ != "temperature"@,
        "model"@ != "max_tokens"@,
        "model"@ != "logprobs"@,
        "model"@ != "top_logprobs"@,
        "messages"@ != "temperature"@,
        "messages"@ != "max_tokens"@,
        "messages"@ != "logprobs"@,
        "messages"@ != "top_logprobs"@,
        "temperature"@ != "max_tokens"@,
        "temperature"@ != "logprobs"@,
        "temperature"@ != "top_logprobs"@,
        "max_tokens"@ != "logprobs"@,
        "max_tokens"@ != "top_logprobs"@,
        "logprobs"@ != "top_logprobs"@,
{
    reveal_strlit("model");
    reveal_strlit("messages");
    reveal_strlit("temperature");
    reveal_strlit("max_tokens");
    reveal_strlit("logprobs");
    reveal_strlit("top_logprobs");
    assert("model"@.len() == 5 && "messages"@.len() == 8 && "temperature"@.len() == 11);
    assert("max_tokens"@.len() == 10 && "logprobs"@.len() == 8 && "top_logprobs"@.len() == 12);
    assert("messages"@[0] != "logprobs"@[0]);
}

/// A flat prompt has a part for each message, in order, which gives its role
/// and then its content, and ends with the beginning of the answer.
pub proof fn law_flat_prompt_holds_every_message(messages: Seq<ChatMessageView>, i: int)
    requires
        0 <= i < messages.len(),
    ensures
        prompt_parts(messages).len() == messages.len() + 1,
        prompt_parts(messages).last() == "<|assistant|>\n"@,
        prompt_parts(messages)[i] == "<|"@ + messages[i].role + "|>\n"@ + messages[i].content,
        text::occurs_in(
            prompt_parts(messages)[i],
            text::join(prompt_parts(messages), "\n\n"@),
        ),
        text::join(prompt_parts(messages), "\n\n"@) == text::join(
            prompt_parts(messages).drop_last(),
            "\n\n"@,
        ) + "\n\n"@ + "<|assistant|>\n"@,
{
    text::lemma_part_occurs(prompt_parts(messages), "\n\n"@, i);
}

// ---------------------------------------------------------------------------
// Laws of replies
// ---------------------------------------------------------------------------

/// Whether an entry gives `token` the log probability `logprob`.
pub open spec fn gives(entry: json::JsonView, token: Seq<char>, logprob: Scalar) -> bool {
    &&& json::member_of(entry, "token"@) == Some(json::JsonView::Text(token))
    &&& json::member_of(entry, "logprob"@) matches Some(json::JsonView::Number(n))
        && n.float_bits == logprob.bits
}

/// The candidates of a list are the tokens that its entries give a log
/// probability, each with that of the last entry that does.
pub proof fn law_candidates_are_those_given(
    entries: Seq<json::JsonView>,
    token: Seq<char>,
    logprob: Scalar,
)
    ensures
        candidates_of(entries).contains_key(token) <==> exists|i: int, x: Scalar|
            0 <= i < entries.len() && #[trigger] gives(entries[i], token, x),
        candidates_of(entries).contains_key(token) && candidates_of(entries)[token] == logprob
            <==> exists|i: int|
            0 <= i < entries.len() && #[trigger] gives(entries[i], token, logprob) && forall|
                k: int,
                x: Scalar,
            |
                i < k < entries.len() ==> !#[trigger] gives(entries[k], token, x),
    decreases entries.len(),
{
    if entries.len() > 0 {
        let rest = entries.drop_last();
        let last = entries.len() - 1;
        law_candidates_are_those_given(rest, token, logprob);
        let named = candidates_of(entries).contains_key(token);
        let before = candidates_of(rest);
        if exists|x: Scalar| gives(entries[last], token, x) {
            let x = choose|x: Scalar| gives(entries[last], token, x);
            assert(candidates_of(entries)[token] == x);
            assert(gives(entries[last], token, x));
            if x == logprob {
                assert(gives(entries[last], token, logprob));
            }
            assert forall|i: int|
                0 <= i < entries.len() && #[trigger] gives(entries[i], token, logprob)
                    && (forall|k: int, y: Scalar|
                    i < k < entries.len() ==> !#[trigger] gives(entries[k], token, y)) implies x
                == logprob by {
                if i < last {
                    assert(!gives(entries[last], token, x));
                }
            }
        } else {
            assert(candidates_of(entries).contains_key(token) == before.contains_key(token)
                && (named ==> candidates_of(entries)[token] == before[token])) by {
                match (
                    json::text_of(json::member_of(entries.last(), "token"@)),
                    json::float_of(json::member_of(entries.last(), "logprob"@)),
                ) {
                    (Some(t), Some(bits)) => {
                        if t == token {
                            assert(gives(entries[last], token, Scalar { bits }));
                        }
                    },
                    _ => {},
                }
            }
            assert forall|i: int, x: Scalar|
                0 <= i < entries.len() && #[trigger] gives(entries[i], token, x) implies i < last
                && gives(rest[i], token, x) by {}
            assert forall|i: int, x: Scalar|
                0 <= i < rest.len() && #[trigger] gives(rest[i], token, x) implies gives(
                entries[i],
                token,
                x,
            ) by {}
            if before.contains_key(token) && before[token] == logprob {
                let i = choose|i: int|
                    0 <= i < rest.len() && #[trigger] gives(rest[i], token, logprob) && forall|
                        k: int,
                        x: Scalar,
                    |
                        i < k < rest.len() ==> !#[trigger] gives(rest[k], token, x);
                assert(gives(entries[i], token, logprob));
                assert forall|k: int, x: Scalar| i < k < entries.len() implies !#[trigger] gives(
                    entries[k],
                    token,
                    x,
                ) by {
                    if k < last {
                        assert(!gives(rest[k], token, x));
                    }
                }
            }
            if exists|i: int|
                0 <= i < entries.len() && #[trigger] gives(entries[i], token, logprob) && forall|
                    k: int,
                    x: Scalar,
                |
                    i < k < entries.len() ==> !#[trigger] gives(entries[k], token, x) {
                let i = choose|i: int|
                    0 <= i < entries.len() && #[trigger] gives(entries[i], token, logprob)
                        && forall|k: int, x: Scalar|
                        i < k < entries.len() ==> !#[trigger] gives(entries[k], token, x);
                assert(gives(rest[i], token, logprob));
                assert forall|k: int, x: Scalar| i < k < rest.len() implies !#[trigger] gives(
                    rest[k],
                    token,
                    x,
                ) by {
                    assert(!gives(entries[k], token, x));
                }
            }
        }
    }
}

/// A list describes as many positions as it has entries, each by its own entry:
/// the token and log probability that the entry names, and the candidates in
/// it. A missing token is no text, a missing log probability is zero, and ids
/// are not known.
pub proof fn law_every_entry_is_a_position(items: Seq<json::JsonView>, i: int)
    requires
        0 <= i < items.len(),
    ensures
        positions_of(items).len() == items.len(),
        positions_of(items)[i].token_id == -1,
        json::member_of(items[i], "token"@) matches Some(json::JsonView::Text(s))
            ==> positions_of(items)[i].token == s,
        !(json::member_of(items[i], "token"@) matches Some(json::JsonView::Text(_)))
            ==> positions_of(items)[i].token.len() == 0,
        json::member_of(items[i], "logprob"@) matches Some(json::JsonView::Number(n))
            ==> positions_of(items)[i].logprob.bits == n.float_bits,
        !(json::member_of(items[i], "logprob"@) matches Some(json::JsonView::Number(_)))
            ==> positions_of(items)[i].logprob.bits == 0,
        json::member_of(items[i], "top_logprobs"@) matches Some(json::JsonView::Array(a))
            ==> positions_of(items)[i].top_logprobs == candidates_of(a),
        !(json::member_of(items[i], "top_logprobs"@) matches Some(json::JsonView::Array(_)))
            ==> positions_of(items)[i].top_logprobs == Map::<Seq<char>, Scalar>::empty(),
{
}

/// A chat reply is read off its first choice: the content of the message, the
/// content without the white space around it as the label, and a position for
/// each entry of its log probabilities.
pub proof fn law_chat_reply_is_the_first_choice(
    data: json::JsonView,
    choices: Seq<json::JsonView>,
    message: json::JsonView,
    logprobs: json::JsonView,
    content: Seq<char>,
    items: Seq<json::JsonView>,
)
    requires
        json::member_of(data, "choices"@) == Some(json::JsonView::Array(choices)),
        choices.len() > 0,
        json::member_of(choices[0], "message"@) == Some(message),
        json::member_of(message, "content"@) == Some(json::JsonView::Text(content)),
    ensures
        chat_reply(data).content == content,
        chat_reply(data).label == text::trimmed(content),
        chat_reply(data).raw == data,
        json::member_of(choices[0], "logprobs"@) == Some(logprobs) && json::member_of(
            logprobs,
            "content"@,
        ) == Some(json::JsonView::Array(items)) ==> chat_reply(data).logprobs == Some(
            positions_of(items),
        ),
        json::member_of(choices[0], "logprobs"@) is None ==> chat_reply(data).logprobs is None,
        json::member_of(choices[0], "logprobs"@) == Some(logprobs) && json::member_of(
            logprobs,
            "content"@,
        ) is None ==> chat_reply(data).logprobs is None,
{
}

/// A forced text has a token for each position emitted, in order, with the text
/// emitted there; where nothing was emitted it is one token itself. Ids are not
/// known.
pub proof fn law_forced_text_has_the_tokens_emitted(
    text: Seq<char>,
    emitted: Seq<TokenLogprobView>,
)
    ensures
        emitted.len() > 0 ==> forced_tokens(text, emitted).len() == emitted.len(),
        forall|i: int|
            0 <= i < emitted.len() ==> (#[trigger] forced_tokens(text, emitted)[i]).text
                == emitted[i].token && forced_tokens(text, emitted)[i].id == -1,
        emitted.len() == 0 ==> forced_tokens(text, emitted).len() == 1 && forced_tokens(
            text,
            emitted,
        )[0].text == text && forced_tokens(text, emitted)[0].id == -1,
{
}

/// Scoring succeeds exactly where there is a position, and then hands on the
/// completion, every position and the reply; else it fails for the reason
/// given.
pub proof fn law_scoring_needs_a_position(
    completion: Seq<char>,
    logprobs: Seq<TokenLogprobView>,
    raw: json::JsonView,
    failure: ScoreFailure,
)
    ensures
        scored_or(completion, logprobs, raw, failure) is Ok <==> logprobs.len() > 0,
        scored_or(completion, logprobs, raw, failure) matches Ok(s) ==> s.completion == completion
            && s.logprobs == logprobs && s.raw == raw,
        scored_or(completion, logprobs, raw, failure) matches Err(e) ==> e == failure,
{
}

/// The positions of a reply are those that it reports; none where it reports
/// none.
pub proof fn law_emitted_positions_are_those_reported(response: ChatResponseView)
    ensures
        response.logprobs matches Some(v) ==> emitted_of(response) == v,
        response.logprobs is None ==> emitted_of(response).len() == 0,
{
}

/// A reply without a choice says nothing; a choice whose message has no text for
/// its content has no content and no label. Log probabilities that are no list
/// are no positions.
pub proof fn law_incomplete_reply_says_nothing(
    data: json::JsonView,
    choices: Seq<json::JsonView>,
    logprobs: json::JsonView,
    other: json::JsonView,
)
    ensures
        json::array_of(json::member_of(data, "choices"@)) is None || json::member_of(
            data,
            "choices"@,
        ) == Some(json::JsonView::Array(Seq::empty())) ==> chat_reply(data).content.len() == 0
            && chat_reply(data).label.len() == 0 && chat_reply(data).logprobs is None,
        json::member_of(data, "choices"@) == Some(json::JsonView::Array(choices)) && choices.len()
            > 0 && json::text_of(
            json::inner(json::member_of(choices[0], "message"@), "content"@),
        ) is None ==> chat_reply(data).content.len() == 0 && chat_reply(data).label.len() == 0,
        json::member_of(data, "choices"@) == Some(json::JsonView::Array(choices)) && choices.len()
            > 0 && json::member_of(choices[0], "logprobs"@) == Some(logprobs) && json::member_of(
            logprobs,
            "content"@,
        ) == Some(other) && !(other is Array) ==> (chat_reply(data).logprobs matches Some(v)
            && v.len() == 0),
        chat_reply(data).raw == data,
{
    text::law_trimming_drops_white_space_only(Seq::empty());
}

} // verus!
