//! Asking a language model for JSON: how it is configured, what is sent to it,
//! and what its answer comes to.

use crate::error::LlmError;
use crate::json;
use crate::json::{Json, JsonView};
use crate::loose;
use crate::text;
use vstd::prelude::*;
use vstd::string::*;
use vstd::utf8::*;

verus! {

/// How many bytes of the body of a refused request are quoted.
pub const QUOTED_BODY_BYTES: usize = 200;

/// A copy of an optional string.
fn copy_string(s: &Option<String>) -> (r: Option<String>)
    ensures
        text::string_view(r) == text::string_view(*s),
{
    match s {
        Some(s) => Some(s.clone()),
        None => None,
    }
}

/// How a model is reached and asked.
pub struct ModelView {
    pub url: Seq<char>,
    pub model: Seq<char>,
    pub api_key: Option<Seq<char>>,
    pub thinking_off: bool,
    pub max_tokens: u32,
    pub temperature: Option<u32>,
    pub timeout_secs: u64,
}

/// How a model behind an OpenAI-compatible chat endpoint is reached and asked.
/// A temperature is kept as the bits of a single-precision number.
#[derive(Debug)]
pub struct HttpChatModel {
    url: String,
    model: String,
    api_key: Option<String>,
    thinking_off: bool,
    max_tokens: u32,
    temperature: Option<u32>,
    timeout_secs: u64,
}

impl View for HttpChatModel {
    type V = ModelView;

    closed spec fn view(&self) -> ModelView {
        ModelView {
            url: self.url@,
            model: self.model@,
            api_key: text::string_view(self.api_key),
            thinking_off: self.thinking_off,
            max_tokens: self.max_tokens,
            temperature: self.temperature,
            timeout_secs: self.timeout_secs,
        }
    }
}

/// A message of a conversation.
#[derive(Debug)]
pub struct ChatMessage {
    pub role: String,
    pub content: String,
}

/// A message of a conversation.
pub struct MessageView {
    pub role: Seq<char>,
    pub content: Seq<char>,
}

impl View for ChatMessage {
    type V = MessageView;

    open spec fn view(&self) -> MessageView {
        MessageView { role: self.role@, content: self.content@ }
    }
}

/// A request to a model.
pub struct RequestView {
    pub url: Seq<char>,
    pub bearer: Option<Seq<char>>,
    pub model: Seq<char>,
    pub system: MessageView,
    pub user: MessageView,
    pub response_format: Seq<char>,
    pub temperature: Option<u32>,
    pub max_tokens: u32,
    pub thinking: Option<Seq<char>>,
    pub timeout_secs: u64,
}

/// A request to a model. What is `None` is not sent.
#[derive(Debug)]
pub struct ChatRequest {
    pub url: String,
    pub bearer: Option<String>,
    pub model: String,
    pub system: ChatMessage,
    pub user: ChatMessage,
    pub response_format: String,
    pub temperature: Option<u32>,
    pub max_tokens: u32,
    pub thinking: Option<String>,
    pub timeout_secs: u64,
}

impl View for ChatRequest {
    type V = RequestView;

    open spec fn view(&self) -> RequestView {
        RequestView {
            url: self.url@,
            bearer: text::string_view(self.bearer),
            model: self.model@,
            system: self.system@,
            user: self.user@,
            response_format: self.response_format@,
            temperature: self.temperature,
            max_tokens: self.max_tokens,
            thinking: text::string_view(self.thinking),
            timeout_secs: self.timeout_secs,
        }
    }
}

/// What is sent to a model that is asked for JSON.
pub open spec fn request_of(
    model: ModelView,
    system: Seq<char>,
    user: Seq<char>,
    max_tokens: u32,
) -> RequestView {
    RequestView {
        url: model.url,
        bearer: model.api_key,
        model: model.model,
        system: MessageView { role: "system"@, content: system },
        user: MessageView { role: "user"@, content: user },
        response_format: "json_object"@,
        temperature: model.temperature,
        max_tokens,
        thinking: if model.thinking_off {
            Some("disabled"@)
        } else {
            None
        },
        timeout_secs: model.timeout_secs,
    }
}

impl HttpChatModel {
    /// A model at an address, which is the whole one of the endpoint. It is asked
    /// with temperature 0, for at most 4096 tokens, and waited for 15 seconds.
    pub fn new(url: String, model: String, api_key: Option<String>, thinking_off: bool) -> (r:
        HttpChatModel)
        ensures
            r@ == (ModelView {
                url: url@,
                model: model@,
                api_key: text::string_view(api_key),
                thinking_off,
                max_tokens: 4096,
                temperature: Some(0),
                timeout_secs: 15,
            }),
    {
        HttpChatModel {
            url,
            model,
            api_key,
            thinking_off,
            max_tokens: 4096,
            temperature: Some(0),
            timeout_secs: 15,
        }
    }

    /// Sets the temperature; with `None`, none is sent.
    pub fn with_temperature(self, t: Option<u32>) -> (r: HttpChatModel)
        ensures
            r@ == (ModelView { temperature: t, ..self@ }),
    {
        HttpChatModel { temperature: t, ..self }
    }

    /// Sets whether the model is told not to reason.
    pub fn with_thinking_off(self, off: bool) -> (r: HttpChatModel)
        ensures
            r@ == (ModelView { thinking_off: off, ..self@ }),
    {
        HttpChatModel { thinking_off: off, ..self }
    }

    /// Sets how many tokens an answer may have.
    pub fn with_max_tokens(self, n: u32) -> (r: HttpChatModel)
        ensures
            r@ == (ModelView { max_tokens: n, ..self@ }),
    {
        HttpChatModel { max_tokens: n, ..self }
    }

    /// Sets how many seconds an answer is waited for.
    pub fn with_timeout(self, secs: u64) -> (r: HttpChatModel)
        ensures
            r@ == (ModelView { timeout_secs: secs, ..self@ }),
    {
        HttpChatModel { timeout_secs: secs, ..self }
    }

    /// What is sent to ask for JSON.
    pub fn chat_request(&self, system: &str, user: &str) -> (r: ChatRequest)
        ensures
            r@ == request_of(self@, system@, user@, self@.max_tokens),
    {
        self.chat_request_budget(system, user, self.max_tokens)
    }

    /// What is sent to ask for JSON of at most `max_tokens` tokens.
    pub fn chat_request_budget(&self, system: &str, user: &str, max_tokens: u32) -> (r: ChatRequest)
        ensures
            r@ == request_of(self@, system@, user@, max_tokens),
            r@ == request_of(ModelView { max_tokens, ..self@ }, system@, user@, max_tokens),
    {
        ChatRequest {
            url: self.url.clone(),
            bearer: copy_string(&self.api_key),
            model: self.model.clone(),
            system: ChatMessage { role: "system".to_owned(), content: system.to_owned() },
            user: ChatMessage { role: "user".to_owned(), content: user.to_owned() },
            response_format: "json_object".to_owned(),
            temperature: self.temperature,
            max_tokens,
            thinking: if self.thinking_off {
                Some("disabled".to_owned())
            } else {
                None
            },
            timeout_secs: self.timeout_secs,
        }
    }
}

/// Asking for a number of tokens changes that number and nothing else of what is
/// sent, and sends what a model that is set to that number would send.
pub proof fn law_a_budget_changes_only_itself(
    model: ModelView,
    system: Seq<char>,
    user: Seq<char>,
    max_tokens: u32,
)
    ensures
        request_of(model, system, user, max_tokens) == (RequestView {
            max_tokens,
            ..request_of(model, system, user, model.max_tokens)
        }),
        request_of(model, system, user, max_tokens) == request_of(
            ModelView { max_tokens, ..model },
            system,
            user,
            max_tokens,
        ),
{
}

/// Whether a status code of HTTP says that the request was granted.
pub fn succeeded(status: u16) -> (r: bool)
    ensures
        r == (200 <= status <= 299),
{
    200 <= status && status <= 299
}

/// What came of sending a request to a model.
pub enum ReplyView {
    SendFailed(Seq<char>),
    Refused(Seq<char>, Seq<char>),
    Unreadable(Seq<char>),
    Choices(Seq<Seq<char>>),
}

/// What came of sending a request to a model.
#[derive(Debug)]
pub enum ChatReply {
    /// The request could not be sent, for a reason.
    SendFailed(String),
    /// The answer was not a success: its status and its body.
    Refused(String, String),
    /// The answer could not be read, for a reason.
    Unreadable(String),
    /// What the model said, once for each choice.
    Choices(Vec<String>),
}

impl View for ChatReply {
    type V = ReplyView;

    open spec fn view(&self) -> ReplyView {
        match self {
            ChatReply::SendFailed(e) => ReplyView::SendFailed(e@),
            ChatReply::Refused(status, body) => ReplyView::Refused(status@, body@),
            ChatReply::Unreadable(e) => ReplyView::Unreadable(e@),
            ChatReply::Choices(choices) => ReplyView::Choices(
                choices@.map_values(|s: String| s@),
            ),
        }
    }
}

/// What a reply comes to: JSON, or an error. There is neither if a text that the
/// error should quote cannot be cut without breaking a character.
pub open spec fn reply_outcome(reply: ReplyView) -> Option<Result<JsonView, Seq<char>>> {
    match reply {
        ReplyView::SendFailed(e) => Some(Err(e)),
        ReplyView::Refused(status, body) => if text::has_head(body, QUOTED_BODY_BYTES as nat) {
            Some(
                Err(
                    "HTTP "@ + status + ": "@ + text::head_text(body, QUOTED_BODY_BYTES as nat),
                ),
            )
        } else {
            None
        },
        ReplyView::Unreadable(e) => Some(Err(e)),
        ReplyView::Choices(choices) => if choices.len() == 0 {
            Some(Err("空 choices"@))
        } else {
            match loose::recovered(choices[0]) {
                Some(v) => Some(Ok(v)),
                None => if loose::quotable(choices[0]) {
                    Some(Err(loose::no_json_report(choices[0])))
                } else {
                    None
                },
            }
        },
    }
}

/// What a reply comes to. Of several choices the first one counts.
pub fn finish_chat(reply: &ChatReply) -> (r: Option<Result<Json, LlmError>>)
    ensures
        match reply_outcome(reply@) {
            None => r is None,
            Some(Ok(v)) => r is Some && r->0 is Ok && r->0->Ok_0@ == v,
            Some(Err(e)) => r is Some && r->0 is Err && r->0->Err_0.0@ == e,
        },
{
    match reply {
        ChatReply::SendFailed(e) => Some(Err(LlmError(e.clone()))),
        ChatReply::Refused(status, body) => {
            if !text::can_take_head(body.as_str(), QUOTED_BODY_BYTES) {
                return None;
            }
            let mut message = "HTTP ".to_owned();
            message.append(status.as_str());
            message.append(": ");
            message.append(text::head(body.as_str(), QUOTED_BODY_BYTES));
            Some(Err(LlmError(message)))
        },
        ChatReply::Unreadable(e) => Some(Err(LlmError(e.clone()))),
        ChatReply::Choices(choices) => {
            if choices.len() == 0 {
                Some(Err(LlmError("空 choices".to_owned())))
            } else {
                loose::parse_json_loose_checked(choices[0].as_str())
            }
        },
    }
}

/// A model that answers a request while its caller waits.
pub trait ChatModel {
    /// Asks for JSON.
    fn chat_json(&self, system: &str, user: &str) -> (r: Result<Json, LlmError>);

    /// Asks for JSON of at most `max_tokens` tokens. A model that knows no such limit
    /// is asked as it is without one.
    fn chat_json_budget(&self, system: &str, user: &str, max_tokens: u32) -> (r: Result<
        Json,
        LlmError,
    >)
        default_ensures
            call_ensures(Self::chat_json, (self, system, user), r),
    {
        self.chat_json(system, user)
    }
}

/// A model that gives the same answer to every request.
#[derive(Debug)]
pub struct StubChatModel {
    canned: Json,
}

impl View for StubChatModel {
    type V = JsonView;

    closed spec fn view(&self) -> JsonView {
        self.canned@
    }
}

impl StubChatModel {
    /// A model that gives an answer to every request.
    pub fn new(canned: Json) -> (r: StubChatModel)
        ensures
            r@ == canned@,
    {
        StubChatModel { canned }
    }
}

impl ChatModel for StubChatModel {
    /// The answer, whatever is asked.
    fn chat_json(&self, _system: &str, _user: &str) -> (r: Result<Json, LlmError>)
        ensures
            r is Ok,
            r->Ok_0@ == self@,
    {
        Ok(self.canned.clone())
    }
}

/// What a request says is what the model was set to and what was asked: each of
/// its parts, and nothing besides.
pub proof fn law_a_request_says_what_was_set_and_asked(
    model: ModelView,
    system: Seq<char>,
    user: Seq<char>,
    max_tokens: u32,
)
    ensures
        ({
            let r = request_of(model, system, user, max_tokens);
            &&& r.url == model.url
            &&& r.model == model.model
            &&& r.bearer == model.api_key
            &&& r.system.role == "system"@ && r.system.content == system
            &&& r.user.role == "user"@ && r.user.content == user
            &&& r.response_format == "json_object"@
            &&& r.temperature == model.temperature
            &&& r.max_tokens == max_tokens
            &&& r.thinking is Some <==> model.thinking_off
            &&& r.thinking is Some ==> r.thinking->0 == "disabled"@
            &&& r.timeout_secs == model.timeout_secs
        }),
{
}

/// A reply whose first choice holds JSON comes to that JSON, and the other
/// choices do not count.
pub proof fn law_the_json_of_the_first_choice_is_the_answer(choices: Seq<Seq<char>>)
    requires
        choices.len() > 0,
    ensures
        loose::recovered(choices[0]) is Some ==> reply_outcome(ReplyView::Choices(choices)) == Some(
            Ok::<JsonView, Seq<char>>(loose::recovered(choices[0])->0),
        ),
        loose::recovered(choices[0]) is None && loose::quotable(choices[0]) ==> reply_outcome(
            ReplyView::Choices(choices),
        ) == Some(Err::<JsonView, Seq<char>>(loose::no_json_report(choices[0]))),
        reply_outcome(ReplyView::Choices(choices)) == reply_outcome(
            ReplyView::Choices(seq![choices[0]]),
        ),
{
}

/// A reply that is JSON, apart from white space around it, comes to that JSON.
pub proof fn law_a_reply_of_json_is_the_answer(choices: Seq<Seq<char>>)
    requires
        choices.len() > 0,
        json::json_of_text(text::trimmed(choices[0])) is Ok,
    ensures
        reply_outcome(ReplyView::Choices(choices)) == Some(
            Ok::<JsonView, Seq<char>>(json::json_of_text(text::trimmed(choices[0]))->Ok_0),
        ),
{
    loose::law_json_is_taken_as_it_is(choices[0]);
}

/// An object in a reply is the answer also if other text stands around it, such as
/// the fence of a code block, that has no opening brace before and no closing
/// brace behind the object.
pub proof fn law_an_object_within_other_text_is_the_answer(
    before: Seq<char>,
    object: Seq<char>,
    after: Seq<char>,
    others: Seq<Seq<char>>,
)
    requires
        object.len() > 1,
        object[0] == '{',
        object.last() == '}',
        json::json_of_text(object) is Ok,
        !before.contains('{'),
        !after.contains('}'),
        json::json_of_text(text::trimmed(before + object + after)) is Err,
    ensures
        reply_outcome(ReplyView::Choices(seq![before + object + after] + others)) == Some(
            Ok::<JsonView, Seq<char>>(json::json_of_text(object)->Ok_0),
        ),
{
    loose::law_an_object_is_found_within_other_text(before, object, after);
    let choices = seq![before + object + after] + others;
    assert(choices[0] == before + object + after);
}

/// A reply that breaks off within its array comes to an object with the values of
/// all the elements that are complete.
pub proof fn law_a_cut_off_reply_gives_its_complete_elements(
    choices: Seq<Seq<char>>,
    before: Seq<char>,
    lead: Seq<char>,
    name: Seq<char>,
    colon: Seq<char>,
    elements: Seq<loose::Element>,
    gap: Seq<char>,
    cut: Seq<char>,
)
    requires
        choices.len() > 0,
        text::trimmed(choices[0]) == loose::opening(before, lead, name, colon) + loose::written(
            elements,
        ) + gap + cut,
        loose::clear_opening(before, lead, name, colon),
        name.len() > 0,
        elements.len() > 0,
        forall|k: int| 0 <= k < elements.len() ==> loose::complete(#[trigger] elements[k]),
        loose::plain(gap),
        loose::broken_off(cut),
        json::json_of_text(text::trimmed(choices[0])) is Err,
        forall|b: int|
            #![trigger text::trimmed(choices[0])[b]]
            before.len() < b < text::trimmed(choices[0]).len() && text::trimmed(choices[0])[b]
                == '}' && !text::trimmed(choices[0]).skip(b + 1).contains('}')
                ==> json::json_of_text(
                text::trimmed(choices[0]).subrange(before.len() as int, b + 1),
            ) is Err,
    ensures
        reply_outcome(ReplyView::Choices(choices)) == Some(
            Ok::<JsonView, Seq<char>>(
                JsonView::Object(
                    Map::empty().insert(name, JsonView::Array(loose::values_of(elements))),
                ),
            ),
        ),
{
    loose::law_a_cut_off_reply_keeps_its_complete_elements(
        choices[0],
        before,
        lead,
        name,
        colon,
        elements,
        gap,
        cut,
    );
}

/// Prose without an opening brace is an error that quotes both ends of it, if it
/// can be quoted.
pub proof fn law_prose_is_an_error(choices: Seq<Seq<char>>)
    requires
        choices.len() > 0,
        !text::trimmed(choices[0]).contains('{'),
        json::json_of_text(text::trimmed(choices[0])) is Err,
        loose::quotable(choices[0]),
    ensures
        reply_outcome(ReplyView::Choices(choices)) == Some(
            Err::<JsonView, Seq<char>>(loose::no_json_report(choices[0])),
        ),
{
    loose::law_prose_is_not_taken_for_json(choices[0]);
}

/// A request that could not be sent and an answer that could not be read give
/// their reasons, and an answer without choices says so.
pub proof fn law_failures_give_their_reasons(reason: Seq<char>)
    ensures
        reply_outcome(ReplyView::SendFailed(reason)) == Some(Err::<JsonView, Seq<char>>(reason)),
        reply_outcome(ReplyView::Unreadable(reason)) == Some(Err::<JsonView, Seq<char>>(reason)),
        reply_outcome(ReplyView::Choices(Seq::empty())) == Some(
            Err::<JsonView, Seq<char>>("空 choices"@),
        ),
{
}

/// The error for a refused request gives the status and the start of the body: all
/// of it if it has at most 200 bytes, else 200 bytes.
pub proof fn law_a_refusal_quotes_status_and_body(status: Seq<char>, body: Seq<char>)
    ensures
        encode_utf8(body).len() <= 200 ==> reply_outcome(ReplyView::Refused(status, body)) == Some(
            Err::<JsonView, Seq<char>>("HTTP "@ + status + ": "@ + body),
        ),
        is_ascii_chars(body) ==> reply_outcome(ReplyView::Refused(status, body)) is Some,
        reply_outcome(ReplyView::Refused(status, body)) is Some && encode_utf8(body).len() > 200
            ==> exists|start: Seq<char>|
            #[trigger] start.is_prefix_of(body) && encode_utf8(start).len() == 200
                && reply_outcome(ReplyView::Refused(status, body)) == Some(
                Err::<JsonView, Seq<char>>("HTTP "@ + status + ": "@ + start),
            ),
{
    text::law_short_and_plain_texts_can_be_cut(body, QUOTED_BODY_BYTES as nat);
    if text::has_head(body, QUOTED_BODY_BYTES as nat) {
        text::law_a_head_is_a_short_start(body, QUOTED_BODY_BYTES as nat);
        assert(text::head_text(body, QUOTED_BODY_BYTES as nat).is_prefix_of(body));
    }
}

/// What is seen of a reply is what it holds.
pub proof fn law_a_reply_is_what_it_holds(
    reason: String,
    status: String,
    body: String,
    choices: Vec<String>,
    k: int,
)
    ensures
        ChatReply::SendFailed(reason)@ == ReplyView::SendFailed(reason@),
        ChatReply::Unreadable(reason)@ == ReplyView::Unreadable(reason@),
        ChatReply::Refused(status, body)@ == ReplyView::Refused(status@, body@),
        ChatReply::Choices(choices)@ is Choices,
        (ChatReply::Choices(choices)@->Choices_0).len() == choices@.len(),
        0 <= k < choices@.len() ==> (ChatReply::Choices(choices)@->Choices_0)[k] == choices@[k]@,
{
}

/// What is seen of a request is what it holds.
pub proof fn law_a_request_is_what_it_holds(r: ChatRequest)
    ensures
        r@.url == r.url@,
        r@.model == r.model@,
        r@.bearer == text::string_view(r.bearer),
        r@.system.role == r.system.role@ && r@.system.content == r.system.content@,
        r@.user.role == r.user.role@ && r@.user.content == r.user.content@,
        r@.response_format == r.response_format@,
        r@.temperature == r.temperature,
        r@.max_tokens == r.max_tokens,
        r@.thinking == text::string_view(r.thinking),
        r@.timeout_secs == r.timeout_secs,
{
}

/// A body of more than 200 bytes of which a start has 200 bytes is quoted with
/// that start.
pub proof fn law_a_long_body_is_quoted_with_its_start(
    status: Seq<char>,
    body: Seq<char>,
    start: Seq<char>,
)
    requires
        encode_utf8(body).len() > 200,
        start.is_prefix_of(body),
        encode_utf8(start).len() == 200,
    ensures
        reply_outcome(ReplyView::Refused(status, body)) == Some(
            Err::<JsonView, Seq<char>>("HTTP "@ + status + ": "@ + start),
        ),
{
    text::law_a_text_is_cut_where_characters_meet(body, 200, start);
}

} // verus!
