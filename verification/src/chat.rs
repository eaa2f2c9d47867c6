//! Questions to the local model server and its answers.

use vstd::prelude::*;
use crate::double;
use crate::double::Double;
use crate::runtime;

verus! {

/// A message of a conversation.
#[derive(Clone, Debug)]
pub struct ChatMessage {
    pub role: String,
    pub content: String,
}

/// A conversation to be continued.
#[derive(Clone, Debug)]
pub struct ChatRequest {
    pub messages: Vec<ChatMessage>,
    pub temperature: Option<Double>,
    pub max_tokens: Option<u32>,
}

/// The continuation of a conversation.
#[derive(Clone, Debug)]
pub struct ChatResponse {
    pub content: String,
    pub prompt_tokens: Option<u64>,
    pub completion_tokens: Option<u64>,
}

/// What is sent to the server.
#[derive(Clone, Debug)]
pub struct ChatPayload {
    pub messages: Vec<ChatMessage>,
    pub temperature: Double,
    pub max_tokens: u32,
    pub stream: bool,
}

/// What the server answers.
#[derive(Clone, Debug)]
pub struct LlamaChatResponse {
    pub choices: Vec<LlamaChoice>,
    pub usage: Option<LlamaUsage>,
}

/// One answer among those that the server offers.
#[derive(Clone, Debug)]
pub struct LlamaChoice {
    pub message: LlamaMessage,
}

/// The text of an answer.
#[derive(Clone, Debug)]
pub struct LlamaMessage {
    pub content: String,
}

/// How many tokens went in and came out.
#[derive(Clone, Copy, Debug)]
pub struct LlamaUsage {
    pub prompt_tokens: Option<u64>,
    pub completion_tokens: Option<u64>,
}

/// What came of a question to the server.
#[derive(Clone, Debug)]
pub enum ChatReply {
    /// The server could not be reached, for the given reason.
    Unreachable(String),
    /// The server refused with the given status and body.
    Refused { status: String, body: String },
    /// The answer could not be read, for the given reason.
    Unreadable(String),
    /// The server answered.
    Answered(LlamaChatResponse),
}

/// Where the server is asked.
pub fn completions_url() -> (r: String)
    ensures
        r@ == runtime::endpoint() + "/v1/chat/completions"@,
{
    runtime::local_endpoint().concat("/v1/chat/completions")
}

/// What is sent to the server: the conversation, and defaults for what is not given.
pub fn chat_payload(request: ChatRequest) -> (payload: ChatPayload)
    ensures
        payload.messages == request.messages,
        payload.temperature == match request.temperature {
            Some(t) => t,
            None => double::nearest(7, 10),
        },
        payload.max_tokens == match request.max_tokens {
            Some(n) => n,
            None => 768,
        },
        !payload.stream,
{
    ChatPayload {
        messages: request.messages,
        temperature: match request.temperature {
            Some(t) => t,
            None => Double::ratio(7, 10),
        },
        max_tokens: match request.max_tokens {
            Some(n) => n,
            None => 768,
        },
        stream: false,
    }
}

/// What a failed question is told as; `None` where there is an answer.
pub open spec fn chat_failure(reply: ChatReply) -> Option<Seq<char>> {
    match reply {
        ChatReply::Unreachable(error) => Some("The local model could not answer: "@ + error@),
        ChatReply::Refused { status, body } => Some(
            "The local model returned "@ + status@ + ": "@ + body@,
        ),
        ChatReply::Unreadable(error) => Some("The local response could not be read: "@ + error@),
        ChatReply::Answered(response) => if response.choices.len() == 0 {
            Some("The local model returned no answer."@)
        } else {
            None
        },
    }
}

/// Whether a response carries the first answer of the server and its token counts.
pub open spec fn carries(r: ChatResponse, response: LlamaChatResponse) -> bool {
    &&& r.content@ == response.choices@[0].message.content@
    &&& match response.usage {
        Some(usage) => r.prompt_tokens == usage.prompt_tokens && r.completion_tokens
            == usage.completion_tokens,
        None => r.prompt_tokens is None && r.completion_tokens is None,
    }
}

/// What comes of a question, by what the server replied.
pub fn chat(reply: ChatReply) -> (r: Result<ChatResponse, String>)
    ensures
        match chat_failure(reply) {
            Some(message) => r is Err && r->Err_0@ == message,
            None => r is Ok && carries(r->Ok_0, reply->Answered_0),
        },
{
    match reply {
        ChatReply::Unreachable(error) => Err(
            "The local model could not answer: ".to_owned().concat(error.as_str()),
        ),
        ChatReply::Refused { status, body } => Err(
            "The local model returned ".to_owned().concat(status.as_str()).concat(": ").concat(
                body.as_str(),
            ),
        ),
        ChatReply::Unreadable(error) => Err(
            "The local response could not be read: ".to_owned().concat(error.as_str()),
        ),
        ChatReply::Answered(response) => {
            if response.choices.len() == 0 {
                return Err("The local model returned no answer.".to_owned());
            }
            let (prompt_tokens, completion_tokens) = match response.usage {
                Some(usage) => (usage.prompt_tokens, usage.completion_tokens),
                None => (None, None),
            };
            Ok(
                ChatResponse {
                    content: response.choices[0].message.content.clone(),
                    prompt_tokens,
                    completion_tokens,
                },
            )
        },
    }
}

} // verus!
