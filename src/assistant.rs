//! The roles of a conversation, the language models it can use, and the
//! messages exchanged with them.
use vstd::prelude::*;
use vstd::string::StringExecFns;

verus! {

#[derive(Clone, Copy, Debug, PartialEq, Eq, Structural)]
pub enum Role {
    User,
    Assistant,
    System,
}

/// The role after `r` in the cycle user, assistant, system.
pub open spec fn next_role(r: Role) -> Role {
    match r {
        Role::User => Role::Assistant,
        Role::Assistant => Role::System,
        Role::System => Role::User,
    }
}

pub open spec fn role_name(r: Role) -> Seq<char> {
    match r {
        Role::User => "User"@,
        Role::Assistant => "Assistant"@,
        Role::System => "System"@,
    }
}

impl Role {
    /// Moves to the next role in the cycle user, assistant, system.
    pub fn cycle(&mut self)
        ensures
            *final(self) == next_role(*old(self)),
    {
        *self = match self {
            Role::User => Role::Assistant,
            Role::Assistant => Role::System,
            Role::System => Role::User,
        }
    }

    /// The name of the role as shown to the user.
    pub fn to_string(&self) -> (r: String)
        ensures
            r@ == role_name(*self),
    {
        match self {
            Role::User => "User".to_owned(),
            Role::Assistant => "Assistant".to_owned(),
            Role::System => "System".to_owned(),
        }
    }
}

/// The models served through zed.dev.
#[derive(Clone, Debug, PartialEq)]
pub enum ZedDotDevModel {
    Gpt3Point5Turbo,
    Gpt4,
    Gpt4Turbo,
    Custom(String),
}

pub open spec fn zed_model_id(m: ZedDotDevModel) -> Seq<char> {
    match m {
        ZedDotDevModel::Gpt3Point5Turbo => "gpt-3.5-turbo"@,
        ZedDotDevModel::Gpt4 => "gpt-4"@,
        ZedDotDevModel::Gpt4Turbo => "gpt-4-turbo-preview"@,
        ZedDotDevModel::Custom(id) => id@,
    }
}

pub open spec fn zed_model_name(m: ZedDotDevModel) -> Seq<char> {
    match m {
        ZedDotDevModel::Gpt3Point5Turbo => "gpt-3.5-turbo"@,
        ZedDotDevModel::Gpt4 => "gpt-4"@,
        ZedDotDevModel::Gpt4Turbo => "gpt-4-turbo"@,
        ZedDotDevModel::Custom(id) => id@,
    }
}

/// The model after `m` in the cycle; a custom model goes back to the first.
pub open spec fn next_zed_model(m: ZedDotDevModel) -> ZedDotDevModel {
    match m {
        ZedDotDevModel::Gpt3Point5Turbo => ZedDotDevModel::Gpt4,
        ZedDotDevModel::Gpt4 => ZedDotDevModel::Gpt4Turbo,
        ZedDotDevModel::Gpt4Turbo => ZedDotDevModel::Gpt3Point5Turbo,
        ZedDotDevModel::Custom(_) => ZedDotDevModel::Gpt3Point5Turbo,
    }
}

impl ZedDotDevModel {
    pub fn id(&self) -> (r: &str)
        ensures
            r@ == zed_model_id(*self),
    {
        match self {
            ZedDotDevModel::Gpt3Point5Turbo => "gpt-3.5-turbo",
            ZedDotDevModel::Gpt4 => "gpt-4",
            ZedDotDevModel::Gpt4Turbo => "gpt-4-turbo-preview",
            ZedDotDevModel::Custom(id) => id.as_str(),
        }
    }

    pub fn display_name(&self) -> (r: &str)
        ensures
            r@ == zed_model_name(*self),
    {
        match self {
            ZedDotDevModel::Gpt3Point5Turbo => "gpt-3.5-turbo",
            ZedDotDevModel::Gpt4 => "gpt-4",
            ZedDotDevModel::Gpt4Turbo => "gpt-4-turbo",
            ZedDotDevModel::Custom(id) => id.as_str(),
        }
    }

    pub fn cycle(&self) -> (r: Self)
        ensures
            r == next_zed_model(*self),
    {
        match self {
            ZedDotDevModel::Gpt3Point5Turbo => ZedDotDevModel::Gpt4,
            ZedDotDevModel::Gpt4 => ZedDotDevModel::Gpt4Turbo,
            ZedDotDevModel::Gpt4Turbo => ZedDotDevModel::Gpt3Point5Turbo,
            ZedDotDevModel::Custom(_) => ZedDotDevModel::Gpt3Point5Turbo,
        }
    }
}

/// The models served by OpenAI directly.
#[derive(Clone, Copy, Debug, PartialEq, Eq, Structural)]
pub enum OpenAiModel {
    ThreePointFiveTurbo,
    Four,
    FourTurbo,
}

pub open spec fn openai_model_id(m: OpenAiModel) -> Seq<char> {
    match m {
        OpenAiModel::ThreePointFiveTurbo => "gpt-3.5-turbo-0613"@,
        OpenAiModel::Four => "gpt-4-0613"@,
        OpenAiModel::FourTurbo => "gpt-4-1106-preview"@,
    }
}

pub open spec fn openai_model_name(m: OpenAiModel) -> Seq<char> {
    match m {
        OpenAiModel::ThreePointFiveTurbo => "gpt-3.5-turbo"@,
        OpenAiModel::Four => "gpt-4"@,
        OpenAiModel::FourTurbo => "gpt-4-turbo"@,
    }
}

/// The context size of each OpenAI model, in tokens.
pub open spec fn openai_context_size(m: OpenAiModel) -> int {
    match m {
        OpenAiModel::ThreePointFiveTurbo => 16385,
        OpenAiModel::Four => 8192,
        OpenAiModel::FourTurbo => 128000,
    }
}

pub open spec fn next_openai_model(m: OpenAiModel) -> OpenAiModel {
    match m {
        OpenAiModel::ThreePointFiveTurbo => OpenAiModel::Four,
        OpenAiModel::Four => OpenAiModel::FourTurbo,
        OpenAiModel::FourTurbo => OpenAiModel::ThreePointFiveTurbo,
    }
}

impl OpenAiModel {
    pub fn id(&self) -> (r: &'static str)
        ensures
            r@ == openai_model_id(*self),
    {
        match self {
            OpenAiModel::ThreePointFiveTurbo => "gpt-3.5-turbo-0613",
            OpenAiModel::Four => "gpt-4-0613",
            OpenAiModel::FourTurbo => "gpt-4-1106-preview",
        }
    }

    pub fn display_name(&self) -> (r: &'static str)
        ensures
            r@ == openai_model_name(*self),
    {
        match self {
            OpenAiModel::ThreePointFiveTurbo => "gpt-3.5-turbo",
            OpenAiModel::Four => "gpt-4",
            OpenAiModel::FourTurbo => "gpt-4-turbo",
        }
    }

    pub fn cycle(&self) -> (r: Self)
        ensures
            r == next_openai_model(*self),
    {
        match self {
            OpenAiModel::ThreePointFiveTurbo => OpenAiModel::Four,
            OpenAiModel::Four => OpenAiModel::FourTurbo,
            OpenAiModel::FourTurbo => OpenAiModel::ThreePointFiveTurbo,
        }
    }
}

#[verifier::external_type_specification]
#[verifier::external_body]
pub struct ExChatCompletionRequestMessage(tiktoken_rs::ChatCompletionRequestMessage);

#[verifier::external_type_specification]
#[verifier::external_body]
pub struct ExAnyhowError(anyhow::Error);

/// The context size that tiktoken gives for a model id.
pub uninterp spec fn context_size_of(model: Seq<char>) -> int;

/// Relies on `tiktoken_rs::model::get_context_size`: the number of tokens that
/// fit in the context of the model with this id, a function of the id alone.
/// Its prefix rules give 8192 for `gpt-4-0613` (a `gpt-4` id), 128000 for
/// `gpt-4-1106-preview` and 16385 for `gpt-3.5-turbo-0613`.
#[verifier::external_body]
fn context_size(model: &str) -> (r: usize)
    ensures
        r == context_size_of(model@),
        model@ == "gpt-4-0613"@ ==> r == 8192,
        model@ == "gpt-4-1106-preview"@ ==> r == 128000,
        model@ == "gpt-3.5-turbo-0613"@ ==> r == 16385,
{
    tiktoken_rs::model::get_context_size(model)
}

/// Relies on `tiktoken_rs::num_tokens_from_messages`: the number of tokens
/// that the messages take for the model, or an error where tiktoken has no
/// chat tokenizer for it.
#[verifier::external_body]
fn tokens_in_messages(
    model: &str,
    messages: &[tiktoken_rs::ChatCompletionRequestMessage],
) -> Result<usize, anyhow::Error> {
    tiktoken_rs::num_tokens_from_messages(model, messages)
}

/// A language model and the service that provides it.
#[derive(Clone, Debug, PartialEq)]
pub enum LanguageModel {
    ZedDotDev(ZedDotDevModel),
    OpenAi(OpenAiModel),
}

impl Default for LanguageModel {
    fn default() -> (r: Self)
        ensures
            r == LanguageModel::ZedDotDev(ZedDotDevModel::Gpt4Turbo),
    {
        LanguageModel::ZedDotDev(ZedDotDevModel::Gpt4Turbo)
    }
}

impl LanguageModel {
    /// The identifier reported in telemetry: the provider, a slash, the model's id.
    pub fn telemetry_id(&self) -> (r: String)
        ensures
            r@ == match *self {
                LanguageModel::OpenAi(m) => "openai/"@ + openai_model_id(m),
                LanguageModel::ZedDotDev(m) => "zed.dev/"@ + zed_model_id(m),
            },
    {
        match self {
            LanguageModel::OpenAi(model) => "openai/".to_owned().concat(model.id()),
            LanguageModel::ZedDotDev(model) => "zed.dev/".to_owned().concat(model.id()),
        }
    }

    /// The name shown to the user: the provider, a slash, the model's name.
    pub fn display_name(&self) -> (r: String)
        ensures
            r@ == match *self {
                LanguageModel::OpenAi(m) => "openai/"@ + openai_model_name(m),
                LanguageModel::ZedDotDev(m) => "zed.dev/"@ + zed_model_name(m),
            },
    {
        match self {
            LanguageModel::OpenAi(model) => "openai/".to_owned().concat(model.display_name()),
            LanguageModel::ZedDotDev(model) => "zed.dev/".to_owned().concat(model.display_name()),
        }
    }

    /// How many tokens fit in the model's context: tiktoken's figure for an
    /// OpenAI model, a fixed budget for a zed.dev one.
    pub fn max_token_count(&self) -> (r: usize)
        ensures
            r == match *self {
                LanguageModel::OpenAi(m) => openai_context_size(m),
                LanguageModel::ZedDotDev(_) => 100,
            },
    {
        match self {
            LanguageModel::OpenAi(model) => context_size(model.id()),
            LanguageModel::ZedDotDev(_) => 100,
        }
    }

    /// How many tokens the messages take: counted by tiktoken for an OpenAI
    /// model, a fixed estimate for a zed.dev one.
    pub fn count_tokens(&self, messages: &[tiktoken_rs::ChatCompletionRequestMessage]) -> (r: Result<
        usize,
        anyhow::Error,
    >)
        ensures
            self is ZedDotDev ==> (r matches Ok(n) && n == 10),
    {
        match self {
            LanguageModel::OpenAi(model) => tokens_in_messages(model.id(), messages),
            LanguageModel::ZedDotDev(_) => Ok(10),
        }
    }

    /// The next model of the same provider.
    pub fn cycle(&self) -> (r: Self)
        ensures
            r == match *self {
                LanguageModel::OpenAi(m) => LanguageModel::OpenAi(next_openai_model(m)),
                LanguageModel::ZedDotDev(m) => LanguageModel::ZedDotDev(next_zed_model(m)),
            },
    {
        match self {
            LanguageModel::OpenAi(model) => LanguageModel::OpenAi(model.cycle()),
            LanguageModel::ZedDotDev(model) => LanguageModel::ZedDotDev(model.cycle()),
        }
    }
}

#[derive(Debug, PartialEq, Eq)]
pub struct LanguageModelRequestMessage {
    pub role: Role,
    pub content: String,
}

#[derive(Debug, PartialEq, Eq)]
pub struct LanguageModelResponseMessage {
    pub role: Option<Role>,
    pub content: Option<String>,
}

#[derive(Debug)]
pub struct LanguageModelUsage {
    pub prompt_tokens: u32,
    pub completion_tokens: u32,
    pub total_tokens: u32,
}

#[derive(Debug)]
pub struct LanguageModelChoiceDelta {
    pub index: u32,
    pub delta: LanguageModelResponseMessage,
    pub finish_reason: Option<String>,
}

} // verus!
