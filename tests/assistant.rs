use zed_markdown::assistant::{LanguageModel, OpenAiModel, Role, ZedDotDevModel};

#[test]
fn role_cycles_through_all_three() {
    let mut role = Role::User;
    role.cycle();
    assert_eq!(role, Role::Assistant);
    role.cycle();
    assert_eq!(role, Role::System);
    role.cycle();
    assert_eq!(role, Role::User);
}

#[test]
fn role_names() {
    assert_eq!(Role::User.to_string(), "User");
    assert_eq!(Role::Assistant.to_string(), "Assistant");
    assert_eq!(Role::System.to_string(), "System");
}

#[test]
fn telemetry_ids_name_the_provider() {
    assert_eq!(
        LanguageModel::OpenAi(OpenAiModel::Four).telemetry_id(),
        "openai/gpt-4-0613"
    );
    assert_eq!(
        LanguageModel::ZedDotDev(ZedDotDevModel::Gpt4Turbo).telemetry_id(),
        "zed.dev/gpt-4-turbo-preview"
    );
    assert_eq!(
        LanguageModel::ZedDotDev(ZedDotDevModel::Custom("mine".into())).telemetry_id(),
        "zed.dev/mine"
    );
}

#[test]
fn display_names_name_the_provider() {
    assert_eq!(
        LanguageModel::OpenAi(OpenAiModel::FourTurbo).display_name(),
        "openai/gpt-4-turbo"
    );
    assert_eq!(
        LanguageModel::ZedDotDev(ZedDotDevModel::Gpt3Point5Turbo).display_name(),
        "zed.dev/gpt-3.5-turbo"
    );
}

#[test]
fn model_cycle_stays_with_provider() {
    assert_eq!(
        LanguageModel::OpenAi(OpenAiModel::FourTurbo).cycle(),
        LanguageModel::OpenAi(OpenAiModel::ThreePointFiveTurbo)
    );
    assert_eq!(
        LanguageModel::ZedDotDev(ZedDotDevModel::Custom("x".into())).cycle(),
        LanguageModel::ZedDotDev(ZedDotDevModel::Gpt3Point5Turbo)
    );
    assert_eq!(
        LanguageModel::default(),
        LanguageModel::ZedDotDev(ZedDotDevModel::Gpt4Turbo)
    );
}

#[test]
fn context_sizes_come_from_tiktoken() {
    assert_eq!(LanguageModel::OpenAi(OpenAiModel::Four).max_token_count(), 8192);
    assert_eq!(
        LanguageModel::OpenAi(OpenAiModel::FourTurbo).max_token_count(),
        128_000
    );
    assert_eq!(
        LanguageModel::OpenAi(OpenAiModel::ThreePointFiveTurbo).max_token_count(),
        16_385
    );
    assert_eq!(
        LanguageModel::ZedDotDev(ZedDotDevModel::Gpt4).max_token_count(),
        100
    );
}

#[test]
fn token_counts() {
    let messages = vec![tiktoken_rs::ChatCompletionRequestMessage {
        role: "user".to_string(),
        content: Some("hello".to_string()),
        name: None,
        function_call: None,
    }];
    assert_eq!(
        LanguageModel::ZedDotDev(ZedDotDevModel::Gpt4)
            .count_tokens(&messages)
            .unwrap(),
        10
    );
    assert_eq!(
        LanguageModel::OpenAi(OpenAiModel::Four)
            .count_tokens(&messages)
            .unwrap(),
        8
    );
}
