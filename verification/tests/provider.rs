use kiro_bridge::provider::{
    choose_path, environment_overrides, interpret_output, single_turn_prompt, KiroProvider,
    ProviderConfig, ProviderError,
};

fn config() -> ProviderConfig {
    ProviderConfig {
        kiro_path: None,
        environment_path: None,
        discovered_path: None,
        agent: None,
        model: None,
    }
}

#[test]
fn path_is_chosen_in_order() {
    assert_eq!(choose_path(Some("/a"), Some("/b"), Some("/c")), "/a");
    assert_eq!(choose_path(None, Some("/b"), Some("/c")), "/b");
    assert_eq!(choose_path(None, None, Some("/c")), "/c");
    assert_eq!(choose_path(None, None, None), "kiro-cli");
    assert_eq!(choose_path(Some(""), Some("/b"), None), "");
}

#[test]
fn new_provider_has_no_agent() {
    let provider = KiroProvider::new(None, None);
    assert_eq!(provider.program(), "kiro-cli");
    assert_eq!(provider.command_args(), vec!["chat", "--no-interactive"]);
    let provider = KiroProvider::new(Some("/opt/kiro"), Some("fast"));
    assert_eq!(provider.program(), "/opt/kiro");
    assert_eq!(provider.command_args(), vec!["chat", "--no-interactive", "--model", "fast"]);
}

#[test]
fn provider_from_config_takes_what_was_looked_up() {
    let provider = KiroProvider::from_config(&ProviderConfig {
        environment_path: Some("/env/kiro".to_string()),
        discovered_path: Some("/usr/bin/kiro-cli".to_string()),
        agent: Some("coder".to_string()),
        model: Some("large".to_string()),
        ..config()
    });
    assert_eq!(provider.program(), "/env/kiro");
    assert_eq!(
        provider.command_args(),
        vec!["chat", "--no-interactive", "--agent", "coder", "--model", "large"]
    );
    let provider = KiroProvider::from_config(&ProviderConfig {
        discovered_path: Some("/usr/bin/kiro-cli".to_string()),
        agent: Some("coder".to_string()),
        ..config()
    });
    assert_eq!(provider.program(), "/usr/bin/kiro-cli");
    assert_eq!(provider.command_args(), vec!["chat", "--no-interactive", "--agent", "coder"]);
    assert_eq!(KiroProvider::from_config(&config()).program(), "kiro-cli");
}

#[test]
fn environment_forces_plain_output() {
    let vars = environment_overrides();
    assert_eq!(
        vars,
        vec![("NO_COLOR".to_string(), "1".to_string()), ("TERM".to_string(), "dumb".to_string())]
    );
}

#[test]
fn invocation_holds_program_arguments_and_environment() {
    let provider = KiroProvider::from_config(&ProviderConfig {
        kiro_path: Some("/opt/kiro".to_string()),
        agent: Some("coder".to_string()),
        ..config()
    });
    let inv = provider.invocation();
    assert_eq!(inv.program, "/opt/kiro");
    assert_eq!(inv.args, vec!["chat", "--no-interactive", "--agent", "coder"]);
    assert_eq!(inv.env, environment_overrides());
}

#[test]
fn single_turn_prompt_names_the_speakers() {
    assert_eq!(single_turn_prompt(None, "hello"), "User: hello");
    assert_eq!(single_turn_prompt(Some("be brief"), "hello"), "System: be brief\n\nUser: hello");
    assert_eq!(single_turn_prompt(Some(""), ""), "System: \n\nUser: ");
}

#[test]
fn capabilities_are_fixed() {
    let provider = KiroProvider::new(None, None);
    assert!(!provider.supports_native_tools());
    assert!(provider.supports_vision());
    assert!(provider.supports_raw_image_markers());
}

#[test]
fn failed_run_carries_status_and_error_output() {
    let r = interpret_output(false, "exit status: 1", "partial context window has overflowed", "boom");
    match r {
        Err(ProviderError::NonZeroExit { status, stderr }) => {
            assert_eq!(status, "exit status: 1");
            assert_eq!(stderr, "boom");
        }
        other => panic!("unexpected: {other:?}"),
    }
    let e = interpret_output(false, "exit status: 1", "", "boom").unwrap_err();
    assert_eq!(e.message(), "kiro-cli exited with status: exit status: 1 stderr: boom");
}

#[test]
fn overflow_in_successful_output_is_an_error() {
    for out in [
        "context window has overflowed",
        "\u{1b}[31m> Error: Context Window has Overflowed\u{1b}[0m\n",
        "The CONTEXT WINDOW HAS OVERFLOWED.",
    ] {
        let r = interpret_output(true, "exit status: 0", out, "");
        assert!(matches!(r, Err(ProviderError::BackendOverflow)));
        assert_eq!(r.unwrap_err().message(), "kiro-cli: context window has overflowed");
    }
}

#[test]
fn successful_output_is_cleaned() {
    let r = interpret_output(
        true,
        "exit status: 0",
        "\u{1b}[32m> Done\u{1b}[0m: ![shot](file:///tmp/s.png)\n",
        "warning on stderr",
    );
    assert_eq!(r.unwrap(), "Done: [IMAGE:/tmp/s.png]");
    assert_eq!(interpret_output(true, "", "", "").unwrap(), "");
}

#[test]
fn spawn_failure_has_a_message() {
    let e = ProviderError::SpawnFailure { reason: "No such file or directory".to_string() };
    assert_eq!(e.message(), "Failed to spawn kiro-cli: No such file or directory");
}
