use majestical_services::describer_config::{
    carried_key, clear_file_key, has_key, key_check, key_source, plan_key_write, show, wants_keychain,
    DescriberBackend, DescriberConfig, FileKey, KeyCheck, KeyPresence, KeySource, KeyVerdict, SetArgs,
};
use majestical_services::notices::Notices;

/// Each backend's default base URL, as the describer client defines it.
fn default_url(backend: DescriberBackend) -> &'static str {
    match backend {
        DescriberBackend::Ollama => "http://localhost:11434",
        DescriberBackend::LmStudio => "http://localhost:1234",
        DescriberBackend::OpenRouter => "https://openrouter.ai/api/v1",
    }
}

fn config(backend: DescriberBackend, api_key: Option<&str>) -> DescriberConfig {
    DescriberConfig {
        backend,
        base_url: default_url(backend).to_string(),
        model: "m".to_string(),
        api_key: api_key.map(str::to_string),
    }
}

fn set_args(backend: DescriberBackend, model: &str, file_key: FileKey) -> SetArgs {
    SetArgs { backend, model: model.to_string(), base_url: None, file_key }
}

/// Runs `set` over what is stored and returns what it would store.
fn set_over(stored: Option<DescriberConfig>, args: SetArgs, notices: &mut Notices) -> DescriberConfig {
    let default = default_url(args.backend);
    majestical_services::describer_config::set(args, default, Ok(stored), notices).expect("set")
}

/// The substring that selects the host-move notice.
const MOVED: &str = "will now be sent to";

fn drained_with(notices: &mut Notices, needle: &str) -> Vec<String> {
    notices.drain().into_iter().filter(|n| n.contains(needle)).collect()
}

#[test]
fn a_file_key_never_debug_prints_the_key() {
    let rendered = FileKey::SetKey("sk-test".to_string()).debug_text();
    assert_eq!(rendered, "Set(\"<redacted>\")");
    assert_eq!(FileKey::Keep.debug_text(), "Keep");
    assert_eq!(FileKey::Clear.debug_text(), "Clear");
}

#[test]
fn a_key_write_never_debug_prints_the_key() {
    let to_keychain = plan_key_write(DescriberBackend::OpenRouter, true, Some("sk-test".to_string())).debug_text();
    assert!(!to_keychain.contains("sk-test"), "{to_keychain}");
    assert!(to_keychain.contains("<redacted>"), "{to_keychain}");
    let to_file = plan_key_write(DescriberBackend::OpenRouter, false, Some("sk-test".to_string())).debug_text();
    assert!(!to_file.contains("sk-test"), "{to_file}");
    assert!(to_file.contains("<redacted>"), "{to_file}");
}

#[test]
fn show_of_an_unconfigured_catalog_is_none() {
    assert!(show(None, KeyPresence::Absent).is_none());
}

#[test]
fn the_key_source_of_openrouter_is_the_heads_key_then_the_file() {
    for (presence, file_key, source) in [
        (KeyPresence::Env, None, KeySource::Env),
        (KeyPresence::Keychain, None, KeySource::Keychain),
        (KeyPresence::Absent, Some("sk-test"), KeySource::File),
        (KeyPresence::Absent, None, KeySource::Absent),
        (KeyPresence::Env, Some("sk-test"), KeySource::Env),
        (KeyPresence::Keychain, Some("sk-test"), KeySource::Keychain),
    ] {
        assert_eq!(
            key_source(&config(DescriberBackend::OpenRouter, file_key), presence),
            source,
            "{presence:?}, file key present: {}",
            file_key.is_some()
        );
    }
}

#[test]
fn the_key_source_of_a_local_backend_is_only_ever_the_file() {
    assert_eq!(key_source(&config(DescriberBackend::Ollama, None), KeyPresence::Env), KeySource::Absent);
    assert_eq!(key_source(&config(DescriberBackend::Ollama, Some("sk-test")), KeyPresence::Env), KeySource::File);
    assert_eq!(key_source(&config(DescriberBackend::LmStudio, None), KeyPresence::Keychain), KeySource::Absent);
}

#[test]
fn show_names_the_source_the_head_found() {
    let mut notices = Notices::new();
    let stored = set_over(None, set_args(DescriberBackend::OpenRouter, "m", FileKey::Keep), &mut notices);
    let view = show(Some(stored), KeyPresence::Keychain).expect("configured");
    assert_eq!(view.key_source, KeySource::Keychain);
}

#[test]
fn only_an_openrouter_key_goes_to_a_supported_keychain() {
    for backend in [DescriberBackend::Ollama, DescriberBackend::LmStudio, DescriberBackend::OpenRouter] {
        for supported in [true, false] {
            let nothing = plan_key_write(backend, supported, None);
            assert!(nothing.keychain.is_none(), "{backend:?} {supported}");
            assert!(matches!(nothing.file, FileKey::Keep), "{backend:?} {supported}");

            let write = plan_key_write(backend, supported, Some("sk-test".to_string()));
            let to_keychain = match backend {
                DescriberBackend::OpenRouter => supported,
                DescriberBackend::Ollama | DescriberBackend::LmStudio => false,
            };
            if to_keychain {
                assert_eq!(write.keychain.as_deref(), Some("sk-test"));
                assert!(matches!(write.file, FileKey::Clear));
            } else {
                assert!(write.keychain.is_none(), "{backend:?} {supported}");
                assert!(matches!(&write.file, FileKey::SetKey(k) if k == "sk-test"), "{backend:?} {supported}");
            }
        }
    }
}

#[test]
fn set_stores_the_config_with_the_key_it_was_given() {
    let mut notices = Notices::new();
    let stored = set_over(
        None,
        set_args(DescriberBackend::Ollama, "llava", FileKey::SetKey("sk-test".to_string())),
        &mut notices,
    );
    assert_eq!(stored.model, "llava");
    assert_eq!(stored.base_url, default_url(DescriberBackend::Ollama));
    assert_eq!(stored.api_key.as_deref(), Some("sk-test"));
}

#[test]
fn moving_the_same_backend_to_another_url_keeps_the_key_and_says_where_it_goes() {
    let mut notices = Notices::new();
    let mut first = set_args(DescriberBackend::LmStudio, "first", FileKey::SetKey("sk-test".to_string()));
    first.base_url = Some("http://127.0.0.1:1234".to_string());
    let stored = set_over(None, first, &mut notices);
    drop(notices.drain());

    let mut moved = set_args(DescriberBackend::LmStudio, "second", FileKey::Keep);
    moved.base_url = Some("http://127.0.0.1:1235".to_string());
    let after = set_over(Some(stored), moved, &mut notices);
    assert_eq!(after.api_key.as_deref(), Some("sk-test"));
    assert_eq!(after.base_url, "http://127.0.0.1:1235");
    let said = drained_with(&mut notices, MOVED);
    assert_eq!(said.len(), 1, "{said:?}");
    assert!(said[0].contains("http://127.0.0.1:1235"), "{said:?}");
    assert!(said[0].contains("http://127.0.0.1:1234"), "{said:?}");
    assert!(!said[0].contains("sk-test"), "{said:?}");

    let mut again = set_args(DescriberBackend::LmStudio, "second", FileKey::Keep);
    again.base_url = Some("http://127.0.0.1:1235".to_string());
    let still = set_over(Some(after), again, &mut notices);
    assert_eq!(still.api_key.as_deref(), Some("sk-test"));
    assert!(!notices.drain().iter().any(|n| n.contains(MOVED)), "an unchanged url must not warn");
}

#[test]
fn moving_openrouter_warns_even_though_its_key_is_not_in_the_file() {
    let mut notices = Notices::new();
    let keyless = set_over(None, set_args(DescriberBackend::OpenRouter, "m", FileKey::Clear), &mut notices);
    assert_eq!(keyless.api_key, None);
    drop(notices.drain());

    let mut moved = set_args(DescriberBackend::OpenRouter, "m", FileKey::Keep);
    moved.base_url = Some("http://127.0.0.1:18716".to_string());
    set_over(Some(keyless), moved, &mut notices);
    let said = drained_with(&mut notices, MOVED);
    assert_eq!(said.len(), 1, "{said:?}");
    assert!(said[0].contains("http://127.0.0.1:18716"), "{said:?}");
    assert!(said[0].contains("any stored API key"), "{said:?}");

    let mut custom = set_args(DescriberBackend::OpenRouter, "m", FileKey::Clear);
    custom.base_url = Some("http://127.0.0.1:18717".to_string());
    let stored = set_over(None, custom, &mut notices);
    drop(notices.drain());
    set_over(Some(stored), set_args(DescriberBackend::OpenRouter, "m", FileKey::Keep), &mut notices);
    let reset = drained_with(&mut notices, MOVED);
    assert_eq!(reset.len(), 1, "{reset:?}");
    assert!(reset[0].contains(default_url(DescriberBackend::OpenRouter)), "{reset:?}");

    let local = set_over(None, set_args(DescriberBackend::LmStudio, "m", FileKey::Clear), &mut notices);
    drop(notices.drain());
    let mut moved = set_args(DescriberBackend::LmStudio, "m", FileKey::Keep);
    moved.base_url = Some("http://127.0.0.1:1235".to_string());
    set_over(Some(local), moved, &mut notices);
    assert!(
        !notices.drain().iter().any(|n| n.contains(MOVED)),
        "a local backend with no stored key must stay quiet"
    );
}

#[test]
fn switching_backends_without_a_new_key_does_not_carry_the_old_one_over() {
    for (stored_backend, next) in [
        (DescriberBackend::OpenRouter, DescriberBackend::LmStudio),
        (DescriberBackend::LmStudio, DescriberBackend::OpenRouter),
        (DescriberBackend::Ollama, DescriberBackend::LmStudio),
    ] {
        let mut notices = Notices::new();
        let first = set_over(None, set_args(stored_backend, "first", FileKey::SetKey("sk-test".to_string())), &mut notices);
        let stored = set_over(Some(first), set_args(next, "second", FileKey::Keep), &mut notices);
        assert_eq!(stored.backend, next, "{stored_backend:?} -> {next:?}");
        assert_eq!(stored.api_key, None, "{stored_backend:?} -> {next:?}");
        let dropped = drained_with(&mut notices, "was not carried over");
        assert_eq!(dropped.len(), 1, "{dropped:?}");
        assert!(!dropped[0].contains("sk-test"), "{dropped:?}");
        assert!(
            dropped[0].contains(stored_backend.as_str()) && dropped[0].contains(next.as_str()),
            "{dropped:?}"
        );
    }
}

#[test]
fn switching_backends_drops_the_stored_key_with_a_note() {
    let mut notices = Notices::new();
    let carried = carried_key(
        Some(config(DescriberBackend::OpenRouter, Some("sk-secret-1"))),
        DescriberBackend::LmStudio,
        "http://x",
        &mut notices,
    );
    assert_eq!(carried, None);
    let lines = notices.drain();
    assert_eq!(lines.len(), 1);
    assert!(lines[0].contains("belonged to open-router") && !lines[0].contains("sk-secret-1"), "{}", lines[0]);
}

#[test]
fn set_without_a_key_keeps_the_stored_key() {
    let mut notices = Notices::new();
    let first = set_over(
        None,
        set_args(DescriberBackend::OpenRouter, "first", FileKey::SetKey("sk-test".to_string())),
        &mut notices,
    );
    let stored = set_over(Some(first), set_args(DescriberBackend::OpenRouter, "second", FileKey::Keep), &mut notices);
    assert_eq!(stored.model, "second");
    assert_eq!(stored.api_key.as_deref(), Some("sk-test"));
}

#[test]
fn set_keeping_a_key_on_an_unconfigured_catalog_stores_none() {
    let stored = set_over(None, set_args(DescriberBackend::Ollama, "llava", FileKey::Keep), &mut Notices::new());
    assert_eq!(stored.api_key, None);
}

#[test]
fn set_with_clear_removes_the_stored_key() {
    let mut notices = Notices::new();
    let first = set_over(
        None,
        set_args(DescriberBackend::OpenRouter, "m", FileKey::SetKey("sk-test".to_string())),
        &mut notices,
    );
    let stored = set_over(Some(first), set_args(DescriberBackend::OpenRouter, "m", FileKey::Clear), &mut notices);
    assert_eq!(stored.api_key, None);
}

#[test]
fn set_keeping_a_key_over_an_unreadable_config_is_refused() {
    let err = majestical_services::describer_config::set(
        set_args(DescriberBackend::OpenRouter, "m", FileKey::Keep),
        default_url(DescriberBackend::OpenRouter),
        Err("parsing describer.toml".to_string()),
        &mut Notices::new(),
    )
    .expect_err("an unparsable file must not be overwritten");
    assert!(err.message().contains("describer.toml"));
}

#[test]
fn clear_file_key_of_an_unconfigured_catalog_is_false_and_writes_nothing() {
    assert!(clear_file_key(None).is_none());
}

#[test]
fn clear_file_key_removes_the_key_once_and_leaves_the_rest() {
    let stored = set_over(
        None,
        SetArgs {
            backend: DescriberBackend::OpenRouter,
            model: "some-model".to_string(),
            base_url: Some("https://example.test/api".to_string()),
            file_key: FileKey::SetKey("sk-test".to_string()),
        },
        &mut Notices::new(),
    );
    let cleared = clear_file_key(Some(stored)).expect("first clear removes the key");
    assert_eq!(cleared.backend, DescriberBackend::OpenRouter);
    assert_eq!(cleared.base_url, "https://example.test/api");
    assert_eq!(cleared.model, "some-model");
    assert_eq!(cleared.api_key, None);
    assert!(clear_file_key(Some(cleared)).is_none(), "the second clear has nothing to remove");
}

#[test]
fn only_a_stored_openrouter_config_wants_the_keychain() {
    assert!(!wants_keychain(&Ok(None)));
    let ollama = set_over(None, set_args(DescriberBackend::Ollama, "m", FileKey::Keep), &mut Notices::new());
    assert!(!wants_keychain(&Ok(Some(ollama))));
    let openrouter = set_over(None, set_args(DescriberBackend::OpenRouter, "m", FileKey::Keep), &mut Notices::new());
    assert!(wants_keychain(&Ok(Some(openrouter))));
    assert!(!wants_keychain(&Err("parsing describer.toml".to_string())));
}

#[test]
fn set_defaults_base_url_to_the_backends_default_when_not_given() {
    let stored = set_over(None, set_args(DescriberBackend::LmStudio, "some-model", FileKey::Keep), &mut Notices::new());
    assert_eq!(stored.base_url, default_url(DescriberBackend::LmStudio));
}

fn keyless_openrouter() -> DescriberConfig {
    config(DescriberBackend::OpenRouter, None)
}

#[test]
fn test_reports_an_accepted_key() {
    let c = keyless_openrouter();
    let mut notices = Notices::new();
    let key = key_check(&c, &Some("sk-test".into()), Some(KeyVerdict::Accepted), &mut notices);
    let probe = majestical_services::describer_config::test(Some(c), true, None, key).expect("test");
    assert!(probe.model_listed);
    assert_eq!(probe.key, KeyCheck::Accepted);
}

#[test]
fn test_reports_a_rejected_key() {
    let c = keyless_openrouter();
    let key = key_check(&c, &Some("sk-test".into()), Some(KeyVerdict::Rejected), &mut Notices::new());
    let probe = majestical_services::describer_config::test(Some(c), true, None, key).expect("test");
    assert_eq!(probe.key, KeyCheck::Rejected);
}

#[test]
fn test_does_not_check_a_key_for_ollama() {
    let c = config(DescriberBackend::Ollama, Some("sk-test"));
    let mut notices = Notices::new();
    let key = key_check(&c, &None, None, &mut notices);
    let probe = majestical_services::describer_config::test(Some(c), true, None, key).expect("test");
    assert_eq!(probe.key, KeyCheck::NotChecked);
    assert!(notices.drain().iter().all(|n| !n.contains("key")));
}

#[test]
fn test_with_a_key_endpoint_that_judges_nothing_is_not_checked_with_a_notice() {
    let c = keyless_openrouter();
    let mut notices = Notices::new();
    let key = key_check(&c, &Some("sk-test".into()), Some(KeyVerdict::Unjudged("HTTP 500".into())), &mut notices);
    let probe = majestical_services::describer_config::test(Some(c), true, None, key).expect("test");
    assert_eq!(probe.key, KeyCheck::NotChecked);
    let all = notices.drain();
    assert!(all.iter().all(|notice| !notice.contains("sk-test")), "{all:?}");
    let about_the_key: Vec<&String> =
        all.iter().filter(|notice| notice.starts_with("note: the key was not checked (")).collect();
    assert_eq!(about_the_key.len(), 1, "{all:?}");
}

#[test]
fn test_without_a_key_does_not_call_the_key_endpoint() {
    let c = keyless_openrouter();
    let mut notices = Notices::new();
    let key = key_check(&c, &None, None, &mut notices);
    let probe = majestical_services::describer_config::test(Some(c), true, None, key).expect("test");
    assert_eq!(probe.key, KeyCheck::Missing);
    assert!(notices.drain().iter().all(|n| !n.contains("key")));
}

#[test]
fn test_of_an_unconfigured_catalog_errors() {
    let err = majestical_services::describer_config::test(None, false, None, KeyCheck::NotChecked).expect_err("must fail");
    assert!(err.message().contains("no describer configured"));
}

#[test]
fn key_source_names_a_key_exactly_when_a_run_has_one() {
    for backend in [DescriberBackend::Ollama, DescriberBackend::LmStudio, DescriberBackend::OpenRouter] {
        for presence in [KeyPresence::Env, KeyPresence::Keychain, KeyPresence::Absent] {
            for file_key in [Some("sk-test"), None] {
                let c = config(backend, file_key);
                let head_key = match presence {
                    KeyPresence::Env | KeyPresence::Keychain => Some("sk-test-2".to_string()),
                    KeyPresence::Absent => None,
                };
                let source = key_source(&c, presence);
                let case = format!("{backend:?}, {presence:?}, file key: {}", file_key.is_some());
                assert_eq!(source == KeySource::Absent, !has_key(&c, &head_key), "{case}");
                let runs_on_the_file = file_key.is_some() && !(backend == DescriberBackend::OpenRouter && head_key.is_some());
                assert_eq!(source == KeySource::File, runs_on_the_file, "{case}");
            }
        }
    }
}
