use rustylang::config::{
    parse_locales_arg, render_file_pattern, resolve_api_key, select_locales, Config,
};
use rustylang::openai_client::{
    build_system_prompt, provider_step, sanitize_response, AttemptOutcome, RetryStep,
};
use rustylang::placeholders::extract_placeholders;
use rustylang::usage::{UsageData, UsageLedger};

#[test]
fn placeholder_extraction_orders_and_dedups() {
    let toks = extract_placeholders("Hello {{name}}, you have :count items %s");
    assert_eq!(
        toks,
        vec!["{{name}}".to_string(), ":count".to_string(), "%s".to_string()]
    );
    assert_eq!(extract_placeholders("%s and %s"), vec!["%s".to_string()]);
    assert_eq!(
        extract_placeholders("a {x} b {0} c :n9_ %d %"),
        vec![
            "{x}".to_string(),
            "{0}".to_string(),
            ":n9_".to_string(),
            "%d".to_string(),
            "%".to_string(),
        ]
    );
    assert_eq!(extract_placeholders("plain text"), Vec::<String>::new());
}

#[test]
fn sanitize_takes_first_line_and_strips_quotes() {
    assert_eq!(sanitize_response("\n  \n \"hello there\" \nrest"), "hello there");
    assert_eq!(sanitize_response("'quoted'"), "quoted");
    assert_eq!(sanitize_response("\u{201c}curly\u{201d}"), "curly");
    assert_eq!(sanitize_response("\" 'both' \""), "both");
    assert_eq!(sanitize_response("   "), "");
    assert_eq!(sanitize_response("plain"), "plain");
}

#[test]
fn usage_accounting_sums_exactly() {
    let mut ledger = UsageLedger::new();
    let usage1 = UsageData {
        prompt_tokens: Some(10),
        completion_tokens: Some(5),
        total_tokens: Some(15),
    };
    let usage2 = UsageData {
        prompt_tokens: Some(1),
        completion_tokens: Some(2),
        total_tokens: Some(3),
    };
    ledger.record("fr", Some(usage1));
    ledger.record("fr", Some(usage2));
    let g = ledger.usage_snapshot();
    assert_eq!(g.prompt_tokens, 11);
    assert_eq!(g.completion_tokens, 7);
    assert_eq!(g.total_tokens, 18);
    assert_eq!(g.requests, 2);
    let per = ledger.usage_by_locale_snapshot();
    assert_eq!(per.len(), 1);
    assert_eq!(per[0].0, "fr");
    assert_eq!(per[0].1.total_tokens, 18);
    assert_eq!(per[0].1.requests, 2);
}

#[test]
fn missing_usage_data_still_counts_the_request() {
    let mut ledger = UsageLedger::new();
    ledger.record("de", None);
    let g = ledger.usage_snapshot();
    assert_eq!(g.prompt_tokens, 0);
    assert_eq!(g.total_tokens, 0);
    assert_eq!(g.requests, 1);
    let per = ledger.usage_by_locale_snapshot();
    assert_eq!(per.len(), 1);
    assert_eq!(per[0].0, "de");
    assert_eq!(per[0].1.requests, 1);
}

#[test]
fn two_locales_are_counted_apart() {
    let mut ledger = UsageLedger::new();
    let usage = UsageData {
        prompt_tokens: Some(4),
        completion_tokens: None,
        total_tokens: Some(4),
    };
    ledger.record("fr", Some(usage));
    ledger.record("de", None);
    let per = ledger.usage_by_locale_snapshot();
    assert_eq!(per.len(), 2);
    assert_eq!(per[0].0, "fr");
    assert_eq!(per[0].1.total_tokens, 4);
    assert_eq!(per[1].0, "de");
    assert_eq!(per[1].1.total_tokens, 0);
    assert_eq!(per[1].1.requests, 1);
}

#[test]
fn provider_step_success_finishes_with_sanitized_text() {
    let mut ledger = UsageLedger::new();
    let outcome = AttemptOutcome::Success {
        content: "\"Bonjour\"\n".to_string(),
        usage: Some(UsageData {
            prompt_tokens: Some(7),
            completion_tokens: Some(2),
            total_tokens: Some(9),
        }),
    };
    let step = provider_step(0, outcome, &mut ledger, "fr");
    assert_eq!(step, RetryStep::Finish("Bonjour".to_string()));
    assert_eq!(ledger.usage_snapshot().total_tokens, 9);
    assert_eq!(ledger.usage_snapshot().requests, 1);
}

#[test]
fn provider_step_backs_off_linearly_then_fails() {
    let mut ledger = UsageLedger::new();
    let s1 = provider_step(
        0,
        AttemptOutcome::HttpFailure { status: 500, body: "busy".to_string() },
        &mut ledger,
        "fr",
    );
    assert_eq!(s1, RetryStep::Backoff(200));
    let s2 = provider_step(
        1,
        AttemptOutcome::TransportFailure { message: "timed out".to_string() },
        &mut ledger,
        "fr",
    );
    assert_eq!(s2, RetryStep::Backoff(400));
    let s3 = provider_step(
        2,
        AttemptOutcome::HttpFailure { status: 500, body: "busy".to_string() },
        &mut ledger,
        "fr",
    );
    assert_eq!(s3, RetryStep::Fail("OpenAI error 500: busy".to_string()));
    // two structured responses, one transport failure
    assert_eq!(ledger.usage_snapshot().requests, 2);
}

#[test]
fn prompt_names_locales_placeholders_and_key() {
    let ph = vec!["{x}".to_string(), "%s".to_string()];
    let p = build_system_prompt("en-GB", "fr", &ph, Some("home.title"));
    let expected = "Translate the user text from en-GB to fr.\n- Preserve placeholders unchanged (verbatim), e.g. {like_this}, :named, %s, {...}, {...}.\n- Reply with the translated text only: no quotes, no code fences, no labels, no commentary.\n- Do not repeat the placeholder list.\n- Required placeholders (must appear verbatim): {x}, %s\n- Key (context only; not part of the text to translate): home.title\n";
    assert_eq!(p, expected);
    let bare = build_system_prompt("en", "de", &Vec::new(), None);
    assert!(bare.ends_with("- Do not repeat the placeholder list.\n"));
}

#[test]
fn config_defaults_match_the_documented_values() {
    let c = Config::default();
    assert_eq!(c.source_locale, "en-GB");
    assert_eq!(c.file_pattern, "{locale}.json");
    assert_eq!(c.locales, Vec::<String>::new());
    assert_eq!(c.concurrency, 5);
    assert_eq!(c.openai.model, "gpt-4o-mini");
    assert_eq!(c.openai.api_key, None);
    assert!(!c.translate.overwrite_existing);
    assert!(c.translate.preserve_placeholders);
}

#[test]
fn file_pattern_expansion_replaces_every_occurrence() {
    assert_eq!(render_file_pattern("{locale}.json", "fr"), "fr.json");
    assert_eq!(
        render_file_pattern("l10n/{locale}/{locale}.json", "de"),
        "l10n/de/de.json"
    );
    assert_eq!(render_file_pattern("fixed.json", "fr"), "fixed.json");
}

#[test]
fn locale_list_parsing_trims_and_drops_empties() {
    assert_eq!(
        parse_locales_arg(" en, fr ,,de "),
        vec!["en".to_string(), "fr".to_string(), "de".to_string()]
    );
    assert_eq!(parse_locales_arg(""), Vec::<String>::new());
    let cfg = vec!["it".to_string()];
    assert_eq!(select_locales(Some("en,fr"), &cfg), vec!["en".to_string(), "fr".to_string()]);
    assert_eq!(select_locales(None, &cfg), cfg);
}

#[test]
fn api_key_resolution_prefers_the_environment() {
    assert_eq!(
        resolve_api_key(Some("SECRET-REDACTED".to_string()), Some("other".to_string())),
        Some("SECRET-REDACTED".to_string())
    );
    assert_eq!(resolve_api_key(None, Some("from-config".to_string())), Some("from-config".to_string()));
    // a set-but-empty environment variable shadows the configured key
    assert_eq!(resolve_api_key(Some("".to_string()), Some("from-config".to_string())), None);
    assert_eq!(resolve_api_key(None, None), None);
}
