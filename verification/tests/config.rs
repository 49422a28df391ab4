use voicetyper::config::{clamp_silence, load_config, save_config, FileConfig, Language};
use voicetyper::settings::SettingsForm;

fn text(s: &str) -> Option<String> {
    Some(s.to_string())
}

fn empty_file() -> FileConfig {
    FileConfig { groq_api_key: None, model: None, mode: None, silence_ms: None, language: None }
}

#[test]
fn without_a_file_the_defaults_hold() {
    let cfg = load_config(None, text("gsk_env"));
    assert_eq!(cfg.api_key.as_deref(), Some("gsk_env"));
    assert_eq!(cfg.model, "whisper-large-v3-turbo");
    assert!(cfg.handsfree);
    assert_eq!(cfg.silence_ms, 1_500);
    assert_eq!(cfg.language, Language::English);
    assert_eq!(load_config(None, None).api_key, None);
}

#[test]
fn an_empty_file_is_like_none() {
    let cfg = load_config(Some(empty_file()), text("gsk_env"));
    assert_eq!(cfg.api_key.as_deref(), Some("gsk_env"));
    assert_eq!(cfg.model, "whisper-large-v3-turbo");
    assert!(cfg.handsfree);
    assert_eq!(cfg.silence_ms, 1_500);
    assert_eq!(cfg.language, Language::English);
}

#[test]
fn the_file_comes_before_the_environment() {
    let file = FileConfig {
        groq_api_key: text("gsk_file"),
        model: text("whisper-large-v3"),
        mode: text("toggle"),
        silence_ms: Some(2_000),
        language: text("vi"),
    };
    let cfg = load_config(Some(file), text("gsk_env"));
    assert_eq!(cfg.api_key.as_deref(), Some("gsk_file"));
    assert_eq!(cfg.model, "whisper-large-v3");
    assert!(!cfg.handsfree);
    assert_eq!(cfg.silence_ms, 2_000);
    assert_eq!(cfg.language, Language::Vietnamese);
}

#[test]
fn a_mode_other_than_toggle_is_handsfree() {
    for mode in ["handsfree", "Toggle", "", "toggle "] {
        let cfg = load_config(Some(FileConfig { mode: text(mode), ..empty_file() }), None);
        assert!(cfg.handsfree, "{mode:?}");
    }
}

#[test]
fn a_pause_is_clamped() {
    assert_eq!(clamp_silence(0), 500);
    assert_eq!(clamp_silence(500), 500);
    assert_eq!(clamp_silence(1_234), 1_234);
    assert_eq!(clamp_silence(5_000), 5_000);
    assert_eq!(clamp_silence(5_001), 5_000);
    let file = FileConfig { silence_ms: Some(60_000), ..empty_file() };
    assert_eq!(load_config(Some(file), None).silence_ms, 5_000);
}

#[test]
fn saved_settings_are_loaded_again() {
    let before = FileConfig { model: text("whisper-large-v3"), ..empty_file() };
    let file = save_config(Some(before), "gsk_new", "toggle", 100, Language::Vietnamese);
    let cfg = load_config(Some(file), text("gsk_env"));
    assert_eq!(cfg.api_key.as_deref(), Some("gsk_new"));
    assert_eq!(cfg.model, "whisper-large-v3");
    assert!(!cfg.handsfree);
    assert_eq!(cfg.silence_ms, 500);
    assert_eq!(cfg.language, Language::Vietnamese);
    assert_eq!(save_config(None, "k", "handsfree", 700, Language::English).model, None);
}

#[test]
fn languages_have_their_codes() {
    assert_eq!(Language::English.code(), "en");
    assert_eq!(Language::Vietnamese.code(), "vi");
}

#[test]
fn the_form_shows_the_settings() {
    let form = SettingsForm::new(load_config(None, None));
    assert_eq!(form.api_key, "");
    assert!(form.handsfree);
    assert_eq!(form.silence_ms, 1_500);
    assert_eq!(form.language, Language::English);
    assert_eq!(form.error, None);
    assert_eq!(SettingsForm::new(load_config(None, text("k"))).api_key, "k");
}

#[test]
fn saving_trims_the_key() {
    let mut form = SettingsForm::new(load_config(None, None));
    form.api_key = " gsk_pasted\n".to_string();
    form.handsfree = false;
    form.silence_ms = 900;
    form.language = Language::Vietnamese;
    let request = form.save();
    assert_eq!(request.api_key, "gsk_pasted");
    assert_eq!(request.mode, "toggle");
    assert_eq!(request.silence_ms, 900);
    assert_eq!(request.language, Language::Vietnamese);
    form.handsfree = true;
    assert_eq!(form.save().mode, "handsfree");
}

#[test]
fn a_failure_to_save_is_shown() {
    let mut form = SettingsForm::new(load_config(None, text("k")));
    assert!(!form.saved(Err("access denied".to_string())));
    assert_eq!(form.error.as_deref(), Some("Couldn't save: access denied"));
    assert_eq!(form.api_key, "k");
    assert!(form.saved(Ok(())));
}

#[test]
fn saving_an_untouched_form_changes_nothing() {
    let file = FileConfig {
        groq_api_key: text("gsk_file"),
        model: text("whisper-large-v3"),
        mode: text("toggle"),
        silence_ms: Some(2_500),
        language: text("vi"),
    };
    let cfg = load_config(Some(file.clone()), None);
    let request = SettingsForm::new(cfg.clone()).save();
    let saved = save_config(
        Some(file),
        &request.api_key,
        &request.mode,
        request.silence_ms,
        request.language,
    );
    let again = load_config(Some(saved), None);
    assert_eq!(again.api_key, cfg.api_key);
    assert_eq!(again.model, cfg.model);
    assert_eq!(again.handsfree, cfg.handsfree);
    assert_eq!(again.silence_ms, cfg.silence_ms);
    assert_eq!(again.language, cfg.language);
}
