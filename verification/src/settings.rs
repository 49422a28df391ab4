//! The settings form: what it shows, what saving it writes, and what it does with
//! the outcome.

use vstd::prelude::*;
use vstd::string::*;

use crate::config;
use crate::config::{Config, Language};
use crate::text;

verus! {

/// The form, filled in from the settings in force and edited by the user.
#[derive(Clone, Debug)]
pub struct SettingsForm {
    pub api_key: String,
    /// Hands-free, or else toggle.
    pub handsfree: bool,
    /// The pause that ends a phrase, in milliseconds.
    pub silence_ms: u64,
    pub language: Language,
    /// Why saving failed, shown under the fields.
    pub error: Option<String>,
}

/// What is handed to the configuration to be saved.
#[derive(Clone, Debug)]
pub struct SaveRequest {
    pub api_key: String,
    /// "handsfree" or "toggle".
    pub mode: String,
    /// The pause that ends a phrase, in milliseconds.
    pub silence_ms: u64,
    pub language: Language,
}

/// The entry that stands for a mode.
pub open spec fn mode_entry(handsfree: bool) -> Seq<char> {
    if handsfree {
        "handsfree"@
    } else {
        "toggle"@
    }
}

impl SettingsForm {
    /// The form shows these settings, with no key as an empty field.
    pub open spec fn shows(self, cfg: Config) -> bool {
        &&& self.api_key@ == match cfg.api_key {
            Some(key) => key@,
            None => Seq::<char>::empty(),
        }
        &&& self.handsfree == cfg.handsfree
        &&& self.silence_ms == cfg.silence_ms
        &&& self.language == cfg.language
    }

    /// The form for these settings.
    pub fn new(cfg: Config) -> (form: SettingsForm)
        ensures
            form.shows(cfg),
            form.error is None,
    {
        SettingsForm {
            api_key: match cfg.api_key {
                Some(key) => key,
                None => String::new(),
            },
            handsfree: cfg.handsfree,
            silence_ms: cfg.silence_ms,
            language: cfg.language,
            error: None,
        }
    }

    /// What saving the form writes: the key without the white space around it,
    /// and the rest as it stands.
    pub fn save(&self) -> (request: SaveRequest)
        ensures
            request.api_key@ == text::trimmed(self.api_key@),
            request.mode@ == mode_entry(self.handsfree),
            request.silence_ms == self.silence_ms,
            request.language == self.language,
    {
        SaveRequest {
            api_key: text::trim(self.api_key.as_str()),
            mode: if self.handsfree {
                "handsfree".to_owned()
            } else {
                "toggle".to_owned()
            },
            silence_ms: self.silence_ms,
            language: self.language,
        }
    }

    /// Takes the outcome of saving. Says whether the window closes; where saving
    /// failed it stays open and shows why.
    pub fn saved(&mut self, outcome: Result<(), String>) -> (close: bool)
        ensures
            close == (outcome is Ok),
            final(self).api_key == old(self).api_key,
            final(self).handsfree == old(self).handsfree,
            final(self).silence_ms == old(self).silence_ms,
            final(self).language == old(self).language,
            config::entry(final(self).error) == match outcome {
                Ok(_) => config::entry(old(self).error),
                Err(e) => Some("Couldn't save: "@ + e@),
            },
    {
        match outcome {
            Ok(()) => true,
            Err(e) => {
                let mut message = "Couldn't save: ".to_owned();
                message.append(e.as_str());
                self.error = Some(message);
                false
            },
        }
    }
}

/// The entry of a mode is read back as that mode.
pub proof fn modes_are_read_back(
    handsfree: bool,
    file: config::FileConfig,
    env_key: Option<Seq<char>>,
    cfg: Config,
)
    requires
        config::entry(file.mode) == Some(mode_entry(handsfree)),
        cfg.made_of(Some(file), env_key),
    ensures
        cfg.handsfree == handsfree,
{
    reveal_strlit("handsfree");
    reveal_strlit("toggle");
    assert("handsfree"@[0] != "toggle"@[0]);
}

/// Saving the form for settings without touching it leaves them in force, with
/// the key trimmed. A key that came from the environment is then in the file.
pub proof fn saving_an_untouched_form_keeps_settings(
    before: Option<config::FileConfig>,
    env_key: Option<Seq<char>>,
    cfg: Config,
    form: SettingsForm,
    request: SaveRequest,
    file: config::FileConfig,
    after: Config,
)
    requires
        cfg.made_of(before, env_key),
        form.shows(cfg),
        request.api_key@ == text::trimmed(form.api_key@),
        request.mode@ == mode_entry(form.handsfree),
        request.silence_ms == form.silence_ms,
        request.language == form.language,
        file.saved_over(
            before,
            request.api_key@,
            request.mode@,
            request.silence_ms,
            request.language,
        ),
        after.made_of(Some(file), env_key),
    ensures
        after.handsfree == cfg.handsfree,
        after.silence_ms == cfg.silence_ms,
        after.language == cfg.language,
        after.model@ == cfg.model@,
        cfg.api_key is Some ==> config::entry(after.api_key) == Some(
            text::trimmed(cfg.api_key->0@),
        ),
{
    config::saved_settings_load(
        before,
        request.api_key@,
        request.mode@,
        request.silence_ms,
        request.language,
        file,
        env_key,
        after,
        cfg,
    );
    reveal_strlit("handsfree");
    reveal_strlit("toggle");
    assert("handsfree"@[0] != "toggle"@[0]);
    config::silence_is_in_range(before, env_key, cfg);
}

} // verus!
