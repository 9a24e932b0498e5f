//! The configured describer backend and the key-placement rules around it:
//! where a caption run's key comes from, where a newly supplied key goes,
//! what `set` carries over from the stored config, and what `describer
//! test` reports about the key. Nothing here reads the environment, the
//! Keychain or the disk; the host reports what it found.
use vstd::prelude::*;
use crate::error::ServiceError;
use crate::notices::Notices;
use crate::text::{cat, str_eq, string_views};

verus! {

/// Which service generates captions: two local ones and a hosted API.
#[derive(Debug, Clone, Copy, PartialEq, Eq, Structural)]
pub enum DescriberBackend {
    Ollama,
    LmStudio,
    OpenRouter,
}

/// A stored describer configuration: the backend, where it is reached,
/// which model it runs, and the key the file holds, if any.
#[derive(Debug)]
pub struct DescriberConfig {
    pub backend: DescriberBackend,
    pub base_url: String,
    pub model: String,
    pub api_key: Option<String>,
}

/// The wire name of each backend.
pub open spec fn backend_name(b: DescriberBackend) -> Seq<char> {
    match b {
        DescriberBackend::Ollama => "ollama"@,
        DescriberBackend::LmStudio => "lm-studio"@,
        DescriberBackend::OpenRouter => "open-router"@,
    }
}

impl DescriberBackend {
    /// The backend's wire name.
    pub fn as_str(&self) -> (s: &'static str)
        ensures
            s@ == backend_name(*self),
    {
        match self {
            DescriberBackend::Ollama => "ollama",
            DescriberBackend::LmStudio => "lm-studio",
            DescriberBackend::OpenRouter => "open-router",
        }
    }
}

/// The `describer.toml` path inside this machine's state dir.
pub fn config_path(state_dir: &str) -> (p: String)
    ensures
        p@ == crate::text::path_join(state_dir@, "describer.toml"@),
{
    crate::text::join_path(state_dir, "describer.toml")
}

/// Which head-side source supplied a key, as the head found it.
#[derive(Debug, Clone, Copy, PartialEq, Eq, Structural)]
pub enum KeyPresence {
    Env,
    Keychain,
    Absent,
}

/// Where the key a caption run would use comes from.
#[derive(Debug, Clone, Copy, PartialEq, Eq, Structural)]
pub enum KeySource {
    Env,
    Keychain,
    File,
    Absent,
}

/// The order a run resolves a key in: a head-side key applies to
/// OpenRouter alone, and the file's key comes last.
pub open spec fn key_source_spec(backend: DescriberBackend, file_has_key: bool, presence: KeyPresence) -> KeySource {
    let head = if backend == DescriberBackend::OpenRouter {
        presence
    } else {
        KeyPresence::Absent
    };
    match head {
        KeyPresence::Env => KeySource::Env,
        KeyPresence::Keychain => KeySource::Keychain,
        KeyPresence::Absent => if file_has_key {
            KeySource::File
        } else {
            KeySource::Absent
        },
    }
}

/// Where the key a run with `config` would use comes from.
pub fn key_source(config: &DescriberConfig, presence: KeyPresence) -> (s: KeySource)
    ensures
        s == key_source_spec(config.backend, config.api_key is Some, presence),
{
    let head = match config.backend {
        DescriberBackend::OpenRouter => presence,
        DescriberBackend::Ollama | DescriberBackend::LmStudio => KeyPresence::Absent,
    };
    match head {
        KeyPresence::Env => KeySource::Env,
        KeyPresence::Keychain => KeySource::Keychain,
        KeyPresence::Absent => if config.api_key.is_some() {
            KeySource::File
        } else {
            KeySource::Absent
        },
    }
}

/// A describer config safe to show any head: no key, only where one
/// would come from.
#[derive(Debug)]
pub struct DescriberConfigView {
    pub backend: String,
    pub base_url: String,
    pub model: String,
    pub key_source: KeySource,
}

/// `v` shows `config` with `presence`'s key source.
pub open spec fn views_config(v: DescriberConfigView, config: DescriberConfig, presence: KeyPresence) -> bool {
    &&& v.backend@ == backend_name(config.backend)
    &&& v.base_url@ == config.base_url@
    &&& v.model@ == config.model@
    &&& v.key_source == key_source_spec(config.backend, config.api_key is Some, presence)
}

/// The render-safe view of `config`.
pub fn to_view(config: &DescriberConfig, presence: KeyPresence) -> (v: DescriberConfigView)
    ensures
        views_config(v, *config, presence),
{
    DescriberConfigView {
        backend: config.backend.as_str().to_owned(),
        base_url: config.base_url.clone(),
        model: config.model.clone(),
        key_source: key_source(config, presence),
    }
}

/// `maj describer show`: the stored describer's view, or `None` when none
/// is configured on this machine.
pub fn show(stored: Option<DescriberConfig>, presence: KeyPresence) -> (v: Option<DescriberConfigView>)
    ensures
        match (stored, v) {
            (None, None) => true,
            (Some(c), Some(v)) => views_config(v, c, presence),
            _ => false,
        },
{
    match stored {
        None => None,
        Some(config) => Some(to_view(&config, presence)),
    }
}

/// What `set` does with the file's key: carry it (only when the backend is
/// unchanged), set a new one, or clear it.
#[derive(Debug)]
pub enum FileKey {
    Keep,
    SetKey(String),
    Clear,
}

pub open spec fn file_key_text(k: FileKey) -> Seq<char> {
    match k {
        FileKey::Keep => "Keep"@,
        FileKey::SetKey(_) => "Set(\"<redacted>\")"@,
        FileKey::Clear => "Clear"@,
    }
}

impl FileKey {
    /// How the choice prints: a key it holds is never shown.
    pub fn debug_text(&self) -> (s: String)
        ensures
            s@ == file_key_text(*self),
    {
        match self {
            FileKey::Keep => "Keep".to_owned(),
            FileKey::SetKey(_) => "Set(\"<redacted>\")".to_owned(),
            FileKey::Clear => "Clear".to_owned(),
        }
    }
}

/// Where a newly supplied key goes: the Keychain (written first), the
/// file, or neither.
#[derive(Debug)]
pub struct KeyWrite {
    pub keychain: Option<String>,
    pub file: FileKey,
}

impl KeyWrite {
    /// How the plan prints: neither key it may hold is shown.
    pub fn debug_text(&self) -> (s: String)
        ensures
            s@ == "KeyWrite { keychain: "@ + (if self.keychain is Some {
                "Some(\"<redacted>\")"@
            } else {
                "None"@
            }) + ", file: "@ + file_key_text(self.file) + " }"@,
    {
        let mut s = "KeyWrite { keychain: ".to_owned();
        if self.keychain.is_some() {
            s.append("Some(\"<redacted>\")");
        } else {
            s.append("None");
        }
        s.append(", file: ");
        let f = self.file.debug_text();
        s.append(f.as_str());
        s.append(" }");
        s
    }
}

/// The one rule for a key a user hands any head: an OpenRouter key goes
/// to a supported Keychain and the file is cleared; any other key goes to
/// the file; no key keeps the stored one.
pub fn plan_key_write(backend: DescriberBackend, keychain_supported: bool, key: Option<String>) -> (w: KeyWrite)
    ensures
        match key {
            None => w.keychain is None && w.file is Keep,
            Some(k) => if backend == DescriberBackend::OpenRouter && keychain_supported {
                w.keychain == Some(k) && w.file is Clear
            } else {
                w.keychain is None && w.file == FileKey::SetKey(k)
            },
        },
{
    let to_keychain = match backend {
        DescriberBackend::OpenRouter => keychain_supported,
        DescriberBackend::Ollama | DescriberBackend::LmStudio => false,
    };
    match key {
        None => KeyWrite { keychain: None, file: FileKey::Keep },
        Some(k) => if to_keychain {
            KeyWrite { keychain: Some(k), file: FileKey::Clear }
        } else {
            KeyWrite { keychain: None, file: FileKey::SetKey(k) }
        },
    }
}

pub open spec fn dropped_key_notice(from: DescriberBackend, to: DescriberBackend) -> Seq<char> {
    "note: the stored API key belonged to "@ + backend_name(from) + " and was not carried over to "@
        + backend_name(to) + " — supply a new key if "@ + backend_name(to) + " needs one"@
}

pub open spec fn moved_key_notice(new_url: Seq<char>, old_url: Seq<char>) -> Seq<char> {
    "note: any stored API key will now be sent to "@ + new_url + " (was "@ + old_url
        + ") — clear the stored key if that is not intended"@
}

/// The key `Keep` carries into the new config, with the notice it pushes:
/// none when nothing was stored; none, with a note when a key is dropped,
/// when the backend changes; else the stored key, with a warning when its
/// URL moves and a key (possibly one kept off the file, for OpenRouter)
/// would now be sent somewhere new.
pub open spec fn carried(stored: Option<DescriberConfig>, backend: DescriberBackend, base_url: Seq<char>) -> (Option<Seq<char>>, Seq<Seq<char>>) {
    match stored {
        None => (None, Seq::empty()),
        Some(s) => if s.backend != backend {
            (None, if s.api_key is Some {
                seq![dropped_key_notice(s.backend, backend)]
            } else {
                Seq::empty()
            })
        } else {
            (
                match s.api_key {
                    Some(k) => Some(k@),
                    None => None,
                },
                if s.base_url@ != base_url && (s.api_key is Some || backend == DescriberBackend::OpenRouter) {
                    seq![moved_key_notice(base_url, s.base_url@)]
                } else {
                    Seq::empty()
                },
            )
        },
    }
}

/// The key `Keep` carries into the newly stored config, pushing the notice
/// the carry calls for.
pub fn carried_key(stored: Option<DescriberConfig>, backend: DescriberBackend, base_url: &str, notices: &mut Notices) -> (k: Option<String>)
    ensures
        match (k, carried(stored, backend, base_url@).0) {
            (Some(a), Some(b)) => a@ == b,
            (None, None) => true,
            _ => false,
        },
        string_views(final(notices)@) == string_views(old(notices)@) + carried(stored, backend, base_url@).1,
{
    let ghost start = notices@;
    let s = match stored {
        None => {
            assert(string_views(notices@) =~= string_views(start) + Seq::<Seq<char>>::empty());
            return None;
        },
        Some(s) => s,
    };
    if s.backend != backend {
        if s.api_key.is_some() {
            let mut m = cat("note: the stored API key belonged to ", s.backend.as_str());
            m.append(" and was not carried over to ");
            m.append(backend.as_str());
            m.append(" — supply a new key if ");
            m.append(backend.as_str());
            m.append(" needs one");
            notices.push(m);
        }
        assert(string_views(notices@) =~= string_views(start) + carried(stored, backend, base_url@).1);
        return None;
    }
    let may_hold_an_unseen_key = match backend {
        DescriberBackend::OpenRouter => true,
        DescriberBackend::Ollama | DescriberBackend::LmStudio => false,
    };
    if !str_eq(s.base_url.as_str(), base_url) && (s.api_key.is_some() || may_hold_an_unseen_key) {
        let mut m = cat("note: any stored API key will now be sent to ", base_url);
        m.append(" (was ");
        m.append(s.base_url.as_str());
        m.append(") — clear the stored key if that is not intended");
        notices.push(m);
    }
    assert(string_views(notices@) =~= string_views(start) + carried(stored, backend, base_url@).1);
    s.api_key
}

/// `maj describer set` request: backend, model, an optional URL (the
/// backend's default when omitted) and what to do with the file's key.
#[derive(Debug)]
pub struct SetArgs {
    pub backend: DescriberBackend,
    pub model: String,
    pub base_url: Option<String>,
    pub file_key: FileKey,
}

/// `maj describer set`: the config to store. The URL defaults to the
/// backend's own (`default_base_url`, from the host); the key follows
/// `file_key`, where `Keep` consults the stored config (`stored`, read by
/// the host only for `Keep`) and refuses when it could not be read, since
/// its key would otherwise be silently dropped.
pub fn set(args: SetArgs, default_base_url: &str, stored: Result<Option<DescriberConfig>, String>, notices: &mut Notices) -> (r: Result<DescriberConfig, ServiceError>)
    ensures
        ({
            let url = match args.base_url {
                Some(u) => u@,
                None => default_base_url@,
            };
            match args.file_key {
                FileKey::Keep => match stored {
                    Err(m) => r matches Err(ServiceError::Other(e)) && e@ == m@,
                    Ok(st) => r matches Ok(c) && c.backend == args.backend && c.base_url@ == url
                        && c.model@ == args.model@ && match (c.api_key, carried(st, args.backend, url).0) {
                        (Some(a), Some(b)) => a@ == b,
                        (None, None) => true,
                        _ => false,
                    } && string_views(final(notices)@) == string_views(old(notices)@) + carried(st, args.backend, url).1,
                },
                FileKey::SetKey(k) => r matches Ok(c) && c.backend == args.backend && c.base_url@ == url
                    && c.model@ == args.model@ && c.api_key == Some(k) && final(notices)@ == old(notices)@,
                FileKey::Clear => r matches Ok(c) && c.backend == args.backend && c.base_url@ == url
                    && c.model@ == args.model@ && c.api_key is None && final(notices)@ == old(notices)@,
            }
        }),
{
    let SetArgs { backend, model, base_url, file_key } = args;
    let base_url = match base_url {
        Some(u) => u,
        None => default_base_url.to_owned(),
    };
    let api_key = match file_key {
        FileKey::Keep => match stored {
            Err(m) => {
                return Err(ServiceError::Other(m));
            },
            Ok(st) => carried_key(st, backend, base_url.as_str(), notices),
        },
        FileKey::SetKey(k) => Some(k),
        FileKey::Clear => None,
    };
    Ok(DescriberConfig { backend, base_url, model, api_key })
}

/// What a head reports after clearing keys.
#[derive(Debug)]
pub struct ClearKeyOutcome {
    pub keychain_cleared: bool,
    pub file_cleared: bool,
    pub env_still_supplies: bool,
}

/// Whether the stored config is OpenRouter's — the head's cue to consult
/// the Keychain. Unconfigured or unreadable is `false`.
pub fn wants_keychain(stored: &Result<Option<DescriberConfig>, String>) -> (r: bool)
    ensures
        r == (stored matches Ok(Some(c)) && c.backend == DescriberBackend::OpenRouter),
{
    match stored {
        Ok(Some(config)) => match config.backend {
            DescriberBackend::OpenRouter => true,
            DescriberBackend::Ollama | DescriberBackend::LmStudio => false,
        },
        _ => false,
    }
}

/// `maj describer clear-key`'s file half: the keyless config to store when
/// the stored one holds a key, or `None` when there is no config or no key
/// (and nothing is written).
pub fn clear_file_key(stored: Option<DescriberConfig>) -> (r: Option<DescriberConfig>)
    ensures
        match stored {
            None => r is None,
            Some(c) => if c.api_key is Some {
                r matches Some(k) && k.backend == c.backend && k.base_url == c.base_url && k.model
                    == c.model && k.api_key is None
            } else {
                r is None
            },
        },
{
    match stored {
        None => None,
        Some(config) => {
            if config.api_key.is_none() {
                return None;
            }
            Some(DescriberConfig { api_key: None, ..config })
        },
    }
}

/// What `describer test` learned about the key.
#[derive(Debug, Clone, Copy, PartialEq, Eq, Structural)]
pub enum KeyCheck {
    Accepted,
    Rejected,
    Missing,
    NotChecked,
}

/// Everything `maj describer test` renders.
#[derive(Debug)]
pub struct DescriberProbe {
    pub model: String,
    pub model_listed: bool,
    pub vision: Option<bool>,
    pub key: KeyCheck,
}

/// What asking the backend's key endpoint gave: a verdict, or an error
/// that judged nothing.
#[derive(Debug)]
pub enum KeyVerdict {
    Accepted,
    Rejected,
    Unjudged(String),
}

/// A key a run would find: for OpenRouter the caller's key, then the
/// file's; a local backend reads only the file.
pub open spec fn has_effective_key(config: DescriberConfig, api_key: Option<String>) -> bool {
    (config.backend == DescriberBackend::OpenRouter && api_key is Some) || config.api_key is Some
}

/// Whether a run with `config` and the caller's `api_key` would find a key.
pub fn has_key(config: &DescriberConfig, api_key: &Option<String>) -> (r: bool)
    ensures
        r == has_effective_key(*config, *api_key),
{
    (config.backend == DescriberBackend::OpenRouter && api_key.is_some()) || config.api_key.is_some()
}

/// Whether `describer test` asks the key endpoint: only for OpenRouter
/// with a key to ask about.
pub open spec fn asks_key(config: DescriberConfig, api_key: Option<String>) -> bool {
    config.backend == DescriberBackend::OpenRouter && has_effective_key(config, api_key)
}

pub open spec fn unchecked_key_notice(err: Seq<char>) -> Seq<char> {
    "note: the key was not checked ("@ + err + ")"@
}

/// The key source a head reports agrees with the key a caption run would
/// use (the head's key, which only OpenRouter takes, before the file's): a
/// source is named exactly when the run has a key, and it is the file
/// exactly when the run's key is the file's.
pub proof fn key_source_agrees_with_the_run(config: DescriberConfig, presence: KeyPresence, head_key: Option<String>)
    requires
        presence == KeyPresence::Absent <==> head_key is None,
    ensures
        (key_source_spec(config.backend, config.api_key is Some, presence) == KeySource::Absent)
            <==> !has_effective_key(config, head_key),
        (key_source_spec(config.backend, config.api_key is Some, presence) == KeySource::File)
            <==> (config.api_key is Some && !(config.backend == DescriberBackend::OpenRouter && head_key is Some)),
{
}

/// The key check `describer test` reports: the endpoint's verdict when it
/// was asked (an unjudged answer is `NotChecked`, with a notice), `Missing`
/// for OpenRouter without a key, `NotChecked` for a local backend.
pub fn key_check(config: &DescriberConfig, api_key: &Option<String>, verdict: Option<KeyVerdict>, notices: &mut Notices) -> (k: KeyCheck)
    requires
        asks_key(*config, *api_key) <==> verdict is Some,
    ensures
        config.backend != DescriberBackend::OpenRouter ==> k == KeyCheck::NotChecked && final(notices)@ == old(notices)@,
        config.backend == DescriberBackend::OpenRouter && !has_effective_key(*config, *api_key) ==> k == KeyCheck::Missing && final(notices)@ == old(notices)@,
        asks_key(*config, *api_key) ==> match verdict {
            Some(KeyVerdict::Accepted) => k == KeyCheck::Accepted && final(notices)@ == old(notices)@,
            Some(KeyVerdict::Rejected) => k == KeyCheck::Rejected && final(notices)@ == old(notices)@,
            Some(KeyVerdict::Unjudged(e)) => k == KeyCheck::NotChecked && string_views(final(notices)@) == string_views(old(notices)@).push(unchecked_key_notice(e@)),
            None => false,
        },
{
    let found = has_key(config, api_key);
    match config.backend {
        DescriberBackend::OpenRouter => {
            if !found {
                return KeyCheck::Missing;
            }
            match verdict {
                Some(KeyVerdict::Accepted) => KeyCheck::Accepted,
                Some(KeyVerdict::Rejected) => KeyCheck::Rejected,
                Some(KeyVerdict::Unjudged(e)) => {
                    let ghost before = notices@;
                    let head = cat("note: the key was not checked (", e.as_str());
                    notices.push(cat(head.as_str(), ")"));
                    assert(string_views(notices@) =~= string_views(before).push(unchecked_key_notice(e@)));
                    KeyCheck::NotChecked
                },
                None => KeyCheck::NotChecked,
            }
        },
        DescriberBackend::Ollama | DescriberBackend::LmStudio => KeyCheck::NotChecked,
    }
}

/// `maj describer test`: what the live probe of the stored describer found
/// — the model, whether the backend lists it, its vision report, and the
/// key check. Refuses when no describer is configured.
pub fn test(stored: Option<DescriberConfig>, model_listed: bool, vision: Option<bool>, key: KeyCheck) -> (r: Result<DescriberProbe, ServiceError>)
    ensures
        match stored {
            None => r matches Err(ServiceError::Other(m)) && m@ == "no describer configured — run `maj describer set`"@,
            Some(c) => r matches Ok(p) && p.model@ == c.model@ && p.model_listed == model_listed && p.vision == vision && p.key == key,
        },
{
    match stored {
        None => Err(ServiceError::Other("no describer configured — run `maj describer set`".to_owned())),
        Some(config) => Ok(DescriberProbe { model: config.model, model_listed, vision, key }),
    }
}

} // verus!
