//! The device token: where it comes from, and how long it is remembered.
use vstd::prelude::*;

use crate::paths::{join_of, join_path, PathStyle};
use crate::seqs::opt_text;
use crate::text::{trim, trim_of};

verus! {

/// The token as far as it is known, and where it is kept.
#[derive(Debug)]
pub struct TokenStore {
    /// The file that holds the token. Set once.
    pub path: Option<String>,
    /// The token, once it was found or stored.
    pub cache: Option<String>,
}

/// The token that is found where none is remembered: the one in the environment unless it
/// is empty, else the trimmed content of the file unless that is blank.
pub open spec fn found_token(env: Option<Seq<char>>, file: Option<Seq<char>>) -> Option<Seq<char>> {
    if env is Some && env->0.len() > 0 {
        env
    } else if file is Some && trim_of(file->0).len() > 0 {
        Some(trim_of(file->0))
    } else {
        None
    }
}

/// The token in use: the one that is remembered, else the one that is found.
pub open spec fn token_of(
    s: TokenStore,
    env: Option<Seq<char>>,
    file: Option<Seq<char>>,
) -> Option<Seq<char>> {
    if s.cache is Some {
        Some(s.cache->0@)
    } else {
        found_token(
            env,
            if s.path is Some {
                file
            } else {
                None
            },
        )
    }
}

/// How the removal of the token file ended.
#[derive(Debug, Clone, Copy, PartialEq, Eq, Structural)]
pub enum RemoveOutcome {
    Removed,
    NotFound,
    Failed,
}

impl TokenStore {
    /// A store that knows nothing yet.
    pub fn new() -> (s: Self)
        ensures
            s.path is None,
            s.cache is None,
    {
        TokenStore { path: None, cache: None }
    }

    /// Keeps the token in the file `device-token` of `config_dir`. Only the first call
    /// counts.
    pub fn init(&mut self, style: PathStyle, config_dir: &str)
        ensures
            match old(self).path {
                Some(_) => *final(self) == *old(self),
                None => {
                    &&& final(self).path is Some
                    &&& final(self).path->0@ == join_of(style, config_dir@, "device-token"@)
                    &&& final(self).cache == old(self).cache
                },
            },
    {
        if self.path.is_none() {
            self.path = Some(join_path(style, config_dir, "device-token"));
        }
    }

    /// The file to write a token to, if there is one.
    pub fn token_path(&self) -> (r: Result<String, String>)
        ensures
            match r {
                Ok(p) => self.path is Some && p@ == self.path->0@,
                Err(e) => self.path is None && e@ == "token path not initialized"@,
            },
    {
        match &self.path {
            Some(p) => Ok(p.clone()),
            None => Err("token path not initialized".to_string()),
        }
    }

    /// Remembers a token that was written to the file.
    pub fn store_token(&mut self, token: &str)
        ensures
            final(self).cache is Some,
            final(self).cache->0@ == token@,
            final(self).path == old(self).path,
    {
        self.cache = Some(token.to_string());
    }

    /// The token in use. `env` is the value of `UPLINK_DEVICE_TOKEN`, and `file` the
    /// content of the token file, where there is one. What was found is remembered.
    pub fn get_token(&mut self, env: Option<&str>, file: Option<&str>) -> (token: Option<String>)
        ensures
            opt_text(token) == token_of(
                *old(self),
                crate::config::opt_str(env),
                crate::config::opt_str(file),
            ),
            opt_text(final(self).cache) == opt_text(token),
            final(self).path == old(self).path,
    {
        if let Some(t) = &self.cache {
            return Some(t.clone());
        }
        if let Some(e) = env {
            if !e.is_empty() {
                self.cache = Some(e.to_string());
                return Some(e.to_string());
            }
        }
        if self.path.is_none() {
            return None;
        }
        if let Some(f) = file {
            let t = trim(f);
            if !t.as_str().is_empty() {
                self.cache = Some(t.clone());
                return Some(t);
            }
        }
        None
    }

    /// Whether there is a token.
    pub fn has_token(&mut self, env: Option<&str>, file: Option<&str>) -> (yes: bool)
        ensures
            yes == (token_of(
                *old(self),
                crate::config::opt_str(env),
                crate::config::opt_str(file),
            ) is Some),
            opt_text(final(self).cache) == token_of(
                *old(self),
                crate::config::opt_str(env),
                crate::config::opt_str(file),
            ),
            final(self).path == old(self).path,
    {
        self.get_token(env, file).is_some()
    }

    /// Forgets the token. Returns the file to remove, if there is one.
    pub fn clear_token(&mut self) -> (file: Option<String>)
        ensures
            final(self).cache is None,
            final(self).path == old(self).path,
            opt_text(file) == opt_text(old(self).path),
    {
        self.cache = None;
        match &self.path {
            Some(p) => Some(p.clone()),
            None => None,
        }
    }
}

/// What the removal of the token file means: a file that is not there was removed before.
pub fn cleared(outcome: RemoveOutcome, error: &str) -> (r: Result<(), String>)
    ensures
        match r {
            Ok(_) => outcome != RemoveOutcome::Failed,
            Err(e) => outcome == RemoveOutcome::Failed && e@ == "token clear failed: "@ + error@,
        },
{
    match outcome {
        RemoveOutcome::Removed => Ok(()),
        RemoveOutcome::NotFound => Ok(()),
        RemoveOutcome::Failed => Err(crate::text::join2("token clear failed: ", error)),
    }
}

/// A token that was stored is the one in use, whatever the environment and the file say;
/// after it was cleared, only what they say counts.
pub proof fn law_stored_token_is_in_use(
    s: TokenStore,
    env: Option<Seq<char>>,
    file: Option<Seq<char>>,
)
    ensures
        s.cache is Some ==> token_of(s, env, file) == Some(s.cache->0@),
        s.cache is None && s.path is Some ==> token_of(s, env, file) == found_token(env, file),
        s.cache is None && s.path is None ==> token_of(s, env, file) == found_token(env, None),
{
}

/// The token in the environment comes first, as it is; then that of the file, without the
/// white space around it. What is empty, or in the file blank, is no token.
pub proof fn law_token_is_looked_for_in_order(env: Seq<char>, file: Seq<char>)
    ensures
        env.len() > 0 ==> found_token(Some(env), Some(file)) == Some(env) && found_token(
            Some(env),
            None,
        ) == Some(env),
        env.len() == 0 ==> found_token(Some(env), Some(file)) == found_token(None, Some(file)),
        trim_of(file).len() > 0 ==> found_token(None, Some(file)) == Some(trim_of(file)),
        trim_of(file).len() == 0 ==> found_token(None, Some(file)) is None,
        found_token(None, None) is None,
{
}

} // verus!
