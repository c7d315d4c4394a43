//! User configuration: defaults injected at startup as an explicit
//! dependency rather than ambient global state. Loading the configuration
//! file lives outside, in the unverified shell.

use vstd::prelude::*;

use crate::error::Error;
use crate::task::opt_view;

verus! {

/// Default values a command falls back to.
pub struct Defaults {
    pub team: Option<String>,
}

/// The user configuration.
pub struct Config {
    pub defaults: Defaults,
}

impl Config {
    /// A configuration with no defaults set.
    pub fn empty() -> (r: Config)
        ensures
            r.defaults.team is None,
    {
        Config { defaults: Defaults { team: None } }
    }

    /// The configured defaults.
    pub fn defaults(&self) -> (r: &Defaults)
        ensures
            r == &self.defaults,
    {
        &self.defaults
    }
}

/// The configured default team; an error when none is configured.
pub fn default_team(c: &Config) -> (r: Result<String, Error>)
    ensures
        r is Ok <==> c.defaults.team is Some,
        r matches Ok(t) ==> opt_view(c.defaults.team) == Option::Some(t@),
        r matches Err(e) ==> e is Msg,
{
    match &c.defaults.team {
        Some(t) => Ok(t.clone()),
        None => Err(Error::Msg(String::from_str("Default team not specified"))),
    }
}

} // verus!
