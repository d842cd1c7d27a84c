//! The configuration snapshot handed to the core.
use vstd::prelude::*;

verus! {

/// Settings of the daemon. Durations are in milliseconds.
pub struct Config {
    /// Languages whose reports are dropped.
    pub ignored_languages: Vec<String>,
    /// How long a connection with no open session may stay silent.
    pub timeout: u64,
    /// How often the open log entry's end time is refreshed.
    pub heartbeat_frequency: u64,
    /// Quiescence window of the debouncer.
    pub debounce_amount: u64,
}

/// Default idle timeout of a connection: 20 s.
pub fn default_timeout() -> (r: u64)
    ensures
        r == 20_000,
{
    20_000
}

/// Default heartbeat period: 20 s.
pub fn default_heartbeat() -> (r: u64)
    ensures
        r == 20_000,
{
    20_000
}

/// Default debounce window: 5 s.
pub fn default_debounce() -> (r: u64)
    ensures
        r == 5_000,
{
    5_000
}

impl Config {
    /// The ignored languages as a set of texts.
    pub open spec fn ignored(&self) -> Set<Seq<char>> {
        Set::new(|t: Seq<char>| exists|i: int| 0 <= i < self.ignored_languages@.len() && #[trigger] self.ignored_languages@[i]@ == t)
    }

    /// Whether reports for `language` are dropped.
    pub fn is_ignored(&self, language: &str) -> (r: bool)
        ensures
            r == self.ignored().contains(language@),
    {
        let wanted = language.to_owned();
        let mut i: usize = 0;
        while i < self.ignored_languages.len()
            invariant
                i <= self.ignored_languages@.len(),
                wanted@ == language@,
                forall|j: int| 0 <= j < i ==> self.ignored_languages@[j]@ != language@,
            decreases self.ignored_languages@.len() - i,
        {
            if self.ignored_languages[i] == wanted {
                return true;
            }
            i = i + 1;
        }
        false
    }
}

impl Default for Config {
    /// No ignored language and the default durations.
    fn default() -> (r: Config)
        ensures
            r.ignored_languages@.len() == 0,
            r.timeout == 20_000,
            r.heartbeat_frequency == 20_000,
            r.debounce_amount == 5_000,
    {
        Config {
            ignored_languages: Vec::new(),
            timeout: default_timeout(),
            heartbeat_frequency: default_heartbeat(),
            debounce_amount: default_debounce(),
        }
    }
}

} // verus!
