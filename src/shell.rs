//! The shell provider: it offers the typed command, followed by matching
//! commands of its history, and records each command that is run.
use vstd::prelude::*;
use crate::history::{History, pushed};
use crate::ranker::{rank, ranked, scores_for, scores_of};

verus! {

/// The history settings of the provider.
#[derive(Debug, Clone, Copy, PartialEq, Eq, Structural)]
pub struct HistoryConfig {
    pub capacity: usize,
}

/// The provider's configuration.
#[derive(Debug)]
pub struct Config {
    /// What an input has to start with to be taken as a command.
    pub prefix: String,
    /// The shell that runs commands; when absent, the user's shell.
    pub shell: Option<String>,
    /// The most titles offered for one input.
    pub max_entries: usize,
    /// The history settings; when absent, no history is kept.
    pub history: Option<HistoryConfig>,
}

impl Config {
    /// The number of titles offered when the configuration does not say.
    pub fn default_max_entries() -> (r: usize)
        ensures
            r == 10,
    {
        10
    }
}

impl Default for Config {
    fn default() -> (r: Config)
        ensures
            r.prefix@ == ":sh"@,
            r.shell is None,
            r.max_entries == 10,
            r.history is None,
    {
        Config {
            prefix: ":sh".to_owned(),
            shell: None,
            max_entries: Config::default_max_entries(),
            history: None,
        }
    }
}

/// The result of `trim` on the given characters.
pub uninterp spec fn trimmed(s: Seq<char>) -> Seq<char>;

/// Relies on `str::trim`: leading and trailing white space is removed, and
/// the result depends on the characters alone.
#[verifier::external_body]
fn trim(s: &str) -> (r: &str)
    ensures
        r@ == trimmed(s@),
{
    s.trim()
}

/// Relies on `str::strip_prefix`: the rest of `s` after `prefix`, where `s`
/// starts with it.
#[verifier::external_body]
fn strip_prefix<'a>(s: &'a str, prefix: &str) -> (r: Option<&'a str>)
    ensures
        r is Some <==> prefix@.is_prefix_of(s@),
        r is Some ==> r->0@ == s@.skip(prefix@.len() as int),
{
    s.strip_prefix(prefix)
}

/// The titles offered for an input, given the commands of the history.
pub open spec fn matches_spec(input: Seq<char>, prefix: Seq<char>, max_entries: nat, items: Seq<Seq<char>>) -> Seq<Seq<char>> {
    if prefix.is_prefix_of(input) {
        let query = trimmed(input.skip(prefix.len() as int));
        if query.len() == 0 {
            Seq::empty()
        } else {
            ranked(query, items, scores_for(items, query), max_entries)
        }
    } else {
        Seq::empty()
    }
}

/// The provider's state: its configuration and, when enabled, its history.
pub struct State {
    pub config: Config,
    pub history: Option<History>,
}

impl State {
    /// The history, where there is one, holds no command twice.
    pub open spec fn wf(&self) -> bool {
        self.history matches Some(h) ==> h.wf()
    }

    /// The commands of the history, or none where it is disabled.
    pub open spec fn items(&self) -> Seq<Seq<char>> {
        match self.history {
            Some(h) => h@,
            None => Seq::empty(),
        }
    }

    /// A state with the given configuration and history.
    pub fn new(config: Config, history: Option<History>) -> (r: State)
        ensures
            r.config == config,
            r.history == history,
    {
        State { config, history }
    }

    /// The titles offered for an input: nothing unless it starts with the
    /// prefix and something other than white space follows; otherwise the
    /// rest, trimmed, and then the history's commands that match it, best
    /// first, `max_entries` titles at most.
    pub fn get_matches(&self, input: &str) -> (r: Vec<String>)
        ensures
            r@.map_values(|x: String| x@) == matches_spec(input@, self.config.prefix@, self.config.max_entries as nat, self.items()),
    {
        match strip_prefix(input, self.config.prefix.as_str()) {
            None => Vec::new(),
            Some(rest) => {
                let query = trim(rest);
                if query.is_empty() {
                    Vec::new()
                } else {
                    let items: Vec<String> = match &self.history {
                        Some(h) => h.elements(),
                        None => Vec::new(),
                    };
                    proof {
                        assert(items@.map_values(|x: String| x@) =~= self.items());
                    }
                    let scores = scores_of(&items, query);
                    rank(query, &items, &scores, self.config.max_entries)
                }
            },
        }
    }

    /// Records a selected command in the history, where there is one. Running
    /// the command is up to the caller.
    pub fn handle(&mut self, title: String)
        requires
            old(self).wf(),
        ensures
            final(self).wf(),
            final(self).config == old(self).config,
            final(self).history is Some == old(self).history is Some,
            final(self).history matches Some(h) ==> h@ == pushed(old(self).items(), title@, h.capacity())
                && h.capacity() == old(self).history->0.capacity()
                && h.backing() == old(self).history->0.backing(),
    {
        match &mut self.history {
            Some(h) => h.push(title),
            None => {},
        }
    }
}

} // verus!
