//! The agent's configuration: the values a configuration document may set, their defaults,
//! the command-line overrides, and what the agent derives from them.
use vstd::prelude::*;

use crate::text::{
    chars_of, parse_unsigned, parse_unsigned_range, split_on, split_ranges, string_of_range, trim,
    trim_range,
};

verus! {

/// The panel's listen address when the configuration names none.
pub fn default_listen() -> (s: String)
    ensures
        s@ == "127.0.0.1:8787"@,
{
    "127.0.0.1:8787".to_owned()
}

/// The cgroup that the hook attaches to when the configuration names none (the root: the
/// whole system).
pub fn default_cgroup() -> (s: String)
    ensures
        s@ == "/sys/fs/cgroup"@,
{
    "/sys/fs/cgroup".to_owned()
}

/// The policy file when the configuration names none.
pub fn default_policy() -> (s: String)
    ensures
        s@ == "/etc/soar-agent/policy.yaml"@,
{
    "/etc/soar-agent/policy.yaml".to_owned()
}

/// How many recent events the panel keeps in memory when the configuration names no number.
pub fn default_history() -> (n: usize)
    ensures
        n == 500,
{
    500
}

/// The agent's configuration.
#[derive(Debug)]
pub struct Config {
    /// Listen address of the web panel, such as `127.0.0.1:8787`.
    pub listen: String,
    /// Access token of the panel. Empty: no authentication (advisable on localhost only).
    pub token: String,
    /// A file holding the access token, read when `token` is empty.
    pub token_file: Option<String>,
    /// Whether the web panel runs; without it the agent only enforces.
    pub panel: bool,
    /// The cgroup that the hook attaches to (the root by default: the whole system).
    pub cgroup: String,
    /// The policy file (YAML) that is saved and reloaded.
    pub policy: String,
    /// The JSONL file that events are appended to. None: events are not kept.
    pub log: Option<String>,
    /// How many recent events are kept in memory for the panel.
    pub history: usize,
}

impl Default for Config {
    /// The panel on 127.0.0.1:8787 without a token, the whole system's cgroup, the policy in
    /// /etc/soar-agent/policy.yaml, no event log, and 500 recent events.
    fn default() -> (c: Self)
        ensures
            c.listen@ == "127.0.0.1:8787"@,
            c.token@.len() == 0,
            c.token_file.is_none(),
            c.panel,
            c.cgroup@ == "/sys/fs/cgroup"@,
            c.policy@ == "/etc/soar-agent/policy.yaml"@,
            c.log.is_none(),
            c.history == 500,
    {
        Config {
            listen: default_listen(),
            token: String::new(),
            token_file: None,
            panel: true,
            cgroup: default_cgroup(),
            policy: default_policy(),
            log: None,
            history: default_history(),
        }
    }
}

/// The port that a listen address names: the text after its last `:` (the whole text when
/// it has none), read as an unsigned 16-bit number.
pub open spec fn listen_port(listen: Seq<char>) -> Option<u16> {
    match parse_unsigned(split_on(listen, ':').last(), 0x1_0000) {
        Some(n) => Some(n as u16),
        None => None,
    }
}

/// The access token that the panel asks for: the configured token when it is not empty,
/// else the trimmed text of the token file when that is not empty; none otherwise.
pub open spec fn chosen_token(token: Seq<char>, file_text: Option<Seq<char>>) -> Option<Seq<char>> {
    if token.len() > 0 {
        Some(token)
    } else {
        match file_text {
            Some(t) => if trim(t).len() > 0 {
                Some(trim(t))
            } else {
                None
            },
            None => None,
        }
    }
}

/// The model of an optional string.
pub open spec fn opt_text(s: Option<String>) -> Option<Seq<char>> {
    match s {
        Some(t) => Some(t@),
        None => None,
    }
}

impl Config {
    /// The configuration with the command-line values put in place of the configured ones:
    /// the listen address, the token and the cgroup, each when given.
    pub fn with_overrides(
        self,
        listen: Option<String>,
        token: Option<String>,
        cgroup: Option<String>,
    ) -> (c: Config)
        ensures
            c.listen@ == (match listen {
                Some(l) => l@,
                None => self.listen@,
            }),
            c.token@ == (match token {
                Some(t) => t@,
                None => self.token@,
            }),
            c.cgroup@ == (match cgroup {
                Some(g) => g@,
                None => self.cgroup@,
            }),
            opt_text(c.token_file) == opt_text(self.token_file),
            c.panel == self.panel,
            c.policy@ == self.policy@,
            opt_text(c.log) == opt_text(self.log),
            c.history == self.history,
    {
        let mut c = self;
        if let Some(l) = listen {
            c.listen = l;
        }
        if let Some(t) = token {
            c.token = t;
        }
        if let Some(g) = cgroup {
            c.cgroup = g;
        }
        c
    }

    /// The port of the panel's own listen address, when it names one. The agent does not
    /// record connections to it on loopback, so the panel's own traffic stays out of the
    /// history.
    pub fn panel_port(&self) -> (p: Option<u16>)
        ensures
            p == listen_port(self.listen@),
    {
        panel_port_of(self.listen.as_str())
    }

    /// The access token that the panel asks for, given the text of the token file when it
    /// could be read: the configured token when it is not empty, else the trimmed file text
    /// when that is not empty; `None` means that the panel asks for none.
    pub fn resolved_token(&self, file_text: Option<&str>) -> (t: Option<String>)
        ensures
            opt_text(t) == chosen_token(
                self.token@,
                match file_text {
                    Some(f) => Some(f@),
                    None => None,
                },
            ),
    {
        let cs = chars_of(self.token.as_str());
        assert(cs@.subrange(0, cs.len() as int) =~= self.token@);
        if cs.len() > 0 {
            return Some(string_of_range(&cs, 0, cs.len()));
        }
        match file_text {
            Some(f) => {
                let fc = chars_of(f);
                let (a, z) = trim_range(&fc, 0, fc.len());
                assert(fc@.subrange(0, fc.len() as int) =~= f@);
                if z > a {
                    Some(string_of_range(&fc, a, z))
                } else {
                    None
                }
            },
            None => None,
        }
    }
}

/// The port that the listen address `listen` names: the text after its last `:` (the whole
/// text when it has none), read as an unsigned 16-bit number.
pub fn panel_port_of(listen: &str) -> (p: Option<u16>)
    ensures
        p == listen_port(listen@),
{
    let cs = chars_of(listen);
    let parts = split_ranges(&cs, 0, cs.len(), ':');
    assert(cs@.subrange(0, cs.len() as int) =~= listen@);
    let last = parts.len() - 1;
    match parse_unsigned_range(&cs, parts[last].0, parts[last].1, 0xffff) {
        Some(v) => Some(v as u16),
        None => None,
    }
}

} // verus!
