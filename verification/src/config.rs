//! The configured backend list and its language-name filtering.
use vstd::prelude::*;

verus! {

/// One configured backend language server.
#[derive(Debug, Clone)]
pub struct Language {
    /// Name of the programming language this server handles.
    pub name: String,
    /// Path of the executable to spawn.
    pub command: String,
    /// Arguments handed to the executable.
    pub args: Vec<String>,
}

/// The configured list of backend language servers, in the order in which
/// messages fan back in to the client.
#[derive(Debug, Clone)]
pub struct LspConfig {
    pub languages: Vec<Language>,
}

/// Why no usable backend list could be produced.
#[derive(Debug)]
pub enum ConfigError {
    /// The configuration lists no language server at all.
    NoLanguageServer,
    /// No configured language server matches the requested language name.
    NoLanguageServerFor(String),
}

/// The entries of `s` whose name reads `name`, in their configured order.
pub open spec fn spec_filter_named(s: Seq<Language>, name: Seq<char>) -> Seq<Language>
    decreases s.len(),
{
    if s.len() == 0 {
        Seq::empty()
    } else {
        let rest = spec_filter_named(s.skip(1), name);
        if s[0].name@ == name {
            seq![s[0]] + rest
        } else {
            rest
        }
    }
}

/// Narrows a configured backend list by an optional language name, as the
/// command line requests it: with no filter the list is kept whole; with a
/// filter only entries of that name remain, in configured order. An empty
/// result is refused, naming the filter when one was given.
pub fn select_languages(config: LspConfig, filter: Option<String>) -> (r: Result<
    LspConfig,
    ConfigError,
>)
    ensures
        match filter {
            None => match r {
                Ok(c) => c.languages@ == config.languages@ && config.languages@.len() > 0,
                Err(e) => e == ConfigError::NoLanguageServer && config.languages@.len() == 0,
            },
            Some(f) => match r {
                Ok(c) => c.languages@ == spec_filter_named(config.languages@, f@)
                    && spec_filter_named(config.languages@, f@).len() > 0,
                Err(e) => e matches ConfigError::NoLanguageServerFor(g) && g@ == f@
                    && spec_filter_named(config.languages@, f@).len() == 0,
            },
        },
{
    match filter {
        None => {
            if config.languages.len() == 0 {
                Err(ConfigError::NoLanguageServer)
            } else {
                Ok(config)
            }
        },
        Some(f) => {
            let LspConfig { languages } = config;
            let ghost orig = languages@;
            let mut remaining = languages;
            let mut kept: Vec<Language> = Vec::new();
            proof {
                assert(orig.skip(0) =~= orig);
            }
            let ghost done: Seq<Language> = Seq::empty();
            while remaining.len() > 0
                invariant
                    orig =~= done + remaining@,
                    kept@ =~= spec_filter_named(done, f@),
                    spec_filter_named(orig, f@) =~= spec_filter_named(done, f@)
                        + spec_filter_named(remaining@, f@),
                decreases remaining.len(),
            {
                let ghost done_pre = done;
                let ghost rem_pre = remaining@;
                let l = remaining.remove(0);
                proof {
                    done = done_pre.push(l);
                    assert(rem_pre[0] == l);
                    assert(rem_pre.skip(1) =~= remaining@);
                    lemma_filter_named_push(done_pre, l, f@);
                }
                if l.name == f {
                    kept.push(l);
                } else {
                    assert(spec_filter_named(rem_pre, f@) == spec_filter_named(remaining@, f@));
                }
            }
            assert(spec_filter_named(remaining@, f@) =~= Seq::empty());
            assert(kept@ =~= spec_filter_named(orig, f@));
            if kept.len() == 0 {
                Err(ConfigError::NoLanguageServerFor(f))
            } else {
                Ok(LspConfig { languages: kept })
            }
        },
    }
}

/// Filtering a list extended by one entry keeps the filtered prefix and
/// appends the entry exactly when its name matches.
proof fn lemma_filter_named_push(s: Seq<Language>, l: Language, name: Seq<char>)
    ensures
        spec_filter_named(s.push(l), name) == if l.name@ == name {
            spec_filter_named(s, name).push(l)
        } else {
            spec_filter_named(s, name)
        },
    decreases s.len(),
{
    if s.len() == 0 {
        assert(s.push(l).skip(1) =~= Seq::<Language>::empty());
        assert(spec_filter_named(Seq::<Language>::empty(), name) == Seq::<Language>::empty());
        assert(s.push(l)[0] == l);
        if l.name@ == name {
            assert(spec_filter_named(s.push(l), name) =~= seq![l]);
            assert(spec_filter_named(s, name).push(l) =~= seq![l]);
        }
    } else {
        assert(s.push(l).skip(1) =~= s.skip(1).push(l));
        lemma_filter_named_push(s.skip(1), l, name);
        assert(s.push(l)[0] == s[0]);
        if s[0].name@ == name {
            if l.name@ == name {
                assert(seq![s[0]] + spec_filter_named(s.skip(1), name).push(l)
                    =~= (seq![s[0]] + spec_filter_named(s.skip(1), name)).push(l));
            }
        }
    }
}

} // verus!
