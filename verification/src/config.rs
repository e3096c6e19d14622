//! Resolution settings: loaded once into a plain value and handed to the
//! resolver as an explicit parameter. Values that fail their grammar are
//! rejected here, before any resolution runs.

use vstd::prelude::*;

use crate::error::MinverError;
use crate::grammar::check_ident_text;
use crate::grammar::is_build_text;
use crate::grammar::is_prerelease_text;
use crate::grammar::str_eq;
use crate::semver::Level;

verus! {

/// How much the surrounding tooling should log.
#[derive(Debug, Clone, Copy, PartialEq, Eq)]
pub enum LogLevel {
    Error,
    Warn,
    Info,
    Debug,
    Trace,
}

/// The settings of one resolution call.
#[derive(Debug)]
pub struct MinverConfig {
    /// Output verbosity of the surrounding tooling.
    pub log_level: LogLevel,
    /// Which component is bumped when the height is positive.
    pub auto_increment_level: Level,
    /// Extra build metadata always appended to the result.
    pub build_metadata: Option<String>,
    /// The label used for untagged and default versions.
    pub prerelease_identifier: String,
    /// The literal prefix a tag must carry to count as a version tag.
    pub tag_prefix: String,
}

/// The mathematical shape of a configuration.
pub ghost struct ConfigView {
    pub log_level: LogLevel,
    pub auto_increment_level: Level,
    pub build_metadata: Option<Seq<char>>,
    pub prerelease_identifier: Seq<char>,
    pub tag_prefix: Seq<char>,
}

impl View for MinverConfig {
    type V = ConfigView;

    open spec fn view(&self) -> ConfigView {
        ConfigView {
            log_level: self.log_level,
            auto_increment_level: self.auto_increment_level,
            build_metadata: match self.build_metadata {
                Some(m) => Some(m@),
                None => None,
            },
            prerelease_identifier: self.prerelease_identifier@,
            tag_prefix: self.tag_prefix@,
        }
    }
}

/// A well-formed configuration: its texts satisfy the grammar of their
/// positions. `from_settings` and `default` only build such values.
pub open spec fn config_wf(c: ConfigView) -> bool {
    &&& is_prerelease_text(c.prerelease_identifier)
    &&& match c.build_metadata {
        Some(b) => is_build_text(b),
        None => true,
    }
}

/// The default prerelease label satisfies the prerelease grammar.
proof fn lemma_alpha_is_prerelease_text()
    ensures
        is_prerelease_text("alpha"@),
{
    reveal_strlit("alpha");
    let s = "alpha"@;
    assert(s =~= seq!['a', 'l', 'p', 'h', 'a']);
    assert(forall|i: int| 0 <= i < s.len() ==> s[i] != '.');
    crate::grammar::lemma_split_dots_whole(s);
    assert(crate::grammar::split_dots(s) =~= seq![s]);
    assert forall|i: int| 0 <= i < crate::grammar::split_dots(s).len() implies
        crate::grammar::is_prerelease_ident(#[trigger] crate::grammar::split_dots(s)[i]) by {
        assert(crate::grammar::split_dots(s)[i] == s);
        assert(!crate::grammar::spec_is_digit(s[0]));
        assert(forall|j: int| 0 <= j < s.len() ==> crate::grammar::spec_is_ident_char(s[j]));
        assert(crate::grammar::is_alphanum_ident(s));
    }
}

/// Case-insensitive equality of two ASCII characters.
pub open spec fn chars_ieq(a: char, b: char) -> bool {
    ||| a == b
    ||| ('A' <= a && a <= 'Z' && (a as u32) + 32 == (b as u32))
    ||| ('A' <= b && b <= 'Z' && (b as u32) + 32 == (a as u32))
}

/// Case-insensitive equality of two texts.
pub open spec fn spec_str_ieq(a: Seq<char>, b: Seq<char>) -> bool {
    a.len() == b.len() && forall|i: int| 0 <= i < a.len() ==> chars_ieq(a[i], b[i])
}

/// The log level a name denotes; the match ignores ASCII case, as the
/// usual logging tools do.
pub open spec fn spec_log_level_from_name(s: Seq<char>) -> Option<LogLevel> {
    if spec_str_ieq(s, "error"@) {
        Some(LogLevel::Error)
    } else if spec_str_ieq(s, "warn"@) {
        Some(LogLevel::Warn)
    } else if spec_str_ieq(s, "info"@) {
        Some(LogLevel::Info)
    } else if spec_str_ieq(s, "debug"@) {
        Some(LogLevel::Debug)
    } else if spec_str_ieq(s, "trace"@) {
        Some(LogLevel::Trace)
    } else {
        None
    }
}

/// The bump level a name denotes; the match is exact.
pub open spec fn spec_level_from_name(s: Seq<char>) -> Option<Level> {
    if s == "Major"@ {
        Some(Level::Major)
    } else if s == "Minor"@ {
        Some(Level::Minor)
    } else if s == "Patch"@ {
        Some(Level::Patch)
    } else {
        None
    }
}

/// Case-insensitive equality of two texts.
fn str_ieq(a: &str, b: &str) -> (r: bool)
    ensures
        r == spec_str_ieq(a@, b@),
{
    let n = a.unicode_len();
    let m = b.unicode_len();
    if n != m {
        return false;
    }
    let mut i: usize = 0;
    while i < n
        invariant
            n == a@.len(),
            n == b@.len(),
            i <= n,
            forall|j: int| 0 <= j < i ==> chars_ieq(a@[j], b@[j]),
        decreases n - i,
    {
        let ca = a.get_char(i);
        let cb = b.get_char(i);
        let same = ca == cb || ('A' <= ca && ca <= 'Z' && (ca as u32) + 32 == (cb as u32)) || ('A'
            <= cb && cb <= 'Z' && (cb as u32) + 32 == (ca as u32));
        if !same {
            proof {
                assert(!chars_ieq(a@[i as int], b@[i as int]));
            }
            return false;
        }
        i = i + 1;
    }
    true
}

impl LogLevel {
    /// The level a name denotes, ignoring ASCII case.
    pub fn from_name(name: &str) -> (r: Option<LogLevel>)
        ensures
            r == spec_log_level_from_name(name@),
    {
        if str_ieq(name, "error") {
            Some(LogLevel::Error)
        } else if str_ieq(name, "warn") {
            Some(LogLevel::Warn)
        } else if str_ieq(name, "info") {
            Some(LogLevel::Info)
        } else if str_ieq(name, "debug") {
            Some(LogLevel::Debug)
        } else if str_ieq(name, "trace") {
            Some(LogLevel::Trace)
        } else {
            None
        }
    }
}

impl Level {
    /// The level a name denotes; the match is exact.
    pub fn from_name(name: &str) -> (r: Option<Level>)
        ensures
            r == spec_level_from_name(name@),
    {
        if str_eq(name, "Major") {
            Some(Level::Major)
        } else if str_eq(name, "Minor") {
            Some(Level::Minor)
        } else if str_eq(name, "Patch") {
            Some(Level::Patch)
        } else {
            None
        }
    }
}

/// Accepts exactly the texts that satisfy the build-metadata grammar.
pub fn check_build_metadata(metadata: &String) -> (r: Result<(), MinverError>)
    ensures
        r is Ok <==> is_build_text(metadata@),
        r matches Err(e) ==> e is InvalidBuildMetadata,
{
    let s = metadata.as_str();
    let n = s.unicode_len();
    proof {
        assert(s@.subrange(0, n as int) =~= metadata@);
    }
    if check_ident_text(s, 0, n, false) {
        Ok(())
    } else {
        Err(MinverError::InvalidBuildMetadata)
    }
}

/// Accepts exactly the texts that satisfy the prerelease grammar.
pub fn check_prerelease_identifier(identifier: &String) -> (r: Result<(), MinverError>)
    ensures
        r is Ok <==> is_prerelease_text(identifier@),
        r matches Err(e) ==> e is InvalidPrereleaseIdentifier,
{
    let s = identifier.as_str();
    let n = s.unicode_len();
    proof {
        assert(s@.subrange(0, n as int) =~= identifier@);
    }
    if check_ident_text(s, 0, n, true) {
        Ok(())
    } else {
        Err(MinverError::InvalidPrereleaseIdentifier)
    }
}

impl MinverConfig {
    /// The default settings: warn-level logging, patch bumps, no extra
    /// metadata, the "alpha" prerelease label, and no tag prefix.
    pub fn default() -> (r: MinverConfig)
        ensures
            r@.log_level == LogLevel::Warn,
            r@.auto_increment_level == Level::Patch,
            r@.build_metadata is None,
            r@.prerelease_identifier == "alpha"@,
            r@.tag_prefix == Seq::<char>::empty(),
            config_wf(r@),
    {
        proof {
            lemma_alpha_is_prerelease_text();
        }
        MinverConfig {
            log_level: LogLevel::Warn,
            auto_increment_level: Level::Patch,
            build_metadata: None,
            prerelease_identifier: String::from_str("alpha"),
            tag_prefix: String::new(),
        }
    }

    /// Builds a configuration from optional textual settings, falling back
    /// to the defaults where a setting is absent. A present setting that
    /// fails its grammar is a fatal error; the tag prefix is free-form.
    pub fn from_settings(
        log_level: Option<String>,
        auto_increment_level: Option<String>,
        build_metadata: Option<String>,
        prerelease_identifier: Option<String>,
        tag_prefix: Option<String>,
    ) -> (r: Result<MinverConfig, MinverError>)
        ensures
            r is Ok <==> {
                &&& match log_level {
                    Some(s) => spec_log_level_from_name(s@) is Some,
                    None => true,
                }
                &&& match auto_increment_level {
                    Some(s) => spec_level_from_name(s@) is Some,
                    None => true,
                }
                &&& match build_metadata {
                    Some(s) => is_build_text(s@),
                    None => true,
                }
                &&& match prerelease_identifier {
                    Some(s) => is_prerelease_text(s@),
                    None => true,
                }
            },
            r matches Ok(c) ==> {
                &&& c@.log_level == (match log_level {
                    Some(s) => spec_log_level_from_name(s@)->0,
                    None => LogLevel::Warn,
                })
                &&& c@.auto_increment_level == (match auto_increment_level {
                    Some(s) => spec_level_from_name(s@)->0,
                    None => Level::Patch,
                })
                &&& c@.build_metadata == (match build_metadata {
                    Some(s) => Some(s@),
                    None => None::<Seq<char>>,
                })
                &&& c@.prerelease_identifier == (match prerelease_identifier {
                    Some(s) => s@,
                    None => "alpha"@,
                })
                &&& c@.tag_prefix == (match tag_prefix {
                    Some(s) => s@,
                    None => Seq::<char>::empty(),
                })
            },
            r matches Ok(c) ==> config_wf(c@),
            r matches Err(e) ==> (e is InvalidLogLevel || e is InvalidLevel
                || e is InvalidBuildMetadata || e is InvalidPrereleaseIdentifier),
    {
        proof {
            lemma_alpha_is_prerelease_text();
        }
        let log = match log_level {
            Some(s) => match LogLevel::from_name(s.as_str()) {
                Some(l) => l,
                None => {
                    return Err(MinverError::InvalidLogLevel);
                },
            },
            None => LogLevel::Warn,
        };
        let level = match auto_increment_level {
            Some(s) => match Level::from_name(s.as_str()) {
                Some(l) => l,
                None => {
                    return Err(MinverError::InvalidLevel);
                },
            },
            None => Level::Patch,
        };
        let metadata = match build_metadata {
            Some(s) => {
                if let Err(e) = check_build_metadata(&s) {
                    return Err(e);
                }
                Some(s)
            },
            None => None,
        };
        let prerelease = match prerelease_identifier {
            Some(s) => {
                if let Err(e) = check_prerelease_identifier(&s) {
                    return Err(e);
                }
                s
            },
            None => String::from_str("alpha"),
        };
        let prefix = match tag_prefix {
            Some(s) => s,
            None => String::new(),
        };
        Ok(
            MinverConfig {
                log_level: log,
                auto_increment_level: level,
                build_metadata: metadata,
                prerelease_identifier: prerelease,
                tag_prefix: prefix,
            },
        )
    }
}

} // verus!
