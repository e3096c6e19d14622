//! The SemVer 2.0 data model: parsing, canonical rendering, precedence
//! comparison, and the pure update operations that derive new versions.

use core::cmp::Ordering;
use vstd::prelude::*;

use crate::error::MinverError;
use crate::grammar::check_ident_text;
use crate::grammar::cmp_chars;
use crate::grammar::cmp_chars_range;
use crate::grammar::cmp_nat;
use crate::grammar::cmp_numeric_range;
use crate::grammar::dec_digits;
use crate::grammar::digits_val;
use crate::grammar::find_char_in;
use crate::grammar::find_first;
use crate::grammar::is_build_text;
use crate::grammar::is_digits;
use crate::grammar::is_digits_range;
use crate::grammar::is_numeric_field;
use crate::grammar::is_prerelease_text;
use crate::grammar::lemma_split_dots_first;
use crate::grammar::lemma_split_dots_whole;
use crate::grammar::parse_num_field;
use crate::grammar::split_dots;
use crate::grammar::u32_string;

verus! {

/// A parsed semantic version. Immutable once constructed: the update
/// operations return new values.
#[derive(Debug, PartialEq, Eq)]
pub struct Version {
    pub major: u32,
    pub minor: u32,
    pub patch: u32,
    pub prerelease: Option<String>,
    pub build_metadata: Option<String>,
}

/// Which numeric component a bump raises.
#[derive(Debug, Clone, Copy, PartialEq, Eq)]
pub enum Level {
    Major,
    Minor,
    Patch,
}

/// The mathematical shape of a version: numbers as `nat`, the optional
/// prerelease and build-metadata texts as character sequences.
pub ghost struct VersionView {
    pub major: nat,
    pub minor: nat,
    pub patch: nat,
    pub prerelease: Option<Seq<char>>,
    pub build_metadata: Option<Seq<char>>,
}

impl View for Version {
    type V = VersionView;

    open spec fn view(&self) -> VersionView {
        VersionView {
            major: self.major as nat,
            minor: self.minor as nat,
            patch: self.patch as nat,
            prerelease: match self.prerelease {
                Some(p) => Some(p@),
                None => None,
            },
            build_metadata: match self.build_metadata {
                Some(b) => Some(b@),
                None => None,
            },
        }
    }
}

impl Clone for Version {
    fn clone(&self) -> (r: Self)
        ensures
            r@ == self@,
    {
        Version {
            major: self.major,
            minor: self.minor,
            patch: self.patch,
            prerelease: match &self.prerelease {
                Some(p) => Some(p.clone()),
                None => None,
            },
            build_metadata: match &self.build_metadata {
                Some(b) => Some(b.clone()),
                None => None,
            },
        }
    }
}

/// The well-formedness invariant of a version: its texts satisfy the
/// grammar of their positions.
pub open spec fn valid_version_view(v: VersionView) -> bool {
    &&& match v.prerelease {
        Some(p) => is_prerelease_text(p),
        None => true,
    }
    &&& match v.build_metadata {
        Some(b) => is_build_text(b),
        None => true,
    }
}

// The unique decomposition of a version text: everything after the first
// '+' is build metadata; within what precedes it, everything after the
// first '-' is the prerelease; what is left is the dotted numeric core.
pub open spec fn spec_before_plus(s: Seq<char>) -> Seq<char> {
    s.take(find_first(s, '+'))
}

pub open spec fn spec_build_of(s: Seq<char>) -> Option<Seq<char>> {
    if find_first(s, '+') < s.len() {
        Some(s.skip(find_first(s, '+') + 1))
    } else {
        None
    }
}

pub open spec fn spec_pre_of(s: Seq<char>) -> Option<Seq<char>> {
    let cp = spec_before_plus(s);
    if find_first(cp, '-') < cp.len() {
        Some(cp.skip(find_first(cp, '-') + 1))
    } else {
        None
    }
}

pub open spec fn spec_core_of(s: Seq<char>) -> Seq<char> {
    let cp = spec_before_plus(s);
    cp.take(find_first(cp, '-'))
}

pub open spec fn spec_core_ok(core: Seq<char>) -> bool {
    let d1 = find_first(core, '.');
    d1 < core.len() && {
        let rest = core.skip(d1 + 1);
        let d2 = find_first(rest, '.');
        &&& d2 < rest.len()
        &&& is_numeric_field(core.take(d1))
        &&& is_numeric_field(rest.take(d2))
        &&& is_numeric_field(rest.skip(d2 + 1))
    }
}

pub open spec fn spec_major_part(core: Seq<char>) -> Seq<char> {
    core.take(find_first(core, '.'))
}

pub open spec fn spec_minor_part(core: Seq<char>) -> Seq<char> {
    let rest = core.skip(find_first(core, '.') + 1);
    rest.take(find_first(rest, '.'))
}

pub open spec fn spec_patch_part(core: Seq<char>) -> Seq<char> {
    let rest = core.skip(find_first(core, '.') + 1);
    rest.skip(find_first(rest, '.') + 1)
}

/// The SemVer 2.0 grammar, over a whole version text.
pub open spec fn is_semver_text(s: Seq<char>) -> bool {
    &&& spec_core_ok(spec_core_of(s))
    &&& match spec_pre_of(s) {
        Some(p) => is_prerelease_text(p),
        None => true,
    }
    &&& match spec_build_of(s) {
        Some(b) => is_build_text(b),
        None => true,
    }
}

/// A text parses if it matches the grammar and its numeric fields fit in
/// `u32`.
pub open spec fn parseable(s: Seq<char>) -> bool {
    &&& is_semver_text(s)
    &&& digits_val(spec_major_part(spec_core_of(s))) <= u32::MAX
    &&& digits_val(spec_minor_part(spec_core_of(s))) <= u32::MAX
    &&& digits_val(spec_patch_part(spec_core_of(s))) <= u32::MAX
}

/// The version a text denotes.
pub open spec fn spec_version_of(s: Seq<char>) -> VersionView {
    VersionView {
        major: digits_val(spec_major_part(spec_core_of(s))),
        minor: digits_val(spec_minor_part(spec_core_of(s))),
        patch: digits_val(spec_patch_part(spec_core_of(s))),
        prerelease: spec_pre_of(s),
        build_metadata: spec_build_of(s),
    }
}

/// The canonical rendering of a version.
pub open spec fn spec_render(v: VersionView) -> Seq<char> {
    dec_digits(v.major) + seq!['.'] + dec_digits(v.minor) + seq!['.'] + dec_digits(v.patch) + (
    match v.prerelease {
        Some(p) => seq!['-'] + p,
        None => Seq::<char>::empty(),
    }) + (match v.build_metadata {
        Some(b) => seq!['+'] + b,
        None => Seq::<char>::empty(),
    })
}

impl Version {
    /// Parses a SemVer 2.0 version text. Returns `Ok` exactly on texts that
    /// match the grammar with numeric fields that fit in `u32`, and then
    /// returns exactly the version the text denotes.
    pub fn parse(version: &str) -> (r: Result<Version, MinverError>)
        ensures
            r is Ok <==> parseable(version@),
            r matches Ok(v) ==> v@ == spec_version_of(version@),
            r matches Err(e) ==> e is InvalidVersion,
    {
        let s = version;
        let ghost sv = s@;
        let n = s.unicode_len();
        proof {
            assert(sv.subrange(0, n as int) =~= sv);
        }
        let plus = find_char_in(s, 0, n, '+');
        let ghost cp = spec_before_plus(sv);
        proof {
            assert(cp =~= sv.subrange(0, plus as int));
        }
        let hyph = find_char_in(s, 0, plus, '-');
        let ghost core = spec_core_of(sv);
        proof {
            assert(core =~= sv.subrange(0, hyph as int));
        }
        let d1 = find_char_in(s, 0, hyph, '.');
        proof {
            assert(core.subrange(0, core.len() as int) =~= core);
            assert(find_first(core, '.') == d1 - 0);
        }
        if d1 == hyph {
            proof {
                assert(!spec_core_ok(core));
            }
            return Err(MinverError::InvalidVersion);
        }
        let ghost rest = core.skip(d1 as int + 1);
        proof {
            assert(rest =~= sv.subrange(d1 as int + 1, hyph as int));
        }
        let d2 = find_char_in(s, d1 + 1, hyph, '.');
        proof {
            assert(find_first(rest, '.') == d2 - (d1 + 1));
            assert(spec_major_part(core) =~= sv.subrange(0, d1 as int));
            assert(spec_minor_part(core) =~= sv.subrange(d1 as int + 1, d2 as int));
        }
        if d2 == hyph {
            proof {
                assert(!spec_core_ok(core));
            }
            return Err(MinverError::InvalidVersion);
        }
        proof {
            assert(spec_patch_part(core) =~= sv.subrange(d2 as int + 1, hyph as int));
        }
        let major = match parse_num_field(s, 0, d1) {
            Some(m) => m,
            None => {
                return Err(MinverError::InvalidVersion);
            },
        };
        let minor = match parse_num_field(s, d1 + 1, d2) {
            Some(m) => m,
            None => {
                return Err(MinverError::InvalidVersion);
            },
        };
        let patch = match parse_num_field(s, d2 + 1, hyph) {
            Some(m) => m,
            None => {
                return Err(MinverError::InvalidVersion);
            },
        };
        let prerelease: Option<String> = if hyph < plus {
            proof {
                assert(spec_pre_of(sv) =~= Some(sv.subrange(hyph as int + 1, plus as int)));
                assert(spec_pre_of(sv)->0 =~= sv.subrange(hyph as int + 1, plus as int));
            }
            if !check_ident_text(s, hyph + 1, plus, true) {
                return Err(MinverError::InvalidVersion);
            }
            Some(String::from_str(s.substring_char(hyph + 1, plus)))
        } else {
            proof {
                assert(spec_pre_of(sv) is None);
            }
            None
        };
        let build_metadata: Option<String> = if plus < n {
            proof {
                assert(spec_build_of(sv) =~= Some(sv.subrange(plus as int + 1, n as int)));
                assert(spec_build_of(sv)->0 =~= sv.subrange(plus as int + 1, n as int));
            }
            if !check_ident_text(s, plus + 1, n, false) {
                return Err(MinverError::InvalidVersion);
            }
            Some(String::from_str(s.substring_char(plus + 1, n)))
        } else {
            proof {
                assert(spec_build_of(sv) is None);
            }
            None
        };
        let v = Version { major, minor, patch, prerelease, build_metadata };
        proof {
            assert(v@.prerelease == spec_pre_of(sv));
            assert(v@.build_metadata == spec_build_of(sv));
        }
        Ok(v)
    }

    /// Renders the version canonically:
    /// `major.minor.patch[-prerelease][+buildmetadata]`.
    pub fn render(&self) -> (r: String)
        ensures
            r@ == spec_render(self@),
    {
        proof {
            reveal_strlit(".");
            reveal_strlit("-");
            reveal_strlit("+");
        }
        let mut out = u32_string(self.major);
        out.append(".");
        let minor_s = u32_string(self.minor);
        out.append(minor_s.as_str());
        out.append(".");
        let patch_s = u32_string(self.patch);
        out.append(patch_s.as_str());
        match &self.prerelease {
            Some(p) => {
                out.append("-");
                out.append(p.as_str());
            },
            None => {},
        }
        match &self.build_metadata {
            Some(b) => {
                out.append("+");
                out.append(b.as_str());
            },
            None => {},
        }
        proof {
            assert(out@ =~= spec_render(self@));
        }
        out
    }
}

/// Precedence of a single identifier: a numeric identifier is below any
/// alphanumeric one; numeric identifiers compare by value; alphanumeric
/// ones by code points.
pub open spec fn cmp_ident(a: Seq<char>, b: Seq<char>) -> Ordering {
    if is_digits(a) && is_digits(b) {
        cmp_nat(digits_val(a), digits_val(b))
    } else if is_digits(a) {
        Ordering::Less
    } else if is_digits(b) {
        Ordering::Greater
    } else {
        cmp_chars(a, b)
    }
}

/// Precedence of identifier lists: the first differing pair decides; a
/// strict prefix is below the longer list.
pub open spec fn cmp_ident_seq(a: Seq<Seq<char>>, b: Seq<Seq<char>>) -> Ordering
    decreases a.len(),
{
    if a.len() == 0 && b.len() == 0 {
        Ordering::Equal
    } else if a.len() == 0 {
        Ordering::Less
    } else if b.len() == 0 {
        Ordering::Greater
    } else if cmp_ident(a[0], b[0]) == Ordering::Equal {
        cmp_ident_seq(a.skip(1), b.skip(1))
    } else {
        cmp_ident(a[0], b[0])
    }
}

/// Precedence of two prerelease texts.
pub open spec fn spec_cmp_prerelease(a: Seq<char>, b: Seq<char>) -> Ordering {
    cmp_ident_seq(split_dots(a), split_dots(b))
}

/// SemVer 2.0 precedence: numbers first; a release is above any prerelease
/// of the same numbers; otherwise the prerelease texts decide. Build
/// metadata never participates.
pub open spec fn spec_cmp_precedence(a: VersionView, b: VersionView) -> Ordering {
    if a.major != b.major {
        cmp_nat(a.major, b.major)
    } else if a.minor != b.minor {
        cmp_nat(a.minor, b.minor)
    } else if a.patch != b.patch {
        cmp_nat(a.patch, b.patch)
    } else {
        match (a.prerelease, b.prerelease) {
            (Option::None, Option::None) => Ordering::Equal,
            (Option::Some(_), Option::None) => Ordering::Less,
            (Option::None, Option::Some(_)) => Ordering::Greater,
            (Option::Some(x), Option::Some(y)) => spec_cmp_prerelease(x, y),
        }
    }
}

/// Compares one identifier from each side.
fn cmp_ident_range(a: &str, af: usize, at: usize, b: &str, bf: usize, bt: usize) -> (r: Ordering)
    requires
        af <= at <= a@.len(),
        bf <= bt <= b@.len(),
    ensures
        r == cmp_ident(a@.subrange(af as int, at as int), b@.subrange(bf as int, bt as int)),
{
    let a_num = is_digits_range(a, af, at);
    let b_num = is_digits_range(b, bf, bt);
    if a_num && b_num {
        cmp_numeric_range(a, af, at, b, bf, bt)
    } else if a_num {
        Ordering::Less
    } else if b_num {
        Ordering::Greater
    } else {
        cmp_chars_range(a, af, at, b, bf, bt)
    }
}

/// Compares the dot-separated identifier lists `a[af..at]` and `b[bf..bt]`.
fn cmp_idents_range(a: &str, af: usize, at: usize, b: &str, bf: usize, bt: usize) -> (r: Ordering)
    requires
        af <= at <= a@.len(),
        bf <= bt <= b@.len(),
    ensures
        r == cmp_ident_seq(
            split_dots(a@.subrange(af as int, at as int)),
            split_dots(b@.subrange(bf as int, bt as int)),
        ),
    decreases at - af,
{
    let ghost asub = a@.subrange(af as int, at as int);
    let ghost bsub = b@.subrange(bf as int, bt as int);
    let adot = find_char_in(a, af, at, '.');
    let bdot = find_char_in(b, bf, bt, '.');
    let ghost ahead = a@.subrange(af as int, adot as int);
    let ghost bhead = b@.subrange(bf as int, bdot as int);
    proof {
        if adot < at {
            lemma_split_dots_first(asub, adot - af);
            assert(asub.take(adot - af) =~= ahead);
            assert(asub.skip(adot - af + 1) =~= a@.subrange(adot as int + 1, at as int));
        } else {
            assert(forall|j: int| 0 <= j < asub.len() ==> asub[j] == a@[af + j]);
            lemma_split_dots_whole(asub);
            assert(asub =~= ahead);
        }
        if bdot < bt {
            lemma_split_dots_first(bsub, bdot - bf);
            assert(bsub.take(bdot - bf) =~= bhead);
            assert(bsub.skip(bdot - bf + 1) =~= b@.subrange(bdot as int + 1, bt as int));
        } else {
            assert(forall|j: int| 0 <= j < bsub.len() ==> bsub[j] == b@[bf + j]);
            lemma_split_dots_whole(bsub);
            assert(bsub =~= bhead);
        }
        assert(split_dots(asub)[0] == ahead);
        assert(split_dots(bsub)[0] == bhead);
    }
    let head = cmp_ident_range(a, af, adot, b, bf, bdot);
    match head {
        Ordering::Equal => {
            proof {
                assert(head == Ordering::Equal);
                assert(cmp_ident(split_dots(asub)[0], split_dots(bsub)[0]) == Ordering::Equal);
                assert(split_dots(asub).len() >= 1 && split_dots(bsub).len() >= 1);
                assert(cmp_ident_seq(split_dots(asub), split_dots(bsub)) == cmp_ident_seq(
                    split_dots(asub).skip(1),
                    split_dots(bsub).skip(1),
                ));
            }
            if adot < at && bdot < bt {
                proof {
                    assert(split_dots(asub).skip(1) =~= split_dots(
                        a@.subrange(adot as int + 1, at as int),
                    ));
                    assert(split_dots(bsub).skip(1) =~= split_dots(
                        b@.subrange(bdot as int + 1, bt as int),
                    ));
                }
                let r = cmp_idents_range(a, adot + 1, at, b, bdot + 1, bt);
                proof {
                    assert(r == cmp_ident_seq(split_dots(asub).skip(1), split_dots(bsub).skip(1)));
                }
                r
            } else if adot < at {
                proof {
                    assert(split_dots(bsub).len() == 1);
                    assert(split_dots(asub).len() >= 2);
                    assert(split_dots(asub).skip(1).len() >= 1);
                    assert(split_dots(bsub).skip(1).len() == 0);
                }
                Ordering::Greater
            } else if bdot < bt {
                proof {
                    assert(split_dots(asub).len() == 1);
                    assert(split_dots(bsub).len() >= 2);
                    assert(split_dots(asub).skip(1).len() == 0);
                    assert(split_dots(bsub).skip(1).len() >= 1);
                }
                Ordering::Less
            } else {
                proof {
                    assert(split_dots(asub).skip(1).len() == 0);
                    assert(split_dots(bsub).skip(1).len() == 0);
                }
                Ordering::Equal
            }
        },
        _ => head,
    }
}

impl Version {
    /// SemVer 2.0 precedence comparison; build metadata is ignored.
    pub fn cmp_precedence(&self, other: &Self) -> (r: Ordering)
        ensures
            r == spec_cmp_precedence(self@, other@),
    {
        if self.major != other.major {
            return if self.major < other.major {
                Ordering::Less
            } else {
                Ordering::Greater
            };
        }
        if self.minor != other.minor {
            return if self.minor < other.minor {
                Ordering::Less
            } else {
                Ordering::Greater
            };
        }
        if self.patch != other.patch {
            return if self.patch < other.patch {
                Ordering::Less
            } else {
                Ordering::Greater
            };
        }
        match (&self.prerelease, &other.prerelease) {
            (Option::None, Option::None) => Ordering::Equal,
            (Option::Some(_), Option::None) => Ordering::Less,
            (Option::None, Option::Some(_)) => Ordering::Greater,
            (Option::Some(x), Option::Some(y)) => Version::cmp_prerelease(x.as_str(), y.as_str()),
        }
    }

    /// Precedence comparison of two bare prerelease texts.
    pub fn cmp_prerelease(self_prerelease: &str, other_prerelease: &str) -> (r: Ordering)
        ensures
            r == spec_cmp_prerelease(self_prerelease@, other_prerelease@),
    {
        let n = self_prerelease.unicode_len();
        let m = other_prerelease.unicode_len();
        proof {
            assert(self_prerelease@.subrange(0, n as int) =~= self_prerelease@);
            assert(other_prerelease@.subrange(0, m as int) =~= other_prerelease@);
        }
        cmp_idents_range(self_prerelease, 0, n, other_prerelease, 0, m)
    }
}

/// What `with_height` yields: the existing prerelease (or the fallback
/// identifier) with `.height` appended.
pub open spec fn spec_with_height(v: VersionView, height: nat, dflt: Seq<char>) -> VersionView {
    VersionView {
        prerelease: Some(
            (match v.prerelease {
                Some(p) => p,
                None => dflt,
            }) + seq!['.'] + dec_digits(height),
        ),
        ..v
    }
}

/// What `without_metadata` yields.
pub open spec fn spec_without_metadata(v: VersionView) -> VersionView {
    VersionView { build_metadata: None, ..v }
}

/// What `with_appended_metadata` yields: the text joins any existing
/// metadata after a dot, or stands alone.
pub open spec fn spec_with_appended_metadata(v: VersionView, text: Seq<char>) -> VersionView {
    VersionView {
        build_metadata: Some(
            match v.build_metadata {
                Some(m) => m + seq!['.'] + text,
                None => text,
            },
        ),
        ..v
    }
}

/// What `with_incremented_level` yields: the chosen component rises by one
/// and the ones below it reset.
pub open spec fn spec_with_incremented_level(v: VersionView, level: Level) -> VersionView {
    match level {
        Level::Major => VersionView { major: v.major + 1, minor: 0, patch: 0, ..v },
        Level::Minor => VersionView { minor: v.minor + 1, patch: 0, ..v },
        Level::Patch => VersionView { patch: v.patch + 1, ..v },
    }
}

/// Whether the bump stays within `u32`.
pub open spec fn bump_fits(v: VersionView, level: Level) -> bool {
    match level {
        Level::Major => v.major < u32::MAX,
        Level::Minor => v.minor < u32::MAX,
        Level::Patch => v.patch < u32::MAX,
    }
}

impl Version {
    /// The version used when no tag is reachable:
    /// `0.0.0-<default_prerelease>.0`.
    pub fn default(default_prerelease: &str) -> (r: Version)
        ensures
            r@ == (VersionView {
                major: 0,
                minor: 0,
                patch: 0,
                prerelease: Some(default_prerelease@ + seq!['.', '0']),
                build_metadata: None,
            }),
    {
        proof {
            reveal_strlit(".0");
            assert(".0"@ =~= seq!['.', '0']);
        }
        let mut p = String::from_str(default_prerelease);
        p.append(".0");
        let r = Version { major: 0, minor: 0, patch: 0, prerelease: Some(p), build_metadata: None };
        proof {
            assert(r@.prerelease->0 =~= default_prerelease@ + seq!['.', '0']);
        }
        r
    }

    /// Marks the version with a commit height: the prerelease becomes the
    /// existing one (or the fallback identifier) with `.height` appended.
    pub fn with_height(self, height: u32, default_prerelease: &str) -> (r: Version)
        ensures
            r@ == spec_with_height(self@, height as nat, default_prerelease@),
    {
        proof {
            reveal_strlit(".");
            assert("."@ =~= seq!['.']);
        }
        let mut base = match self.prerelease {
            Some(p) => p,
            None => String::from_str(default_prerelease),
        };
        base.append(".");
        let h = u32_string(height);
        base.append(h.as_str());
        let r = Version {
            major: self.major,
            minor: self.minor,
            patch: self.patch,
            prerelease: Some(base),
            build_metadata: self.build_metadata,
        };
        proof {
            assert(r@.prerelease->0 =~= spec_with_height(
                self@,
                height as nat,
                default_prerelease@,
            ).prerelease->0);
        }
        r
    }

    /// Clears the build metadata.
    pub fn without_metadata(self) -> (r: Version)
        ensures
            r@ == spec_without_metadata(self@),
    {
        Version {
            major: self.major,
            minor: self.minor,
            patch: self.patch,
            prerelease: self.prerelease,
            build_metadata: None,
        }
    }

    /// Appends build metadata: after any existing metadata and a dot, or
    /// alone if there was none.
    pub fn with_appended_metadata(self, metadata: &String) -> (r: Version)
        ensures
            r@ == spec_with_appended_metadata(self@, metadata@),
    {
        proof {
            reveal_strlit(".");
            assert("."@ =~= seq!['.']);
        }
        let new_metadata: String = match self.build_metadata {
            Some(mut m) => {
                m.append(".");
                m.append(metadata.as_str());
                m
            },
            None => metadata.clone(),
        };
        let r = Version {
            major: self.major,
            minor: self.minor,
            patch: self.patch,
            prerelease: self.prerelease,
            build_metadata: Some(new_metadata),
        };
        proof {
            assert(r@.build_metadata->0 =~= spec_with_appended_metadata(
                self@,
                metadata@,
            ).build_metadata->0);
        }
        r
    }

    /// Bumps the chosen component and resets the ones below it; prerelease
    /// and build metadata are untouched by the bump itself.
    pub fn with_incremented_level(self, level: &Level) -> (r: Version)
        requires
            bump_fits(self@, *level),
        ensures
            r@ == spec_with_incremented_level(self@, *level),
    {
        match level {
            Level::Major => Version {
                major: self.major + 1,
                minor: 0,
                patch: 0,
                prerelease: self.prerelease,
                build_metadata: self.build_metadata,
            },
            Level::Minor => Version {
                major: self.major,
                minor: self.minor + 1,
                patch: 0,
                prerelease: self.prerelease,
                build_metadata: self.build_metadata,
            },
            Level::Patch => Version {
                major: self.major,
                minor: self.minor,
                patch: self.patch + 1,
                prerelease: self.prerelease,
                build_metadata: self.build_metadata,
            },
        }
    }
}

/// A well-formed core reassembles from the decimal renderings of its
/// three fields.
#[verifier::spinoff_prover]
proof fn lemma_core_recompose(core: Seq<char>)
    requires
        spec_core_ok(core),
    ensures
        dec_digits(digits_val(spec_major_part(core))) + seq!['.'] + dec_digits(
            digits_val(spec_minor_part(core)),
        ) + seq!['.'] + dec_digits(digits_val(spec_patch_part(core))) =~= core,
{
    let d1 = find_first(core, '.');
    let rest = core.skip(d1 + 1);
    let d2 = find_first(rest, '.');
    crate::grammar::lemma_find_first(core, '.');
    crate::grammar::lemma_find_first(rest, '.');
    crate::grammar::lemma_digits_roundtrip(spec_major_part(core));
    crate::grammar::lemma_digits_roundtrip(spec_minor_part(core));
    crate::grammar::lemma_digits_roundtrip(spec_patch_part(core));
    assert(rest =~= rest.take(d2) + seq![rest[d2]] + rest.skip(d2 + 1));
    assert(core =~= core.take(d1) + seq![core[d1]] + core.skip(d1 + 1));
}

/// Round trip: every text that parses renders back to itself, character for
/// character.
#[verifier::spinoff_prover]
#[verifier::rlimit(100)]
pub proof fn lemma_parse_render_roundtrip(s: Seq<char>)
    requires
        parseable(s),
    ensures
        spec_render(spec_version_of(s)) == s,
{
    let cp = spec_before_plus(s);
    let core = spec_core_of(s);
    let plus = find_first(s, '+');
    let hyph = find_first(cp, '-');
    crate::grammar::lemma_find_first(s, '+');
    crate::grammar::lemma_find_first(cp, '-');
    lemma_core_recompose(core);
    let v = spec_version_of(s);
    let rendered_core = dec_digits(v.major) + seq!['.'] + dec_digits(v.minor) + seq!['.']
        + dec_digits(v.patch);
    assert(rendered_core =~= core);
    let with_pre = rendered_core + (match v.prerelease {
        Some(p) => seq!['-'] + p,
        None => Seq::<char>::empty(),
    });
    assert(with_pre =~= cp) by {
        if hyph < cp.len() {
            assert(cp =~= cp.take(hyph) + seq![cp[hyph]] + cp.skip(hyph + 1));
        }
    }
    assert(spec_render(v) == with_pre + (match v.build_metadata {
        Some(b) => seq!['+'] + b,
        None => Seq::<char>::empty(),
    }));
    assert(spec_render(v) =~= s) by {
        if plus < s.len() {
            assert(s =~= s.take(plus) + seq![s[plus]] + s.skip(plus + 1));
        }
    }
}

/// A parsed version is well-formed.
pub proof fn lemma_parseable_valid(s: Seq<char>)
    requires
        parseable(s),
    ensures
        valid_version_view(spec_version_of(s)),
{
}

/// Precedence ignores build metadata: comparing two versions gives the same
/// answer as comparing them with their metadata removed.
pub proof fn lemma_precedence_ignores_build_metadata(a: VersionView, b: VersionView)
    ensures
        spec_cmp_precedence(a, b) == spec_cmp_precedence(
            spec_without_metadata(a),
            spec_without_metadata(b),
        ),
{
}

} // verus!
