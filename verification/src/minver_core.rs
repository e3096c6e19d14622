//! The version resolver: picks the winning candidate and derives the final
//! version, and the top-level resolution entry point.

use core::cmp::Ordering;
use vstd::prelude::*;

use crate::config::ConfigView;
use crate::config::MinverConfig;
use crate::error::MinverError;
use crate::repo::head_commit_id;
use crate::semver::bump_fits;
use crate::semver::spec_cmp_precedence;
use crate::semver::spec_with_appended_metadata;
use crate::semver::spec_with_height;
use crate::semver::spec_with_incremented_level;
use crate::semver::spec_without_metadata;
use crate::semver::valid_version_view;
use crate::semver::Version;
use crate::semver::VersionView;
use crate::tag_index::get_tags;
use crate::walker::cands_view;
use crate::walker::collect_candidates;
use crate::walker::fetch_commit_graph;
use crate::walker::spec_candidates;

verus! {

/// Whether a challenger displaces the incumbent: strictly higher
/// precedence, or equal precedence at a strictly smaller height. Equal
/// precedence at equal height keeps the incumbent, so the first discovered
/// of such a pair wins.
pub open spec fn beats(challenger: (VersionView, nat), incumbent: (VersionView, nat)) -> bool {
    ||| spec_cmp_precedence(challenger.0, incumbent.0) == Ordering::Greater
    ||| (spec_cmp_precedence(challenger.0, incumbent.0) == Ordering::Equal && challenger.1
        < incumbent.1)
}

/// The winner among `cands[i..]`, starting from `best`.
pub open spec fn pick_from(
    cands: Seq<(VersionView, nat)>,
    i: int,
    best: (VersionView, nat),
) -> (VersionView, nat)
    decreases cands.len() - i,
{
    if i < 0 || i >= cands.len() {
        best
    } else {
        pick_from(
            cands,
            i + 1,
            if beats(cands[i], best) {
                cands[i]
            } else {
                best
            },
        )
    }
}

/// The winning candidate: highest precedence; ties go to the smaller
/// height, then to the first discovered.
pub open spec fn spec_pick(cands: Seq<(VersionView, nat)>) -> (VersionView, nat)
    recommends
        cands.len() > 0,
{
    pick_from(cands, 1, cands[0])
}

/// The default version: `0.0.0-<identifier>.0`.
pub open spec fn default_view(prerelease_identifier: Seq<char>) -> VersionView {
    VersionView {
        major: 0,
        minor: 0,
        patch: 0,
        prerelease: Some(prerelease_identifier + seq!['.', '0']),
        build_metadata: None,
    }
}

/// What resolution yields: the winning candidate (or the default when
/// there is none); at height zero it is kept as it stands, at positive
/// height it gets the height injected, its metadata dropped and the
/// configured component bumped; configured metadata is appended last.
/// `None` only when the bump would not fit in `u32`.
pub open spec fn spec_resolve(cands: Seq<(VersionView, nat)>, cfg: ConfigView) -> Option<
    VersionView,
> {
    let picked = if cands.len() == 0 {
        (default_view(cfg.prerelease_identifier), 0 as nat)
    } else {
        spec_pick(cands)
    };
    let base = if picked.1 == 0 {
        Some(picked.0)
    } else {
        let marked = spec_without_metadata(
            spec_with_height(picked.0, picked.1, cfg.prerelease_identifier),
        );
        if bump_fits(marked, cfg.auto_increment_level) {
            Some(spec_with_incremented_level(marked, cfg.auto_increment_level))
        } else {
            None
        }
    };
    match base {
        Some(b) => Some(
            match cfg.build_metadata {
                Some(t) => spec_with_appended_metadata(b, t),
                None => b,
            },
        ),
        None => None,
    }
}

/// Resolves the candidate set to the final version, as `spec_resolve`
/// says. Fails only when the bump would overflow a component.
pub fn resolve(candidates: &Vec<(Version, u32)>, config: &MinverConfig) -> (r: Result<
    Version,
    MinverError,
>)
    ensures
        r matches Ok(v) ==> Some(v@) == spec_resolve(cands_view(candidates@), config@),
        r is Err ==> spec_resolve(cands_view(candidates@), config@) is None,
        r matches Err(e) ==> e is Overflow,
{
    let ghost cv = cands_view(candidates@);
    let (version, height): (Version, u32) = if candidates.len() == 0 {
        let d = Version::default(config.prerelease_identifier.as_str());
        (d, 0)
    } else {
        let mut best_i: usize = 0;
        let mut i: usize = 1;
        while i < candidates.len()
            invariant
                cv == cands_view(candidates@),
                best_i < candidates@.len(),
                1 <= i <= candidates@.len(),
                spec_pick(cv) == pick_from(cv, i as int, cv[best_i as int]),
            decreases candidates@.len() - i,
        {
            let challenger = &candidates[i];
            let incumbent = &candidates[best_i];
            let wins = match challenger.0.cmp_precedence(&incumbent.0) {
                Ordering::Greater => true,
                Ordering::Equal => challenger.1 < incumbent.1,
                Ordering::Less => false,
            };
            proof {
                assert(wins == beats(cv[i as int], cv[best_i as int]));
            }
            if wins {
                best_i = i;
            }
            i = i + 1;
        }
        let picked = &candidates[best_i];
        let owned = picked.0.clone();
        proof {
            assert(spec_pick(cv) == pick_from(cv, cv.len() as int, cv[best_i as int]));
            assert(pick_from(cv, cv.len() as int, cv[best_i as int]) == cv[best_i as int]);
        }
        (owned, picked.1)
    };
    let base: Version = if height == 0 {
        version
    } else {
        let marked = version.with_height(height, config.prerelease_identifier.as_str())
            .without_metadata();
        let fits = match config.auto_increment_level {
            crate::semver::Level::Major => marked.major < u32::MAX,
            crate::semver::Level::Minor => marked.minor < u32::MAX,
            crate::semver::Level::Patch => marked.patch < u32::MAX,
        };
        if !fits {
            return Err(MinverError::Overflow);
        }
        marked.with_incremented_level(&config.auto_increment_level)
    };
    match &config.build_metadata {
        Some(text) => Ok(base.with_appended_metadata(text)),
        None => Ok(base),
    }
}

/// Resolves the version of the repository's current head: builds the tag
/// index, walks the history for candidates, and applies the resolution
/// policy. Repository failures are fatal and propagated.
pub fn get_version(repository: &git2::Repository, config: &MinverConfig) -> (r: Result<
    Version,
    MinverError,
>)
    ensures
        r matches Ok(v) ==> exists|cands: Seq<(VersionView, nat)>|
            Some(v@) == spec_resolve(cands, config@),
        r matches Ok(v) ==> (crate::config::config_wf(config@) ==> valid_version_view(v@)),
        r matches Err(e) ==> (e is Repository || e is Overflow),
{
    let tags = match get_tags(repository, config) {
        Ok(t) => t,
        Err(e) => {
            return Err(e);
        },
    };
    let head = match head_commit_id(repository) {
        Ok(h) => h,
        Err(e) => {
            return Err(MinverError::Repository(e));
        },
    };
    let graph = match fetch_commit_graph(repository, &head) {
        Ok(g) => g,
        Err(e) => {
            return Err(e);
        },
    };
    let candidates = match collect_candidates(&graph, &tags, &head) {
        Ok(c) => c,
        Err(e) => {
            return Err(e);
        },
    };
    let version = match resolve(&candidates, config) {
        Ok(v) => v,
        Err(e) => {
            return Err(e);
        },
    };
    proof {
        let cands = cands_view(candidates@);
        assert(Some(version@) == spec_resolve(cands, config@));
        if crate::config::config_wf(config@) {
            let im = crate::tag_index::trie_model(tags);
            crate::walker::lemma_walk_hits_in_index(
                graph.model(),
                im,
                seq![head@],
                Set::empty(),
                0,
                crate::walker::walk_fuel(),
            );
            assert(crate::walker::walk_levels(
                graph.model(),
                im,
                seq![head@],
                Set::empty(),
                0,
                crate::walker::walk_fuel(),
            ) == Some(cands));
            let wr = crate::walker::walk_levels(
                graph.model(),
                im,
                seq![head@],
                Set::empty(),
                0,
                crate::walker::walk_fuel(),
            )->0;
            assert(wr == cands);
            assert forall|i: int| 0 <= i < cands.len() implies valid_version_view(
                (#[trigger] cands[i]).0,
            ) by {
                assert(crate::walker::in_index(im, wr[i].0));
                let k = choose|k: Seq<char>| #[trigger] im.contains_key(k) && im[k] == cands[i].0;
                assert(valid_version_view(im[k]));
            }
            lemma_resolve_valid(cands, config@);
        }
    }
    Ok(version)
}

/// The winner is one of the candidates (or the starting incumbent).
proof fn lemma_pick_from_membership(cands: Seq<(VersionView, nat)>, i: int, best: (VersionView, nat))
    ensures
        pick_from(cands, i, best) == best || exists|j: int|
            i <= j < cands.len() && #[trigger] cands[j] == pick_from(cands, i, best),
    decreases cands.len() - i,
{
    if i < 0 || i >= cands.len() {
    } else {
        let nb = if beats(cands[i], best) {
            cands[i]
        } else {
            best
        };
        lemma_pick_from_membership(cands, i + 1, nb);
        let r = pick_from(cands, i, best);
        if r == nb {
            if beats(cands[i], best) {
                assert(cands[i] == r);
            }
        }
    }
}

/// The resolver only emits grammatical versions: from a well-formed
/// configuration and grammatical candidates, whatever it resolves to is
/// grammatical too.
pub proof fn lemma_resolve_valid(cands: Seq<(VersionView, nat)>, cfg: ConfigView)
    requires
        crate::config::config_wf(cfg),
        forall|i: int| 0 <= i < cands.len() ==> valid_version_view((#[trigger] cands[i]).0),
        spec_resolve(cands, cfg) is Some,
    ensures
        valid_version_view(spec_resolve(cands, cfg)->0),
{
    let picked = if cands.len() == 0 {
        (default_view(cfg.prerelease_identifier), 0 as nat)
    } else {
        spec_pick(cands)
    };
    if cands.len() == 0 {
        crate::grammar::lemma_dec_digits_text(0);
        crate::grammar::lemma_prerelease_text_concat(
            cfg.prerelease_identifier,
            crate::grammar::dec_digits(0),
        );
        assert(cfg.prerelease_identifier + seq!['.', '0'] =~= cfg.prerelease_identifier
            + seq!['.'] + crate::grammar::dec_digits(0));
        assert(valid_version_view(picked.0));
    } else {
        lemma_pick_from_membership(cands, 1, cands[0]);
        assert(valid_version_view(picked.0));
    }
    if picked.1 != 0 {
        let pre0 = match picked.0.prerelease {
            Some(p) => p,
            None => cfg.prerelease_identifier,
        };
        assert(crate::grammar::is_prerelease_text(pre0));
        crate::grammar::lemma_dec_digits_text(picked.1);
        crate::grammar::lemma_prerelease_text_concat(pre0, crate::grammar::dec_digits(picked.1));
    }
    let base = spec_resolve(cands, cfg)->0;
    match cfg.build_metadata {
        Some(t) => {
            let before = if picked.1 == 0 {
                picked.0
            } else {
                spec_with_incremented_level(
                    spec_without_metadata(
                        spec_with_height(picked.0, picked.1, cfg.prerelease_identifier),
                    ),
                    cfg.auto_increment_level,
                )
            };
            match before.build_metadata {
                Some(m) => {
                    crate::grammar::lemma_build_text_concat(m, t);
                },
                None => {},
            }
        },
        None => {},
    }
}

/// With no candidates and no configured metadata, resolution yields the
/// default version `0.0.0-<identifier>.0`.
pub proof fn lemma_resolve_no_candidates(cfg: ConfigView)
    requires
        cfg.build_metadata is None,
    ensures
        spec_resolve(Seq::empty(), cfg) == Some(default_view(cfg.prerelease_identifier)),
{
}

/// A single candidate at a positive height resolves to that version with
/// the height injected, its metadata dropped, and the configured bump
/// applied.
pub proof fn lemma_resolve_single(v: VersionView, h: nat, cfg: ConfigView)
    requires
        h > 0,
        bump_fits(v, cfg.auto_increment_level),
        cfg.build_metadata is None,
    ensures
        spec_resolve(seq![(v, h)], cfg) == Some(
            spec_with_incremented_level(
                spec_without_metadata(spec_with_height(v, h, cfg.prerelease_identifier)),
                cfg.auto_increment_level,
            ),
        ),
{
    let s = seq![(v, h)];
    assert(pick_from(s, 1, s[0]) == s[0]);
}

/// A tagged head: when the index holds the head itself, resolution yields
/// exactly that tag, unchanged, when no extra metadata is configured.
pub proof fn lemma_tagged_head_resolves(
    g: Map<Seq<char>, Seq<Seq<char>>>,
    idx: Map<Seq<char>, VersionView>,
    head: Seq<char>,
    cfg: ConfigView,
)
    requires
        idx.contains_key(head),
        cfg.build_metadata is None,
    ensures
        spec_resolve(spec_candidates(g, idx, head)->0, cfg) == Some(idx[head]),
{
    crate::walker::lemma_tagged_head(g, idx, head);
    let s = seq![(idx[head], 0 as nat)];
    assert(spec_candidates(g, idx, head)->0 == s);
    assert(pick_from(s, 1, s[0]) == s[0]);
}

/// No reachable tag anywhere: when the index is empty and the walk
/// completes, resolution yields the default version.
pub proof fn lemma_no_tags_resolves_default(
    g: Map<Seq<char>, Seq<Seq<char>>>,
    idx: Map<Seq<char>, VersionView>,
    head: Seq<char>,
    cfg: ConfigView,
)
    requires
        forall|k: Seq<char>| !idx.contains_key(k),
        cfg.build_metadata is None,
        spec_candidates(g, idx, head) is Some,
    ensures
        spec_resolve(spec_candidates(g, idx, head)->0, cfg) == Some(
            default_view(cfg.prerelease_identifier),
        ),
{
    crate::walker::lemma_no_reachable_tags(g, idx, seq![head], Set::empty(), 0, crate::walker::walk_fuel());
    assert(spec_candidates(g, idx, head)->0 =~= Seq::<(VersionView, nat)>::empty());
    lemma_resolve_no_candidates(cfg);
}

/// Linear history: a head with `n` untagged commits above a single tagged
/// ancestor resolves to that tag, bumped, with height `n` injected.
pub proof fn lemma_linear_history_resolves(
    g: Map<Seq<char>, Seq<Seq<char>>>,
    idx: Map<Seq<char>, VersionView>,
    ids: Seq<Seq<char>>,
    v: VersionView,
    cfg: ConfigView,
)
    requires
        ids.len() >= 2,
        ids.len() <= crate::walker::walk_fuel(),
        forall|i: int, j: int| 0 <= i < j < ids.len() ==> ids[i] != ids[j],
        forall|i: int|
            0 <= i < ids.len() - 1 ==> #[trigger] g.contains_key(ids[i]) && g[ids[i]] == seq![
                ids[i + 1],
            ],
        forall|i: int| 0 <= i < ids.len() - 1 ==> !idx.contains_key(#[trigger] ids[i]),
        idx.contains_key(ids.last()),
        idx[ids.last()] == v,
        bump_fits(v, cfg.auto_increment_level),
        cfg.build_metadata is None,
    ensures
        spec_resolve(spec_candidates(g, idx, ids[0])->0, cfg) == Some(
            spec_with_incremented_level(
                spec_without_metadata(
                    spec_with_height(v, (ids.len() - 1) as nat, cfg.prerelease_identifier),
                ),
                cfg.auto_increment_level,
            ),
        ),
{
    crate::walker::lemma_linear_history(g, idx, ids, v);
    lemma_resolve_single(v, (ids.len() - 1) as nat, cfg);
}

} // verus!
