//! The tag index: a mapping from commit id to the version tag pointing at
//! that commit, built fresh for every resolution call.
//!
//! The mapping lives in a `radix_trie::Trie`, seen by the proofs only
//! through `trie_model`, the abstract map of its contents. When several
//! valid version tags point at one commit, the index keeps the tag of
//! highest precedence.

use core::cmp::Ordering;
use vstd::prelude::*;

use crate::config::MinverConfig;
use crate::error::MinverError;
use crate::grammar::str_starts_with;
use crate::repo::get_tagged_commit;
use crate::repo::repo_tag_names;
use crate::semver::parseable;
use crate::semver::spec_cmp_precedence;
use crate::semver::spec_version_of;
use crate::semver::valid_version_view;
use crate::semver::Version;
use crate::semver::VersionView;

verus! {

#[verifier::external_type_specification]
#[verifier::external_body]
#[verifier::reject_recursive_types(K)]
#[verifier::reject_recursive_types(V)]
pub struct ExTrie<K, V>(radix_trie::Trie<K, V>);

/// The index structure: a radix trie keyed by commit id.
pub type TagTrie = radix_trie::Trie<String, Version>;

/// The contents of a tag index: which version stands at which commit id.
pub uninterp spec fn trie_model(t: TagTrie) -> Map<Seq<char>, VersionView>;

/// An index with nothing in it.
pub open spec fn empty_index() -> Map<Seq<char>, VersionView> {
    Map::empty()
}

/// Relies on radix_trie's `Trie::new`: the new trie is empty.
#[verifier::external_body]
pub(crate) fn trie_new() -> (trie: TagTrie)
    ensures
        trie_model(trie) == empty_index(),
{
    radix_trie::Trie::new()
}

/// Relies on radix_trie's `Trie::insert`: the value now stands at the key,
/// replacing any previous value there; other keys are untouched.
#[verifier::external_body]
pub(crate) fn trie_insert(t: &mut TagTrie, key: String, value: Version)
    ensures
        trie_model(*final(t)) == trie_model(*old(t)).insert(key@, value@),
{
    let _ = t.insert(key, value);
}

/// Relies on radix_trie's `Trie::get`: returns the value at the key
/// exactly when the trie holds one.
#[verifier::external_body]
pub(crate) fn trie_get<'a>(t: &'a TagTrie, key: &String) -> (r: Option<&'a Version>)
    ensures
        match r {
            Some(v) => trie_model(*t).contains_key(key@) && v@ == trie_model(*t)[key@],
            None => !trie_model(*t).contains_key(key@),
        },
{
    t.get(key)
}

/// The abstract shape of a list of (tag name, commit id) pairs.
pub open spec fn pairs_view(s: Seq<(String, String)>) -> Seq<(Seq<char>, Seq<char>)> {
    s.map_values(|p: (String, String)| (p.0@, p.1@))
}

/// What one (tag name, commit id) pair does to the index: a name without
/// the required prefix, or whose remainder does not parse, changes
/// nothing; otherwise the parsed version lands at the commit, displacing
/// an incumbent only if it has strictly higher precedence.
pub open spec fn index_step(
    m: Map<Seq<char>, VersionView>,
    name: Seq<char>,
    commit: Seq<char>,
    prefix: Seq<char>,
) -> Map<Seq<char>, VersionView> {
    if name.len() >= prefix.len() && name.take(prefix.len() as int) == prefix && parseable(
        name.skip(prefix.len() as int),
    ) {
        let v = spec_version_of(name.skip(prefix.len() as int));
        if m.contains_key(commit) && spec_cmp_precedence(v, m[commit]) != Ordering::Greater {
            m
        } else {
            m.insert(commit, v)
        }
    } else {
        m
    }
}

/// The index that a list of (tag name, commit id) pairs builds, one pair
/// at a time, in order.
pub open spec fn spec_index(
    pairs: Seq<(Seq<char>, Seq<char>)>,
    prefix: Seq<char>,
) -> Map<Seq<char>, VersionView>
    decreases pairs.len(),
{
    if pairs.len() == 0 {
        empty_index()
    } else {
        index_step(
            spec_index(pairs.drop_last(), prefix),
            pairs.last().0,
            pairs.last().1,
            prefix,
        )
    }
}

/// Every version an index holds is grammatical.
pub proof fn lemma_spec_index_valid(pairs: Seq<(Seq<char>, Seq<char>)>, prefix: Seq<char>)
    ensures
        forall|k: Seq<char>|
            spec_index(pairs, prefix).contains_key(k) ==> valid_version_view(
                #[trigger] spec_index(pairs, prefix)[k],
            ),
    decreases pairs.len(),
{
    if pairs.len() > 0 {
        let rest = pairs.drop_last();
        lemma_spec_index_valid(rest, prefix);
        let m0 = spec_index(rest, prefix);
        let m1 = spec_index(pairs, prefix);
        let name = pairs.last().0;
        assert forall|k: Seq<char>| m1.contains_key(k) implies valid_version_view(
            #[trigger] m1[k],
        ) by {
            if m1[k] != m0[k] || !m0.contains_key(k) {
                crate::semver::lemma_parseable_valid(name.skip(prefix.len() as int));
            } else {
                assert(valid_version_view(m0[k]));
            }
        }
    }
}

/// The tag index builder of the resolution policy: builds from the given
/// (tag name, resolved commit id) pairs exactly the index `spec_index`
/// describes — names without the configured prefix or whose remainder
/// fails the grammar are skipped; per commit, the highest-precedence tag
/// wins, the earlier of two equals staying.
pub fn build_index(pairs: &Vec<(String, String)>, config: &MinverConfig) -> (t: TagTrie)
    ensures
        trie_model(t) == spec_index(pairs_view(pairs@), config@.tag_prefix),
{
    let ghost pv = pairs_view(pairs@);
    let mut trie = trie_new();
    let prefix = config.tag_prefix.as_str();
    let plen = prefix.unicode_len();
    proof {
        assert(pv.take(0) =~= Seq::<(Seq<char>, Seq<char>)>::empty());
    }
    let mut i: usize = 0;
    while i < pairs.len()
        invariant
            i <= pv.len(),
            pv == pairs_view(pairs@),
            plen == config.tag_prefix@.len(),
            prefix@ == config.tag_prefix@,
            trie_model(trie) == spec_index(pv.take(i as int), config@.tag_prefix),
        decreases pv.len() - i,
    {
        let name = &pairs[i].0;
        let commit_id = &pairs[i].1;
        let ghost m0 = trie_model(trie);
        proof {
            assert(pv.take(i as int + 1).drop_last() =~= pv.take(i as int));
            assert(pv.take(i as int + 1).last() == pv[i as int]);
            assert(pv[i as int] == (name@, commit_id@));
        }
        if str_starts_with(name.as_str(), prefix) {
            let nlen = name.as_str().unicode_len();
            let rest = name.as_str().substring_char(plen, nlen);
            proof {
                assert(rest@ =~= name@.skip(plen as int));
            }
            match Version::parse(rest) {
                Ok(version) => {
                    let keep = match trie_get(&trie, commit_id) {
                        Some(existing) => matches!(
                            version.cmp_precedence(existing),
                            Ordering::Greater
                        ),
                        None => true,
                    };
                    if keep {
                        trie_insert(&mut trie, commit_id.clone(), version);
                    }
                    proof {
                        assert(trie_model(trie) == index_step(
                            m0,
                            name@,
                            commit_id@,
                            config@.tag_prefix,
                        ));
                    }
                },
                Err(_) => {
                    // the remainder fails the grammar: the pair indexes nothing
                    proof {
                        assert(!parseable(name@.skip(plen as int)));
                    }
                },
            }
        }
        proof {
            assert(trie_model(trie) == spec_index(pv.take(i as int + 1), config@.tag_prefix));
        }
        i = i + 1;
    }
    proof {
        assert(pv.take(pv.len() as int) =~= pv);
    }
    trie
}

/// Builds the tag index of a repository: collects each tag name with the
/// commit it ultimately resolves to — dropping, never fatally, the tags
/// whose commit cannot be resolved — and hands the pairs to `build_index`,
/// whose contract fixes the resulting index exactly. Fatal only when the
/// tags themselves cannot be enumerated.
pub fn get_tags(repository: &git2::Repository, config: &MinverConfig) -> (r: Result<
    TagTrie,
    MinverError,
>)
    ensures
        r matches Ok(t) ==> exists|pairs: Seq<(Seq<char>, Seq<char>)>|
            trie_model(t) == spec_index(pairs, config@.tag_prefix),
        r matches Ok(t) ==> forall|k: Seq<char>|
            trie_model(t).contains_key(k) ==> valid_version_view(#[trigger] trie_model(t)[k]),
        r matches Err(e) ==> e is Repository,
{
    let names = match repo_tag_names(repository) {
        Ok(n) => n,
        Err(e) => {
            return Err(MinverError::Repository(e));
        },
    };
    let mut pairs: Vec<(String, String)> = Vec::new();
    let mut i: usize = 0;
    while i < names.len()
        invariant
            i <= names@.len(),
        decreases names@.len() - i,
    {
        let name = &names[i];
        match get_tagged_commit(repository, name) {
            Ok(commit_id) => {
                pairs.push((name.clone(), commit_id));
            },
            Err(_) => {
                // a tag that cannot be resolved is dropped, never fatal
            },
        }
        i = i + 1;
    }
    let trie = build_index(&pairs, config);
    proof {
        let pv = pairs_view(pairs@);
        lemma_spec_index_valid(pv, config@.tag_prefix);
        assert forall|k: Seq<char>| trie_model(trie).contains_key(k) implies valid_version_view(
            #[trigger] trie_model(trie)[k],
        ) by {
            assert(trie_model(trie)[k] == spec_index(pv, config@.tag_prefix)[k]);
        }
    }
    Ok(trie)
}

} // verus!
