//! Whether incremental formatting is used, and what its cache file depends on.

use indexmap::IndexMap;
use vstd::prelude::*;

use crate::environment::{cache_dir_answer, mk_dir_answer, Environment};
use crate::file_path_utils::{join_path, path_join};
use crate::index_map::{string_map_entries, string_map_pairs};
use crate::text::string_views;

verus! {

/// Whether incremental formatting is turned off: the command-line setting,
/// else the configured one, says `false`.
pub open spec fn incremental_disabled(incremental_cli_arg: Option<bool>, config_incremental: Option<
    bool,
>) -> bool {
    match incremental_cli_arg {
        Some(b) => !b,
        None => match config_incremental {
            Some(b) => !b,
            None => false,
        },
    }
}

/// The directory of incremental files in a cache directory.
pub open spec fn incremental_dir(cache_dir: Seq<char>) -> Seq<char> {
    path_join(cache_dir, seq!['i', 'n', 'c', 'r', 'e', 'm', 'e', 'n', 't', 'a', 'l'])
}

/// Each key followed by its extension, in the map's order.
pub open spec fn hashbang_state(entries: Seq<(Seq<char>, Seq<char>)>) -> Seq<Seq<char>>
    decreases entries.len(),
{
    if entries.len() == 0 {
        seq![]
    } else {
        hashbang_state(entries.drop_last()).push(entries.last().0).push(entries.last().1)
    }
}

/// Different shebang mappings give different lists of state inputs: the list
/// of texts, taken as a list, determines the mappings. This says nothing of the
/// hash that they are written into, whose writes run the texts' bytes together.
pub proof fn lemma_hashbang_state_injective(
    a: Seq<(Seq<char>, Seq<char>)>,
    b: Seq<(Seq<char>, Seq<char>)>,
)
    requires
        hashbang_state(a) == hashbang_state(b),
    ensures
        a == b,
    decreases a.len(),
{
    lemma_hashbang_state_len(a);
    lemma_hashbang_state_len(b);
    if a.len() > 0 {
        let sa = hashbang_state(a);
        let sb = hashbang_state(b);
        assert(sa.drop_last().drop_last() == hashbang_state(a.drop_last()));
        assert(sb.drop_last().drop_last() == hashbang_state(b.drop_last()));
        lemma_hashbang_state_injective(a.drop_last(), b.drop_last());
        assert(sa[sa.len() - 1] == a.last().1);
        assert(sa[sa.len() - 2] == a.last().0);
        assert(sb[sb.len() - 1] == b.last().1);
        assert(sb[sb.len() - 2] == b.last().0);
        assert(a =~= a.drop_last().push(a.last()));
        assert(b =~= b.drop_last().push(b.last()));
    } else {
        assert(a =~= b);
    }
}

proof fn lemma_hashbang_state_len(a: Seq<(Seq<char>, Seq<char>)>)
    ensures
        hashbang_state(a).len() == 2 * a.len(),
    decreases a.len(),
{
    if a.len() > 0 {
        lemma_hashbang_state_len(a.drop_last());
    }
}

/// Where the incremental file goes and what, besides the plugins, its state
/// hash is made of.
pub struct IncrementalFileInputs {
    /// The directory that holds incremental files.
    pub dir: String,
    /// The configuration's base path, whose bytes, hashed, name the file in `dir`.
    pub base_path: String,
    /// The hash of the plugins, written first into the state hash.
    pub plugins_hash: u64,
    /// The texts written into the state hash after the plugins hash, in order.
    pub hashbang_state: Vec<String>,
}

/// The incremental file's directory and state inputs for a cache directory,
/// once its `incremental` directory has been made (`dir_created`), or `None`
/// when it could not be.
pub fn incremental_file_inputs(
    cache_dir: &str,
    dir_created: bool,
    base_path: &str,
    plugins_hash: u64,
    hashbangs_enabled: bool,
    hashbangs: &IndexMap<String, String>,
) -> (r: Option<IncrementalFileInputs>)
    ensures
        r is Some <==> dir_created,
        match r {
            Some(inputs) => inputs.dir@ == incremental_dir(cache_dir@) && inputs.base_path@
                == base_path@ && inputs.plugins_hash == plugins_hash && string_views(
                inputs.hashbang_state@,
            ) == if hashbangs_enabled {
                hashbang_state(string_map_entries(*hashbangs))
            } else {
                seq![]
            },
            None => true,
        },
{
    if !dir_created {
        return None;
    }
    let dir = join_path(cache_dir, "incremental");
    proof {
        reveal_strlit("incremental");
        assert("incremental"@ =~= seq!['i', 'n', 'c', 'r', 'e', 'm', 'e', 'n', 't', 'a', 'l']);
    }
    // fold the hashbangs into the state hash so changing the mapping invalidates
    // the cache (the plugins hash on its own wouldn't reflect a hashbangs change)
    let mut state: Vec<String> = Vec::new();
    if hashbangs_enabled {
        let pairs = string_map_pairs(hashbangs);
        let ghost entries = string_map_entries(*hashbangs);
        let mut i: usize = 0;
        while i < pairs.len()
            invariant
                i <= pairs@.len(),
                crate::index_map::pair_views(pairs@) == entries,
                string_views(state@) == hashbang_state(entries.take(i as int)),
            decreases pairs@.len() - i,
        {
            let ghost before = state@;
            state.push(pairs[i].0.clone());
            state.push(pairs[i].1.clone());
            proof {
                assert(entries.take(i + 1).drop_last() =~= entries.take(i as int));
                assert(entries.take(i + 1).last() == entries[i as int]);
                assert(string_views(state@) =~= string_views(before).push(entries[i as int].0).push(
                    entries[i as int].1,
                ));
            }
            i = i + 1;
        }
        proof {
            assert(entries.take(entries.len() as int) =~= entries);
        }
    }
    proof {
        if !hashbangs_enabled {
            assert(string_views(state@) =~= Seq::<Seq<char>>::empty());
        }
    }
    Some(
        IncrementalFileInputs {
            dir,
            base_path: base_path.to_owned(),
            plugins_hash,
            hashbang_state: state,
        },
    )
}

/// The incremental file's directory and state inputs, or `None` when
/// incremental formatting is turned off or its directory cannot be created.
///
/// The directory is `incremental` in the cache directory; it is created. The
/// file in it is named by the hash of the base path. The plugins hash feeds the
/// state hash, and when shebang mappings are enabled each key and its extension
/// follow, so that changing the mappings invalidates the cache.
pub fn get_incremental_file<E: Environment>(
    incremental_cli_arg: Option<bool>,
    config_incremental: Option<bool>,
    base_path: &str,
    plugins_hash: u64,
    hashbangs_enabled: bool,
    hashbangs: &IndexMap<String, String>,
    environment: &E,
) -> (r: Option<IncrementalFileInputs>)
    ensures
        incremental_disabled(incremental_cli_arg, config_incremental) ==> r is None,
        match r {
            Some(inputs) => (exists|cache_dir: Seq<char>|
                #[trigger] cache_dir_answer(*environment, cache_dir) && inputs.dir@ == incremental_dir(
                    cache_dir,
                ) && mk_dir_answer(*environment, inputs.dir@, true)) && inputs.base_path@
                == base_path@ && inputs.plugins_hash == plugins_hash
                && string_views(inputs.hashbang_state@) == if hashbangs_enabled {
                hashbang_state(string_map_entries(*hashbangs))
            } else {
                seq![]
            },
            None => incremental_disabled(incremental_cli_arg, config_incremental) || exists|
                cache_dir: Seq<char>,
            |
                #[trigger] cache_dir_answer(*environment, cache_dir) && mk_dir_answer(
                    *environment,
                    incremental_dir(cache_dir),
                    false,
                ),
        },
{
    let disabled = match incremental_cli_arg {
        Some(b) => !b,
        None => match config_incremental {
            Some(b) => !b,
            None => false,
        },
    };
    if disabled {
        return None;
    }
    // the incremental file is stored in the cache with a key based on the root directory
    let cache_dir = environment.get_cache_dir();
    let dir = join_path(cache_dir.as_str(), "incremental");
    proof {
        reveal_strlit("incremental");
        assert("incremental"@ =~= seq!['i', 'n', 'c', 'r', 'e', 'm', 'e', 'n', 't', 'a', 'l']);
        assert(dir@ == incremental_dir(cache_dir@));
        assert(cache_dir_answer(*environment, cache_dir@));
    }
    let created = environment.mk_dir_all(dir.as_str());
    proof {
        assert(mk_dir_answer(*environment, dir@, created));
    }
    let r = incremental_file_inputs(
        cache_dir.as_str(),
        created,
        base_path,
        plugins_hash,
        hashbangs_enabled,
        hashbangs,
    );
    proof {
        if r is Some {
            assert(r->Some_0.dir@ == incremental_dir(cache_dir@));
        }
    }
    r
}

} // verus!
