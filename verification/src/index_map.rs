//! The ordered map of the `indexmap` crate, as the library reads it.

use indexmap::IndexMap;
use vstd::prelude::*;

verus! {

/// `indexmap::IndexMap`, which the library carries without looking inside; what
/// a map of strings holds is named by `string_map_entries`.
#[verifier::external_type_specification]
#[verifier::external_body]
#[verifier::reject_recursive_types(K)]
#[verifier::reject_recursive_types(V)]
#[verifier::reject_recursive_types(S)]
pub struct ExIndexMap<K, V, S>(IndexMap<K, V, S>);

/// The key-value pairs that a map of strings holds, in its order.
pub uninterp spec fn string_map_entries(m: IndexMap<String, String>) -> Seq<(Seq<char>, Seq<char>)>;

/// Calls `IndexMap::get_index`, which gives the pair at an index of the map's
/// order, or `None` past its end. A map holds each key once, so no other entry
/// has the key of the pair given back.
#[verifier::external_body]
fn string_map_get_index(m: &IndexMap<String, String>, i: usize) -> (r: Option<(&String, &String)>)
    ensures
        match r {
            Some(kv) => {
                &&& i < string_map_entries(*m).len()
                &&& kv.0@ == string_map_entries(*m)[i as int].0
                &&& kv.1@ == string_map_entries(*m)[i as int].1
                &&& forall|j: int|
                    0 <= j < string_map_entries(*m).len() && j != i ==> #[trigger] string_map_entries(
                        *m,
                    )[j].0 != kv.0@
            },
            None => i >= string_map_entries(*m).len(),
        },
{
    m.get_index(i)
}

/// The texts of a sequence of string pairs.
pub open spec fn pair_views(v: Seq<(String, String)>) -> Seq<(Seq<char>, Seq<char>)> {
    v.map_values(|p: (String, String)| (p.0@, p.1@))
}

/// Keys are listed once each.
pub open spec fn distinct_keys<V>(m: Seq<(Seq<char>, V)>) -> bool {
    forall|i: int, j: int| 0 <= i < j < m.len() ==> m[i].0 != m[j].0
}

/// The pairs of a map of strings, in its order; each key occurs once.
pub fn string_map_pairs(m: &IndexMap<String, String>) -> (r: Vec<(String, String)>)
    ensures
        pair_views(r@) == string_map_entries(*m),
        distinct_keys(string_map_entries(*m)),
{
    let mut r: Vec<(String, String)> = Vec::new();
    let mut i: usize = 0;
    loop
        invariant
            i <= string_map_entries(*m).len(),
            i == r@.len(),
            pair_views(r@) == string_map_entries(*m).take(i as int),
            forall|a: int, j: int|
                #![trigger string_map_entries(*m)[a], string_map_entries(*m)[j]]
                0 <= a < i && 0 <= j < string_map_entries(*m).len() && a != j
                    ==> string_map_entries(*m)[a].0 != string_map_entries(*m)[j].0,
        decreases string_map_entries(*m).len() - i,
    {
        match string_map_get_index(m, i) {
            Some(kv) => {
                let ghost before = r@;
                r.push((kv.0.clone(), kv.1.clone()));
                proof {
                    assert(pair_views(r@) =~= pair_views(before).push(string_map_entries(*m)[i as int]));
                    assert(string_map_entries(*m).take(i + 1) =~= string_map_entries(*m).take(i as int).push(string_map_entries(*m)[i as int]));
                }
                i = r.len();
            },
            None => {
                proof {
                    assert(string_map_entries(*m).take(i as int) =~= string_map_entries(*m));
                }
                return r;
            },
        }
    }
}

} // verus!
