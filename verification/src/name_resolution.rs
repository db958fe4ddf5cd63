//! Resolution of the plugins that format a file: by association patterns, by
//! file name, by extension, and for an extensionless file by its shebang line.

use indexmap::IndexMap;
use vstd::prelude::*;
use vstd::utf8::encode_utf8;

use crate::environment::{
    matches_answer, matches_detail_answer, AssociationMatcher, GlobMatchesDetail,
};
use crate::index_map::{distinct_keys, pair_views, string_map_entries, string_map_pairs};
use crate::file_path_utils::{
    append_extension, get_lowercase_file_extension, get_lowercase_file_name,
    lowercase_file_extension, lowercase_file_name,
};
use crate::shebang::{
    is_prefix_of, lemma_normalize_idempotent, matches_key, normalize_shebang_line, normalized_shebang, parse_shebang_line, parsed_shebang,
    shebang_line_matches_key,
};
use crate::text::{lowercase, string_views, to_lowercase};

verus! {

/// Plugin names listed under a key, the keys in first-seen order.
pub type NamesByKey = Seq<(Seq<char>, Seq<Seq<char>>)>;

/// The length in bytes of a text, as `str::len` reports it.
pub open spec fn key_byte_len(k: Seq<char>) -> usize {
    encode_utf8(k).len() as usize
}

/// The last index at which `m` holds `key`, or -1.
pub open spec fn key_index<V>(m: Seq<(Seq<char>, V)>, key: Seq<char>) -> int
    decreases m.len(),
{
    if m.len() == 0 {
        -1
    } else if m.last().0 == key {
        m.len() - 1
    } else {
        key_index(m.drop_last(), key)
    }
}

/// The names listed under `key`.
pub open spec fn lookup(m: NamesByKey, key: Seq<char>) -> Option<Seq<Seq<char>>> {
    let k: int = key_index(m, key);
    if k >= 0 {
        Some(m[k].1)
    } else {
        None
    }
}

/// `m` with `name` added at the end of the names listed under `key`.
pub open spec fn insert_name(m: NamesByKey, key: Seq<char>, name: Seq<char>) -> NamesByKey {
    let k: int = key_index(m, key);
    if k >= 0 {
        m.update(k, (key, m[k].1.push(name)))
    } else {
        m.push((key, seq![name]))
    }
}

/// The map made by adding each (key, name) pair in turn.
pub open spec fn names_by_key(pairs: Seq<(Seq<char>, Seq<char>)>) -> NamesByKey
    decreases pairs.len(),
{
    if pairs.len() == 0 {
        seq![]
    } else {
        insert_name(names_by_key(pairs.drop_last()), pairs.last().0, pairs.last().1)
    }
}

/// A plugin as name resolution reads it: its name, the file extensions and file
/// names it formats by default, and its compiled association patterns, if any.
pub struct PluginMatching<M> {
    pub name: String,
    pub file_extensions: Vec<String>,
    pub file_names: Vec<String>,
    pub association_matcher: Option<M>,
}

/// The texts of a `PluginMatching`.
pub struct PluginMatchingView {
    pub name: Seq<char>,
    pub file_extensions: Seq<Seq<char>>,
    pub file_names: Seq<Seq<char>>,
    pub has_associations: bool,
}

impl<M> View for PluginMatching<M> {
    type V = PluginMatchingView;

    open spec fn view(&self) -> PluginMatchingView {
        PluginMatchingView {
            name: self.name@,
            file_extensions: string_views(self.file_extensions@),
            file_names: string_views(self.file_names@),
            has_associations: self.association_matcher is Some,
        }
    }
}

/// The views of a sequence of plugins.
pub open spec fn plugin_views<M>(plugins: Seq<PluginMatching<M>>) -> Seq<PluginMatchingView> {
    plugins.map_values(|p: PluginMatching<M>| p@)
}

/// Each of `keys`, lower-cased, paired with `name`.
pub open spec fn keyed_name(keys: Seq<Seq<char>>, name: Seq<char>) -> Seq<(Seq<char>, Seq<char>)> {
    keys.map_values(|k: Seq<char>| (lowercase(k), name))
}

/// (lower-cased extension, plugin name) for every extension of every plugin.
pub open spec fn extension_pairs(plugins: Seq<PluginMatchingView>) -> Seq<(Seq<char>, Seq<char>)>
    decreases plugins.len(),
{
    if plugins.len() == 0 {
        seq![]
    } else {
        extension_pairs(plugins.drop_last()) + keyed_name(
            plugins.last().file_extensions,
            plugins.last().name,
        )
    }
}

/// (lower-cased file name, plugin name) for every file name of every plugin.
pub open spec fn file_name_pairs(plugins: Seq<PluginMatchingView>) -> Seq<(Seq<char>, Seq<char>)>
    decreases plugins.len(),
{
    if plugins.len() == 0 {
        seq![]
    } else {
        file_name_pairs(plugins.drop_last()) + keyed_name(
            plugins.last().file_names,
            plugins.last().name,
        )
    }
}

/// The names of the plugins that have association patterns, in order.
pub open spec fn association_names_of(plugins: Seq<PluginMatchingView>) -> Seq<Seq<char>>
    decreases plugins.len(),
{
    if plugins.len() == 0 {
        seq![]
    } else {
        let prev = association_names_of(plugins.drop_last());
        if plugins.last().has_associations {
            prev.push(plugins.last().name)
        } else {
            prev
        }
    }
}

/// The association matchers of the plugins that have them, in order.
pub open spec fn association_matchers_of<M>(plugins: Seq<PluginMatching<M>>) -> Seq<M>
    decreases plugins.len(),
{
    if plugins.len() == 0 {
        seq![]
    } else {
        let prev = association_matchers_of(plugins.drop_last());
        match plugins.last().association_matcher {
            Some(m) => prev.push(m),
            None => prev,
        }
    }
}

/// The names paired with `key`, in order.
pub open spec fn names_with_key(pairs: Seq<(Seq<char>, Seq<char>)>, key: Seq<char>) -> Seq<Seq<char>>
    decreases pairs.len(),
{
    if pairs.len() == 0 {
        seq![]
    } else {
        let prev = names_with_key(pairs.drop_last(), key);
        if pairs.last().0 == key {
            prev.push(pairs.last().1)
        } else {
            prev
        }
    }
}

/// A key of the map built from (key, name) pairs lists exactly the names
/// paired with it, in the order of the pairs; a key paired with nothing is not
/// in the map.
pub proof fn lemma_names_by_key_lookup(pairs: Seq<(Seq<char>, Seq<char>)>, key: Seq<char>)
    ensures
        lookup(names_by_key(pairs), key) == if names_with_key(pairs, key).len() > 0 {
            Some(names_with_key(pairs, key))
        } else {
            None::<Seq<Seq<char>>>
        },
    decreases pairs.len(),
{
    if pairs.len() > 0 {
        let dl = pairs.drop_last();
        let (k, n) = pairs.last();
        let m = names_by_key(dl);
        lemma_names_by_key_lookup(dl, key);
        lemma_names_by_key_distinct(dl);
        lemma_key_index(m, k);
        lemma_key_index(m, key);
        let m2 = insert_name(m, k, n);
        lemma_key_index(m2, key);
        lemma_key_index(m2, k);
        let i = key_index(m, k);
        if i >= 0 {
            assert(m2.len() == m.len());
            if k == key {
                assert(key_index(m2, key) == i) by {
                    lemma_names_by_key_distinct(pairs);
                    let j = key_index(m2, key);
                    assert(m2[i].0 == key);
                    if j != i && j >= 0 {
                        assert(m2[j].0 == key);
                    }
                }
            } else {
                let j = key_index(m, key);
                if j >= 0 {
                    assert(m2[j].0 == key);
                    lemma_names_by_key_distinct(pairs);
                    assert(key_index(m2, key) == j) by {
                        let j2 = key_index(m2, key);
                        if j2 != j && j2 >= 0 {
                            assert(m2[j2].0 == key);
                        }
                    }
                } else {
                    assert forall|q: int| 0 <= q < m2.len() implies m2[q].0 != key by {
                        if q == i {
                            assert(m2[q].0 == k);
                        } else {
                            assert(m2[q] == m[q]);
                        }
                    }
                }
            }
        } else {
            assert(m2 =~= m.push((k, seq![n])));
            if k == key {
                assert(key_index(m2, key) == m.len());
                assert(names_with_key(dl, key).len() == 0);
                assert(names_with_key(pairs, key) =~= seq![n]);
            } else {
                assert(m2.drop_last() =~= m);
            }
        }
    }
}

/// Where an entry whose key has `n` bytes goes in a list ordered longest key
/// first: after every entry whose key is at least as long.
pub open spec fn hashbang_insert_pos(s: Seq<(Seq<char>, Seq<char>)>, n: usize) -> int
    decreases s.len(),
{
    if s.len() == 0 {
        0
    } else if key_byte_len(s[0].0) < n {
        0
    } else {
        1 + hashbang_insert_pos(s.skip(1), n)
    }
}

/// The entries ordered longest key first, entries of equal key length keeping
/// their order (a stable sort by descending key length).
pub open spec fn sorted_by_key_len(entries: Seq<(Seq<char>, Seq<char>)>) -> Seq<
    (Seq<char>, Seq<char>),
>
    decreases entries.len(),
{
    if entries.len() == 0 {
        seq![]
    } else {
        let s = sorted_by_key_len(entries.drop_last());
        s.insert(hashbang_insert_pos(s, key_byte_len(entries.last().0)), entries.last())
    }
}

/// Keys are ordered longest first.
pub open spec fn longest_key_first(s: Seq<(Seq<char>, Seq<char>)>) -> bool {
    forall|i: int, j: int|
        0 <= i < j < s.len() ==> key_byte_len(#[trigger] s[i].0) >= key_byte_len(#[trigger] s[j].0)
}

/// What the resolution maps hold.
pub struct ResolutionMapsView {
    /// Plugin names by lower-cased file extension.
    pub extensions: NamesByKey,
    /// Plugin names by lower-cased file name.
    pub file_names: NamesByKey,
    /// The names of the plugins with association patterns, in order.
    pub association_names: Seq<Seq<char>>,
    /// Normalized shebang prefixes and their file extensions, longest first.
    pub hashbangs: Seq<(Seq<char>, Seq<char>)>,
}

/// The maps that `from_plugins` builds.
pub open spec fn maps_from_plugins(
    plugins: Seq<PluginMatchingView>,
    hashbangs: Seq<(Seq<char>, Seq<char>)>,
) -> ResolutionMapsView {
    ResolutionMapsView {
        extensions: names_by_key(extension_pairs(plugins)),
        file_names: names_by_key(file_name_pairs(plugins)),
        association_names: association_names_of(plugins),
        hashbangs: sorted_by_key_len(normalized_keys(hashbangs)),
    }
}

/// The configured shebang mappings with each key normalized as a shebang line.
pub open spec fn normalized_keys(entries: Seq<(Seq<char>, Seq<char>)>) -> Seq<
    (Seq<char>, Seq<char>),
> {
    entries.map_values(|e: (Seq<char>, Seq<char>)| (normalized_shebang(e.0), e.1))
}


/// The extension of the first entry whose key a normalized line matches.
pub open spec fn first_matching_extension(hb: Seq<(Seq<char>, Seq<char>)>, line: Seq<char>) -> Option<
    Seq<char>,
>
    decreases hb.len(),
{
    if hb.len() == 0 {
        None
    } else if matches_key(line, hb[0].0) {
        Some(hb[0].1)
    } else {
        first_matching_extension(hb.skip(1), line)
    }
}

/// The extension mapped to a shebang line: that of the first prefix, in the
/// maps' order, that the normalized line starts with at a whitespace boundary.
pub open spec fn resolved_hashbang_extension(
    hb: Seq<(Seq<char>, Seq<char>)>,
    shebang_line: Seq<char>,
) -> Option<Seq<char>> {
    first_matching_extension(hb, normalized_shebang(shebang_line))
}

/// What each association matcher answered of one path: `matches` and
/// `matches_detail`, in the order of the matchers.
pub struct AssociationResults {
    pub matched: Vec<bool>,
    pub details: Vec<GlobMatchesDetail>,
}

/// The answers of the association matchers for one path.
pub struct AssociationResultsView {
    pub matched: Seq<bool>,
    pub details: Seq<GlobMatchesDetail>,
}

impl View for AssociationResults {
    type V = AssociationResultsView;

    open spec fn view(&self) -> AssociationResultsView {
        AssociationResultsView { matched: self.matched@, details: self.details@ }
    }
}

/// Answers from every matcher of the maps.
pub open spec fn answers_fit(maps: ResolutionMapsView, a: AssociationResultsView) -> bool {
    a.matched.len() == maps.association_names.len() && a.details.len()
        == maps.association_names.len()
}

/// Answers that the matchers gave for a path: for each matcher in turn, an
/// answer that its `matches` and its `matches_detail` can give for the path.
pub open spec fn answers_from<M: AssociationMatcher>(
    matchers: Seq<M>,
    path: Seq<char>,
    a: AssociationResultsView,
) -> bool {
    &&& a.matched.len() == matchers.len()
    &&& a.details.len() == matchers.len()
    &&& forall|i: int|
        0 <= i < matchers.len() ==> matches_answer(#[trigger] matchers[i], path, a.matched[i])
            && matches_detail_answer(matchers[i], path, a.details[i])
}

/// The names of the plugins whose association patterns match.
pub open spec fn matched_association_names(names: Seq<Seq<char>>, matched: Seq<bool>) -> Seq<
    Seq<char>,
>
    decreases names.len(),
{
    if names.len() == 0 {
        seq![]
    } else {
        let prev = matched_association_names(names.drop_last(), matched);
        if matched[names.len() - 1] {
            prev.push(names.last())
        } else {
            prev
        }
    }
}

/// The last index of `name` among `names`, or -1.
pub open spec fn name_index(names: Seq<Seq<char>>, name: Seq<char>) -> int
    decreases names.len(),
{
    if names.len() == 0 {
        -1
    } else if names.last() == name {
        names.len() - 1
    } else {
        name_index(names.drop_last(), name)
    }
}

/// Whether a plugin's association patterns leave the path to it: a plugin
/// without patterns always does, otherwise unless a negated pattern excludes
/// the path (the last matcher registered under the name decides).
pub open spec fn association_allows(
    names: Seq<Seq<char>>,
    details: Seq<GlobMatchesDetail>,
    plugin: Seq<char>,
) -> bool {
    let j = name_index(names, plugin);
    j < 0 || details[j] != GlobMatchesDetail::Excluded
}

/// The first plugin of `list` whose association patterns leave the path to it.
pub open spec fn first_allowed(
    list: Seq<Seq<char>>,
    names: Seq<Seq<char>>,
    details: Seq<GlobMatchesDetail>,
) -> Option<Seq<char>>
    decreases list.len(),
{
    if list.len() == 0 {
        None
    } else if association_allows(names, details, list[0]) {
        Some(list[0])
    } else {
        first_allowed(list.skip(1), names, details)
    }
}

/// The plugin that a key (a lower-cased file name or extension) selects.
pub open spec fn plugin_for_key(
    m: NamesByKey,
    key: Option<Seq<char>>,
    names: Seq<Seq<char>>,
    details: Seq<GlobMatchesDetail>,
) -> Option<Seq<char>> {
    match key {
        Some(k) => match lookup(m, k) {
            Some(list) => first_allowed(list, names, details),
            None => None,
        },
        None => None,
    }
}

/// The plugins that format a path, given what the association matchers say of
/// it: every plugin whose associations match; otherwise the first plugin for
/// its file name that its associations do not exclude; otherwise the same for
/// its extension; otherwise none.
pub open spec fn plugin_names_for(
    maps: ResolutionMapsView,
    path: Seq<char>,
    a: AssociationResultsView,
) -> Seq<Seq<char>> {
    let assoc = matched_association_names(maps.association_names, a.matched);
    if assoc.len() > 0 {
        assoc
    } else {
        match plugin_for_key(
            maps.file_names,
            lowercase_file_name(path),
            maps.association_names,
            a.details,
        ) {
            Some(p) => seq![p],
            None => match plugin_for_key(
                maps.extensions,
                lowercase_file_extension(path),
                maps.association_names,
                a.details,
            ) {
                Some(p) => seq![p],
                None => seq![],
            },
        }
    }
}

/// Whether a file that no plugin claims may be routed by its shebang: the maps
/// hold shebang mappings and the path has no extension.
pub open spec fn may_route_by_shebang(
    maps: ResolutionMapsView,
    path: Seq<char>,
    names: Seq<Seq<char>>,
) -> bool {
    names.len() == 0 && maps.hashbangs.len() > 0 && lowercase_file_extension(path) is None
}

/// Plugin names and the extension that the plugin sees appended, for a path
/// whose own resolution gave `first` (from answers `a1`), `start` being the
/// start of the file (consulted only when the file may be routed by its
/// shebang) and `a2` the answers for the path with the mapped extension.
pub open spec fn shebang_route(
    maps: ResolutionMapsView,
    path: Seq<char>,
    a1: AssociationResultsView,
    start: Option<Seq<u8>>,
    a2: AssociationResultsView,
) -> (Seq<Seq<char>>, Option<Seq<char>>) {
    let first = plugin_names_for(maps, path, a1);
    if !may_route_by_shebang(maps, path, first) {
        (first, None)
    } else {
        match start {
            Some(bytes) => match parsed_shebang(bytes) {
                Some(line) => match resolved_hashbang_extension(maps.hashbangs, line) {
                    Some(ext) => {
                        let names = plugin_names_for(maps, path + seq!['.'] + ext, a2);
                        if names.len() > 0 {
                            (names, Some(ext))
                        } else {
                            (first, None)
                        }
                    },
                    None => (first, None),
                },
                None => (first, None),
            },
            None => (first, None),
        }
    }
}

/// The extension that a file's shebang maps it to, when the file may be routed
/// by its shebang (its own answers `a1` giving it no plugin) and its start
/// `start` holds a shebang line that a configured key matches.
pub open spec fn shebang_extension(
    maps: ResolutionMapsView,
    path: Seq<char>,
    a1: AssociationResultsView,
    start: Option<Seq<u8>>,
) -> Option<Seq<char>> {
    if may_route_by_shebang(maps, path, plugin_names_for(maps, path, a1)) {
        match start {
            Some(bytes) => match parsed_shebang(bytes) {
                Some(line) => resolved_hashbang_extension(maps.hashbangs, line),
                None => None,
            },
            None => None,
        }
    } else {
        None
    }
}

/// The second path that the matchers are asked about: the file's path with the
/// extension its shebang maps it to, if any.
pub open spec fn second_query(
    maps: ResolutionMapsView,
    path: Seq<char>,
    a1: AssociationResultsView,
    start: Option<Seq<u8>>,
) -> Option<Seq<char>> {
    match shebang_extension(maps, path, a1, start) {
        Some(ext) => Some(path + seq!['.'] + ext),
        None => None,
    }
}

/// Answers that the matchers gave for the second path, when there is one.
pub open spec fn answers_for_query<M: AssociationMatcher>(
    matchers: Seq<M>,
    query: Option<Seq<char>>,
    a: AssociationResultsView,
) -> bool {
    match query {
        Some(path) => answers_from(matchers, path, a),
        None => true,
    }
}

/// The path that the plugin sees: the file's own, or it with the mapped
/// extension appended.
pub open spec fn format_path_of(path: Seq<char>, ext: Option<Seq<char>>) -> Seq<char> {
    match ext {
        Some(e) => path + seq!['.'] + e,
        None => path,
    }
}

/// What `resolve_for_format` returns for a file's path and bytes.
pub open spec fn resolved_for_format(
    maps: ResolutionMapsView,
    path: Seq<char>,
    bytes: Seq<u8>,
    a1: AssociationResultsView,
    a2: AssociationResultsView,
) -> (Seq<Seq<char>>, Seq<char>) {
    let r = shebang_route(maps, path, a1, Some(bytes), a2);
    (r.0, format_path_of(path, r.1))
}

/// The texts of a map from strings to lists of strings.
pub open spec fn names_map_views(m: Seq<(String, Vec<String>)>) -> NamesByKey {
    m.map_values(|e: (String, Vec<String>)| (e.0@, string_views(e.1@)))
}

/// Maps that resolve which plugins format a file.
pub struct PluginNameResolutionMaps<M> {
    extension_to_plugin_names_map: Vec<(String, Vec<String>)>,
    file_name_to_plugin_names_map: Vec<(String, Vec<String>)>,
    /// Association matchers ordered by precedence.
    association_matchers: Vec<(String, M)>,
    /// Normalized shebang line prefixes mapped to a file extension (without a
    /// leading dot), ordered longest-first so the most specific prefix wins.
    hashbang_extensions: Vec<(String, String)>,
}

impl<M> View for PluginNameResolutionMaps<M> {
    type V = ResolutionMapsView;

    closed spec fn view(&self) -> ResolutionMapsView {
        ResolutionMapsView {
            extensions: names_map_views(self.extension_to_plugin_names_map@),
            file_names: names_map_views(self.file_name_to_plugin_names_map@),
            association_names: self.association_matchers@.map_values(|e: (String, M)| e.0@),
            hashbangs: pair_views(self.hashbang_extensions@),
        }
    }
}

/// Plugin `p`'s association patterns do not exclude the path: the matcher
/// registered last under its name, if there is one, does not answer `Excluded`.
pub open spec fn not_excluded(
    names: Seq<Seq<char>>,
    details: Seq<GlobMatchesDetail>,
    p: Seq<char>,
) -> bool {
    forall|j: int|
        #![trigger names[j]]
        0 <= j < names.len() && names[j] == p && (forall|k: int|
            j < k < names.len() ==> names[k] != p) ==> details[j] != GlobMatchesDetail::Excluded
}

/// No plugin listed under the key (if there is a key) is left to the path by
/// its associations.
pub open spec fn none_allowed_under(
    m: NamesByKey,
    key: Option<Seq<char>>,
    names: Seq<Seq<char>>,
    details: Seq<GlobMatchesDetail>,
) -> bool {
    match key {
        None => true,
        Some(k) => forall|e: int, q: int|
            0 <= e < m.len() && m[e].0 == k && 0 <= q < m[e].1.len() ==> !not_excluded(
                names,
                details,
                #[trigger] m[e].1[q],
            ),
    }
}

proof fn lemma_name_index(names: Seq<Seq<char>>, p: Seq<char>)
    ensures
        -1 <= name_index(names, p) < names.len(),
        name_index(names, p) >= 0 ==> names[name_index(names, p)] == p,
        forall|k: int| name_index(names, p) < k < names.len() ==> names[k] != p,
    decreases names.len(),
{
    if names.len() > 0 && names.last() != p {
        lemma_name_index(names.drop_last(), p);
        assert forall|k: int| name_index(names, p) < k < names.len() implies names[k] != p by {
            if k < names.len() - 1 {
                assert(names[k] == names.drop_last()[k]);
            }
        }
    }
}

proof fn lemma_allows_iff_not_excluded(
    names: Seq<Seq<char>>,
    details: Seq<GlobMatchesDetail>,
    p: Seq<char>,
)
    ensures
        association_allows(names, details, p) <==> not_excluded(names, details, p),
{
    lemma_name_index(names, p);
    let i = name_index(names, p);
    if i >= 0 {
        if not_excluded(names, details, p) {
            assert(names[i] == p);
        }
        if association_allows(names, details, p) {
            assert forall|j: int|
                #![trigger names[j]]
                0 <= j < names.len() && names[j] == p && (forall|k: int|
                    j < k < names.len() ==> names[k] != p) implies details[j]
                != GlobMatchesDetail::Excluded by {
                if j < i {
                    assert(names[i] == p);
                }
            }
        }
    } else {
        assert forall|j: int|
            #![trigger names[j]]
            0 <= j < names.len() && names[j] == p && (forall|k: int|
                j < k < names.len() ==> names[k] != p) implies details[j]
            != GlobMatchesDetail::Excluded by {
            assert(names[j] != p);
        }
    }
}

proof fn lemma_first_allowed(list: Seq<Seq<char>>, names: Seq<Seq<char>>, details: Seq<GlobMatchesDetail>)
    ensures
        match first_allowed(list, names, details) {
            Some(p) => exists|j: int|
                0 <= j < list.len() && #[trigger] list[j] == p && association_allows(names, details, p)
                    && forall|k: int| 0 <= k < j ==> !association_allows(names, details, #[trigger] list[k]),
            None => forall|k: int| 0 <= k < list.len() ==> !association_allows(names, details, #[trigger] list[k]),
        },
    decreases list.len(),
{
    if list.len() > 0 {
        let t = list.skip(1);
        lemma_first_allowed(t, names, details);
        if !association_allows(names, details, list[0]) {
            match first_allowed(t, names, details) {
                Some(p) => {
                    let j = choose|j: int|
                        0 <= j < t.len() && #[trigger] t[j] == p && association_allows(names, details, p)
                            && forall|k: int| 0 <= k < j ==> !association_allows(names, details, #[trigger] t[k]);
                    assert(list[j + 1] == p);
                    assert forall|k: int| 0 <= k < j + 1 implies !association_allows(names, details, #[trigger] list[k]) by {
                        if k > 0 {
                            assert(list[k] == t[k - 1]);
                        }
                    }
                },
                None => {
                    assert forall|k: int| 0 <= k < list.len() implies !association_allows(names, details, #[trigger] list[k]) by {
                        if k > 0 {
                            assert(list[k] == t[k - 1]);
                        }
                    }
                },
            }
        } else {
            assert(list[0] == list[0]);
        }
    }
}

/// What a key selects, given that `list` is listed under it.
proof fn lemma_plugin_for_listed_key(
    m: NamesByKey,
    key: Seq<char>,
    list: Seq<Seq<char>>,
    names: Seq<Seq<char>>,
    details: Seq<GlobMatchesDetail>,
)
    requires
        distinct_keys(m),
        m.contains((key, list)),
    ensures
        plugin_for_key(m, Some(key), names, details) == first_allowed(list, names, details),
{
    lemma_key_index(m, key);
    let e = choose|e: int| 0 <= e < m.len() && m[e] == (key, list);
    let k = key_index(m, key);
    if k != e {
        if k < e {
            assert(m[k].0 != m[e].0);
        } else {
            assert(m[e].0 != m[k].0);
        }
    }
}

/// What a key selects when no plugin listed under it is left to the path.
proof fn lemma_plugin_for_key_none(
    m: NamesByKey,
    key: Option<Seq<char>>,
    names: Seq<Seq<char>>,
    details: Seq<GlobMatchesDetail>,
)
    requires
        none_allowed_under(m, key, names, details),
    ensures
        plugin_for_key(m, key, names, details) is None,
{
    if let Some(k) = key {
        lemma_key_index(m, k);
        let e = key_index(m, k);
        if e >= 0 {
            let list = m[e].1;
            lemma_first_allowed(list, names, details);
            if let Some(p) = first_allowed(list, names, details) {
                let j = choose|j: int|
                    0 <= j < list.len() && #[trigger] list[j] == p && association_allows(names, details, p)
                        && forall|q: int| 0 <= q < j ==> !association_allows(names, details, #[trigger] list[q]);
                lemma_allows_iff_not_excluded(names, details, p);
                assert(!not_excluded(names, details, m[e].1[j]));
            }
        }
    }
}

/// When no association pattern matches, nothing is chosen by association.
proof fn lemma_no_association_match(names: Seq<Seq<char>>, matched: Seq<bool>)
    requires
        names.len() <= matched.len(),
        forall|i: int| 0 <= i < matched.len() ==> !matched[i],
    ensures
        matched_association_names(names, matched).len() == 0,
    decreases names.len(),
{
    if names.len() > 0 {
        lemma_no_association_match(names.drop_last(), matched);
    }
}

/// The first plugin of a list that its associations leave to the path.
proof fn lemma_first_left_is_chosen(
    list: Seq<Seq<char>>,
    names: Seq<Seq<char>>,
    details: Seq<GlobMatchesDetail>,
    j: int,
)
    requires
        0 <= j < list.len(),
        not_excluded(names, details, list[j]),
        forall|k: int| 0 <= k < j ==> !not_excluded(names, details, #[trigger] list[k]),
    ensures
        first_allowed(list, names, details) == Some(list[j]),
{
    lemma_first_allowed(list, names, details);
    lemma_allows_iff_not_excluded(names, details, list[j]);
    match first_allowed(list, names, details) {
        Some(p) => {
            let i = choose|i: int|
                0 <= i < list.len() && #[trigger] list[i] == p && association_allows(names, details, p)
                    && forall|k: int| 0 <= k < i ==> !association_allows(names, details, #[trigger] list[k]);
            lemma_allows_iff_not_excluded(names, details, list[i]);
            if i < j {
                assert(!not_excluded(names, details, list[i]));
            } else if j < i {
                assert(!association_allows(names, details, list[j]));
            }
        },
        None => {
            assert(!association_allows(names, details, list[j]));
        },
    }
}

/// A file name comes before an extension: when no association pattern matches
/// a path and plugins are listed under its lower-cased file name, the result is
/// the first of them that its associations do not exclude, whatever the
/// extension maps to.
pub proof fn lemma_file_name_plugin_wins(
    maps: ResolutionMapsView,
    path: Seq<char>,
    a: AssociationResultsView,
    list: Seq<Seq<char>>,
    j: int,
)
    requires
        resolution_maps_wf(maps),
        answers_fit(maps, a),
        forall|i: int| 0 <= i < a.matched.len() ==> !a.matched[i],
        lowercase_file_name(path) matches Some(name) && maps.file_names.contains((name, list)),
        0 <= j < list.len(),
        not_excluded(maps.association_names, a.details, list[j]),
        forall|k: int| 0 <= k < j ==> !not_excluded(maps.association_names, a.details, #[trigger] list[k]),
    ensures
        plugin_names_for(maps, path, a) == seq![list[j]],
{
    lemma_no_association_match(maps.association_names, a.matched);
    let name = lowercase_file_name(path)->Some_0;
    lemma_plugin_for_listed_key(maps.file_names, name, list, maps.association_names, a.details);
    lemma_first_left_is_chosen(list, maps.association_names, a.details, j);
}

/// An extension comes next: when no association pattern matches a path and no
/// plugin listed under its file name is left to it, the result is the first
/// plugin listed under its lower-cased extension that its associations do not
/// exclude; a plugin that they exclude is passed over.
pub proof fn lemma_extension_plugin_next(
    maps: ResolutionMapsView,
    path: Seq<char>,
    a: AssociationResultsView,
    list: Seq<Seq<char>>,
    j: int,
)
    requires
        resolution_maps_wf(maps),
        answers_fit(maps, a),
        forall|i: int| 0 <= i < a.matched.len() ==> !a.matched[i],
        none_allowed_under(maps.file_names, lowercase_file_name(path), maps.association_names, a.details),
        lowercase_file_extension(path) matches Some(ext) && maps.extensions.contains((ext, list)),
        0 <= j < list.len(),
        not_excluded(maps.association_names, a.details, list[j]),
        forall|k: int| 0 <= k < j ==> !not_excluded(maps.association_names, a.details, #[trigger] list[k]),
    ensures
        plugin_names_for(maps, path, a) == seq![list[j]],
{
    lemma_no_association_match(maps.association_names, a.matched);
    lemma_plugin_for_key_none(maps.file_names, lowercase_file_name(path), maps.association_names, a.details);
    let ext = lowercase_file_extension(path)->Some_0;
    lemma_plugin_for_listed_key(maps.extensions, ext, list, maps.association_names, a.details);
    lemma_first_left_is_chosen(list, maps.association_names, a.details, j);
}

/// No plugin formats a path that no association pattern matches and for which
/// every plugin listed under its file name and under its extension is excluded
/// (or none is listed).
pub proof fn lemma_no_plugin_left(maps: ResolutionMapsView, path: Seq<char>, a: AssociationResultsView)
    requires
        answers_fit(maps, a),
        forall|i: int| 0 <= i < a.matched.len() ==> !a.matched[i],
        none_allowed_under(maps.file_names, lowercase_file_name(path), maps.association_names, a.details),
        none_allowed_under(maps.extensions, lowercase_file_extension(path), maps.association_names, a.details),
    ensures
        plugin_names_for(maps, path, a).len() == 0,
{
    lemma_no_association_match(maps.association_names, a.matched);
    lemma_plugin_for_key_none(maps.file_names, lowercase_file_name(path), maps.association_names, a.details);
    lemma_plugin_for_key_none(maps.extensions, lowercase_file_extension(path), maps.association_names, a.details);
}

/// The positions of the names that matched, in increasing order: `f` lists,
/// in order, exactly the indices `i` below `n` with `matched[i]`, and the
/// matched names are `names` at those indices.
proof fn lemma_matched_positions(names: Seq<Seq<char>>, matched: Seq<bool>) -> (f: Seq<int>)
    requires
        names.len() <= matched.len(),
    ensures
        f.len() == matched_association_names(names, matched).len(),
        forall|k: int|
            0 <= k < f.len() ==> 0 <= #[trigger] f[k] < names.len() && matched[f[k]]
                && matched_association_names(names, matched)[k] == names[f[k]],
        forall|k1: int, k2: int| 0 <= k1 < k2 < f.len() ==> f[k1] < f[k2],
        forall|i: int| 0 <= i < names.len() && matched[i] ==> exists|k: int| 0 <= k < f.len() && #[trigger] f[k] == i,
    decreases names.len(),
{
    if names.len() == 0 {
        seq![]
    } else {
        let n = names.len() - 1;
        let d = names.drop_last();
        let g = lemma_matched_positions(d, matched);
        let prev = matched_association_names(d, matched);
        if matched[n] {
            let f = g.push(n);
            assert forall|k: int| 0 <= k < f.len() implies 0 <= #[trigger] f[k] < names.len() && matched[f[k]]
                && matched_association_names(names, matched)[k] == names[f[k]] by {
                if k < g.len() {
                    assert(f[k] == g[k]);
                    assert(d[g[k]] == names[g[k]]);
                }
            }
            assert forall|i: int| 0 <= i < names.len() && matched[i] implies exists|k: int|
                0 <= k < f.len() && #[trigger] f[k] == i by {
                if i < n {
                    let k = choose|k: int| 0 <= k < g.len() && #[trigger] g[k] == i;
                    assert(f[k] == i);
                } else {
                    assert(f[g.len() as int] == i);
                }
            }
            f
        } else {
            assert forall|k: int| 0 <= k < g.len() implies 0 <= #[trigger] g[k] < names.len() && matched[g[k]]
                && matched_association_names(names, matched)[k] == names[g[k]] by {
                assert(d[g[k]] == names[g[k]]);
            }
            g
        }
    }
}

/// Every plugin whose association patterns match a path formats it: when any
/// does, the result is the names of exactly the plugins whose matchers match,
/// in the order of the plugins (the i-th name comes from a matching matcher,
/// in increasing order, and every matching matcher is among them).
pub proof fn lemma_every_matching_association_plugin(
    maps: ResolutionMapsView,
    path: Seq<char>,
    a: AssociationResultsView,
)
    requires
        answers_fit(maps, a),
        exists|i: int| 0 <= i < a.matched.len() && a.matched[i],
    ensures
        exists|f: Seq<int>|
            #![trigger f.len()]
            {
                let r = plugin_names_for(maps, path, a);
                &&& f.len() == r.len()
                &&& forall|k: int|
                    0 <= k < f.len() ==> 0 <= #[trigger] f[k] < maps.association_names.len()
                        && a.matched[f[k]] && r[k] == maps.association_names[f[k]]
                &&& forall|k1: int, k2: int| 0 <= k1 < k2 < f.len() ==> f[k1] < f[k2]
                &&& forall|i: int|
                    0 <= i < maps.association_names.len() && a.matched[i] ==> exists|k: int|
                        0 <= k < f.len() && #[trigger] f[k] == i
            },
{
    let f = lemma_matched_positions(maps.association_names, a.matched);
    let i = choose|i: int| 0 <= i < a.matched.len() && a.matched[i];
    let k = choose|k: int| 0 <= k < f.len() && #[trigger] f[k] == i;
    assert(matched_association_names(maps.association_names, a.matched).len() > 0);
}

/// A path that its own resolution (association, file name or extension) gives
/// plugins to keeps them and its own path: its shebang is not consulted, no
/// second path is asked about, and formatting resolves it the same way.
pub proof fn lemma_claimed_file_keeps_its_plugins(
    maps: ResolutionMapsView,
    path: Seq<char>,
    a1: AssociationResultsView,
    start: Option<Seq<u8>>,
    a2: AssociationResultsView,
    bytes: Seq<u8>,
)
    requires
        plugin_names_for(maps, path, a1).len() > 0,
    ensures
        shebang_route(maps, path, a1, start, a2) == (plugin_names_for(maps, path, a1), None::<Seq<char>>),
        second_query(maps, path, a1, start) is None,
        resolved_for_format(maps, path, bytes, a1, a2) == (plugin_names_for(maps, path, a1), path),
{
}

impl<M> Default for PluginNameResolutionMaps<M> {
    /// Maps that resolve no file: no extension, file name, association or
    /// shebang mapping.
    fn default() -> (r: Self)
        ensures
            r@ == (ResolutionMapsView {
                extensions: seq![],
                file_names: seq![],
                association_names: seq![],
                hashbangs: seq![],
            }),
            r.association_matchers() == Seq::<M>::empty(),
    {
        let r = PluginNameResolutionMaps {
            extension_to_plugin_names_map: Vec::new(),
            file_name_to_plugin_names_map: Vec::new(),
            association_matchers: Vec::new(),
            hashbang_extensions: Vec::new(),
        };
        proof {
            assert(r@.extensions =~= seq![]);
            assert(r@.file_names =~= seq![]);
            assert(r@.association_names =~= seq![]);
            assert(r@.hashbangs =~= seq![]);
            assert(r.association_matchers() =~= Seq::<M>::empty());
        }
        r
    }
}

impl<M> PluginNameResolutionMaps<M> {
    /// The association matchers, in the order of `association_names`.
    pub closed spec fn association_matchers(&self) -> Seq<M> {
        self.association_matchers@.map_values(|e: (String, M)| e.1)
    }
}

/// The maps' own shape: each key once, shebang prefixes longest first.
pub open spec fn resolution_maps_wf(v: ResolutionMapsView) -> bool {
    &&& distinct_keys(v.extensions)
    &&& distinct_keys(v.file_names)
    &&& longest_key_first(v.hashbangs)
}

/// `key_index` finds an entry with the key, or none is there.
pub proof fn lemma_key_index<V>(m: Seq<(Seq<char>, V)>, key: Seq<char>)
    ensures
        -1 <= key_index(m, key) < m.len(),
        key_index(m, key) >= 0 ==> m[key_index(m, key)].0 == key,
        key_index(m, key) < 0 ==> forall|i: int| 0 <= i < m.len() ==> m[i].0 != key,
    decreases m.len(),
{
    if m.len() > 0 {
        lemma_key_index(m.drop_last(), key);
        assert forall|i: int| 0 <= i < m.len() - 1 implies m[i] == m.drop_last()[i] by {}
    }
}

proof fn lemma_insert_name_distinct(m: NamesByKey, key: Seq<char>, name: Seq<char>)
    requires
        distinct_keys(m),
    ensures
        distinct_keys(insert_name(m, key, name)),
{
    lemma_key_index(m, key);
}

proof fn lemma_names_by_key_distinct(pairs: Seq<(Seq<char>, Seq<char>)>)
    ensures
        distinct_keys(names_by_key(pairs)),
    decreases pairs.len(),
{
    if pairs.len() > 0 {
        lemma_names_by_key_distinct(pairs.drop_last());
        lemma_insert_name_distinct(names_by_key(pairs.drop_last()), pairs.last().0, pairs.last().1);
    }
}

proof fn lemma_insert_pos(s: Seq<(Seq<char>, Seq<char>)>, n: usize)
    requires
        longest_key_first(s),
    ensures
        0 <= hashbang_insert_pos(s, n) <= s.len(),
        forall|i: int| 0 <= i < hashbang_insert_pos(s, n) ==> key_byte_len(#[trigger] s[i].0) >= n,
        forall|i: int| hashbang_insert_pos(s, n) <= i < s.len() ==> key_byte_len(#[trigger] s[i].0) < n,
    decreases s.len(),
{
    if s.len() > 0 && key_byte_len(s[0].0) >= n {
        let t = s.skip(1);
        assert(longest_key_first(t)) by {
            assert forall|i: int, j: int| 0 <= i < j < t.len() implies key_byte_len(
                #[trigger] t[i].0,
            ) >= key_byte_len(#[trigger] t[j].0) by {
                assert(t[i] == s[i + 1] && t[j] == s[j + 1]);
                assert(key_byte_len(s[i + 1].0) >= key_byte_len(s[j + 1].0));
            }
        }
        lemma_insert_pos(t, n);
        let p: int = hashbang_insert_pos(s, n);
        assert forall|i: int| 0 <= i < p implies key_byte_len(#[trigger] s[i].0) >= n by {
            if i > 0 {
                assert(s[i] == t[i - 1]);
            }
        }
        assert forall|i: int| p <= i < s.len() implies key_byte_len(#[trigger] s[i].0) < n by {
            assert(s[i] == t[i - 1]);
        }
    } else if s.len() > 0 {
        assert forall|i: int| 0 <= i < s.len() implies key_byte_len(#[trigger] s[i].0) < n by {
            if i > 0 {
                assert(key_byte_len(s[0].0) >= key_byte_len(s[i].0));
            }
        }
    }
}

proof fn lemma_sorted_by_key_len(entries: Seq<(Seq<char>, Seq<char>)>)
    ensures
        longest_key_first(sorted_by_key_len(entries)),
        sorted_by_key_len(entries).len() == entries.len(),
    decreases entries.len(),
{
    if entries.len() > 0 {
        lemma_sorted_by_key_len(entries.drop_last());
        let s = sorted_by_key_len(entries.drop_last());
        let e = entries.last();
        let n: usize = key_byte_len(e.0);
        lemma_insert_pos(s, n);
        let p: int = hashbang_insert_pos(s, n);
        let r = s.insert(p, e);
        assert forall|i: int, j: int| 0 <= i < j < r.len() implies key_byte_len(
            #[trigger] r[i].0,
        ) >= key_byte_len(#[trigger] r[j].0) by {
            if j < p {
                assert(r[i] == s[i] && r[j] == s[j]);
            } else if j == p {
                assert(r[i] == s[i]);
            } else if i < p {
                assert(r[i] == s[i] && r[j] == s[j - 1]);
            } else if i == p {
                assert(r[j] == s[j - 1]);
            } else {
                assert(r[i] == s[i - 1] && r[j] == s[j - 1]);
            }
        }
    }
}

/// Adds `name` under `key` (a lower-cased extension or file name).
fn insert_name_exec(m: &mut Vec<(String, Vec<String>)>, key: String, name: String)
    ensures
        names_map_views(final(m)@) == insert_name(names_map_views(old(m)@), key@, name@),
{
    let ghost v = names_map_views(m@);
    let mut k: usize = m.len();
    proof {
        assert(v.take(k as int) =~= v);
    }
    while k > 0
        invariant
            k <= m@.len(),
            m@ == old(m)@,
            v == names_map_views(m@),
            key_index(v, key@) == key_index(v.take(k as int), key@),
        decreases k,
    {
        proof {
            assert(v.take(k as int).drop_last() =~= v.take(k - 1));
            assert(v.take(k as int).last() == v[k - 1]);
        }
        if m[k - 1].0 == key {
            let (entry_key, mut names) = m.remove(k - 1);
            let ghost names_before = names@;
            names.push(name);
            m.insert(k - 1, (entry_key, names));
            proof {
                assert(key_index(v, key@) == k - 1);
                assert(names_map_views(m@) =~= v.update(k - 1, (key@, v[k - 1].1.push(name@)))) by {
                    assert(string_views(names@) =~= string_views(names_before).push(name@));
                }
            }
            return;
        }
        k = k - 1;
    }
    proof {
        assert(v.take(0) =~= Seq::<(Seq<char>, Seq<Seq<char>>)>::empty());
    }
    let ghost key_view = key@;
    let ghost name_view = name@;
    let mut names: Vec<String> = Vec::new();
    names.push(name);
    m.push((key, names));
    proof {
        assert(names_map_views(m@) =~= v.push((key_view, seq![name_view]))) by {
            assert(string_views(names@) =~= seq![name_view]);
        }
    }
}


proof fn lemma_first_matching_skip(hb: Seq<(Seq<char>, Seq<char>)>, line: Seq<char>, i: int)
    requires
        0 <= i < hb.len(),
    ensures
        first_matching_extension(hb.skip(i), line) == if matches_key(line, hb[i].0) {
            Some(hb[i].1)
        } else {
            first_matching_extension(hb.skip(i + 1), line)
        },
{
    assert(hb.skip(i)[0] == hb[i]);
    assert(hb.skip(i).skip(1) =~= hb.skip(i + 1));
}

/// The first entry, in order, whose key the line matches gives the extension;
/// no entry matches when there is none.
proof fn lemma_first_matching_extension(hb: Seq<(Seq<char>, Seq<char>)>, line: Seq<char>)
    ensures
        match first_matching_extension(hb, line) {
            Some(e) => exists|i: int|
                0 <= i < hb.len() && matches_key(line, #[trigger] hb[i].0) && hb[i].1 == e
                    && forall|j: int| 0 <= j < i ==> !matches_key(line, #[trigger] hb[j].0),
            None => forall|j: int| 0 <= j < hb.len() ==> !matches_key(line, #[trigger] hb[j].0),
        },
    decreases hb.len(),
{
    if hb.len() > 0 {
        let t = hb.skip(1);
        lemma_first_matching_extension(t, line);
        if !matches_key(line, hb[0].0) {
            match first_matching_extension(t, line) {
                Some(e) => {
                    let i = choose|i: int|
                        0 <= i < t.len() && matches_key(line, #[trigger] t[i].0) && t[i].1 == e
                            && forall|j: int| 0 <= j < i ==> !matches_key(line, #[trigger] t[j].0);
                    assert(hb[i + 1] == t[i]);
                    assert forall|j: int| 0 <= j < i + 1 implies !matches_key(line, #[trigger] hb[j].0) by {
                        if j > 0 {
                            assert(hb[j] == t[j - 1]);
                        }
                    }
                },
                None => {
                    assert forall|j: int| 0 <= j < hb.len() implies !matches_key(line, #[trigger] hb[j].0) by {
                        if j > 0 {
                            assert(hb[j] == t[j - 1]);
                        }
                    }
                },
            }
        }
    }
}

/// Ordering the shebang mappings by key length keeps every entry, as often as
/// it occurs.
pub proof fn lemma_sorted_by_key_len_permutes(entries: Seq<(Seq<char>, Seq<char>)>)
    ensures
        sorted_by_key_len(entries).to_multiset() == entries.to_multiset(),
    decreases entries.len(),
{
    if entries.len() > 0 {
        let d = entries.drop_last();
        lemma_sorted_by_key_len_permutes(d);
        lemma_sorted_by_key_len(d);
        let s = sorted_by_key_len(d);
        let n: usize = key_byte_len(entries.last().0);
        lemma_insert_pos(s, n);
        assert(d.push(entries.last()) =~= entries);
        vstd::seq_lib::to_multiset_insert(s, hashbang_insert_pos(s, n), entries.last());
        vstd::seq_lib::to_multiset_build(d, entries.last());
        assert(sorted_by_key_len(entries) == s.insert(hashbang_insert_pos(s, n), entries.last()));
    } else {
        assert(entries =~= sorted_by_key_len(entries));
    }
}

/// A prefix that is shorter than the text takes fewer bytes in UTF-8.
proof fn lemma_encode_prefix_shorter(p: Seq<char>, s: Seq<char>)
    requires
        is_prefix_of(p, s),
        p.len() < s.len(),
    ensures
        encode_utf8(p).len() < encode_utf8(s).len(),
    decreases p.len(),
{
    assert(encode_utf8(s) == vstd::utf8::encode_scalar(s[0] as u32) + encode_utf8(s.drop_first()));
    if p.len() > 0 {
        assert(p[0] == s.take(p.len() as int)[0]);
        assert(s.drop_first().take(p.drop_first().len() as int) =~= p.drop_first()) by {
            assert forall|k: int| 0 <= k < p.len() - 1 implies s.drop_first()[k] == p.drop_first()[k] by {
                assert(s.take(p.len() as int)[k + 1] == p[k + 1]);
            }
        }
        lemma_encode_prefix_shorter(p.drop_first(), s.drop_first());
    }
}

/// Of two different keys that a line starts with at a whitespace boundary, the
/// one with no more bytes is the shorter.
proof fn lemma_matching_keys_ordered(line: Seq<char>, k1: Seq<char>, k2: Seq<char>)
    requires
        matches_key(line, k1),
        matches_key(line, k2),
        k1 != k2,
        encode_utf8(k1).len() <= usize::MAX,
        encode_utf8(k2).len() <= usize::MAX,
        key_byte_len(k1) <= key_byte_len(k2),
    ensures
        k1.len() < k2.len(),
{
    if k1.len() == k2.len() {
        assert(k1 == line.take(k1.len() as int));
    } else if k1.len() > k2.len() {
        assert(is_prefix_of(k2, k1)) by {
            assert(k1.take(k2.len() as int) =~= line.take(k2.len() as int));
        }
        lemma_encode_prefix_shorter(k2, k1);
    }
}

/// A shebang line is resolved as its normalized form is: spacing makes no
/// difference.
pub proof fn lemma_resolution_sees_normalized_line(
    hb: Seq<(Seq<char>, Seq<char>)>,
    shebang_line: Seq<char>,
)
    ensures
        resolved_hashbang_extension(hb, normalized_shebang(shebang_line))
            == resolved_hashbang_extension(hb, shebang_line),
{
    lemma_normalize_idempotent(shebang_line);
}

/// The longest configured shebang key that a line starts with decides: when
/// the keys stay distinct once normalized, the extension mapped to a shebang
/// line is that of the one configured key which, normalized, the normalized
/// line starts with at a whitespace boundary and which is longer than every
/// other such key; when the line starts with none, no extension is mapped.
pub proof fn lemma_longest_configured_key_wins(
    entries: Seq<(Seq<char>, Seq<char>)>,
    shebang_line: Seq<char>,
)
    requires
        distinct_keys(normalized_keys(entries)),
        forall|i: int|
            0 <= i < entries.len() ==> encode_utf8(normalized_shebang(#[trigger] entries[i].0)).len()
                <= usize::MAX,
    ensures
        ({
            let line = normalized_shebang(shebang_line);
            match resolved_hashbang_extension(sorted_by_key_len(normalized_keys(entries)), shebang_line) {
                Some(ext) => exists|i: int|
                    0 <= i < entries.len() && matches_key(line, normalized_shebang(#[trigger] entries[i].0))
                        && entries[i].1 == ext && forall|j: int|
                        0 <= j < entries.len() && j != i && matches_key(
                            line,
                            normalized_shebang(#[trigger] entries[j].0),
                        ) ==> normalized_shebang(entries[j].0).len() < normalized_shebang(
                            entries[i].0,
                        ).len(),
                None => forall|j: int|
                    0 <= j < entries.len() ==> !matches_key(line, normalized_shebang(#[trigger] entries[j].0)),
            }
        }),
{
    let line = normalized_shebang(shebang_line);
    let ne = normalized_keys(entries);
    let hb = sorted_by_key_len(ne);
    lemma_first_matching_extension(hb, line);
    lemma_sorted_by_key_len(ne);
    lemma_sorted_by_key_len_permutes(ne);
    assert forall|j: int| #![trigger entries[j]] 0 <= j < entries.len() implies exists|q: int|
        0 <= q < hb.len() && #[trigger] hb[q] == ne[j] by {
        vstd::seq_lib::to_multiset_contains(ne, ne[j]);
        vstd::seq_lib::to_multiset_contains(hb, ne[j]);
        assert(ne.contains(ne[j]));
    }
    match first_matching_extension(hb, line) {
        Some(ext) => {
            let i = choose|i: int|
                0 <= i < hb.len() && matches_key(line, #[trigger] hb[i].0) && hb[i].1 == ext
                    && forall|j: int| 0 <= j < i ==> !matches_key(line, #[trigger] hb[j].0);
            vstd::seq_lib::to_multiset_contains(hb, hb[i]);
            vstd::seq_lib::to_multiset_contains(ne, hb[i]);
            assert(hb.contains(hb[i]));
            let w = choose|w: int| 0 <= w < ne.len() && ne[w] == hb[i];
            assert(ne[w] == (normalized_shebang(entries[w].0), entries[w].1));
            assert forall|j: int|
                0 <= j < entries.len() && j != w && matches_key(
                    line,
                    normalized_shebang(#[trigger] entries[j].0),
                ) implies normalized_shebang(entries[j].0).len() < normalized_shebang(
                entries[w].0,
            ).len() by {
                let q = choose|q: int| 0 <= q < hb.len() && #[trigger] hb[q] == ne[j];
                assert(ne[j].0 == normalized_shebang(entries[j].0));
                assert(ne[j].0 != ne[w].0) by {
                    if j < w {
                        assert(ne[j].0 != ne[w].0);
                    } else {
                        assert(ne[w].0 != ne[j].0);
                    }
                }
                if q < i {
                    assert(!matches_key(line, hb[q].0));
                }
                assert(q != i);
                assert(q > i);
                assert(key_byte_len(hb[q].0) <= key_byte_len(hb[i].0));
                lemma_matching_keys_ordered(line, ne[j].0, ne[w].0);
            }
        },
        None => {
            assert forall|j: int| 0 <= j < entries.len() implies !matches_key(
                line,
                normalized_shebang(#[trigger] entries[j].0),
            ) by {
                let q = choose|q: int| 0 <= q < hb.len() && #[trigger] hb[q] == ne[j];
                assert(ne[j].0 == normalized_shebang(entries[j].0));
            }
        },
    }
}

/// The names listed under `key`.
fn lookup_exec<'a>(m: &'a Vec<(String, Vec<String>)>, key: &String) -> (r: Option<&'a Vec<String>>)
    ensures
        match r {
            Some(l) => lookup(names_map_views(m@), key@) == Some(string_views(l@)),
            None => lookup(names_map_views(m@), key@) is None,
        },
{
    let ghost v = names_map_views(m@);
    let mut k: usize = m.len();
    proof {
        assert(v.take(k as int) =~= v);
    }
    while k > 0
        invariant
            k <= m@.len(),
            v == names_map_views(m@),
            key_index(v, key@) == key_index(v.take(k as int), key@),
        decreases k,
    {
        proof {
            assert(v.take(k as int).drop_last() =~= v.take(k - 1));
            assert(v.take(k as int).last() == v[k - 1]);
        }
        if m[k - 1].0 == *key {
            return Some(&m[k - 1].1);
        }
        k = k - 1;
    }
    proof {
        assert(v.take(0) =~= Seq::<(Seq<char>, Seq<Seq<char>>)>::empty());
    }
    None
}

impl<M> PluginNameResolutionMaps<M> {
    #[verifier::type_invariant]
    closed spec fn well_formed(&self) -> bool {
        resolution_maps_wf(self@)
    }

    /// The maps for a set of plugins and the configured shebang mappings.
    ///
    /// Extensions and file names are lower-cased; the plugins listed under each
    /// keep the order of `plugins`, and so do the association matchers. Each
    /// shebang key is normalized as a shebang line, and the mappings are ordered
    /// longest normalized key first, so that the most specific prefix wins.
    pub fn from_plugins(plugins: Vec<PluginMatching<M>>, hashbangs: &IndexMap<String, String>) -> (r: Self)
        ensures
            r@ == maps_from_plugins(plugin_views(plugins@), string_map_entries(*hashbangs)),
            r@.hashbangs.len() == string_map_entries(*hashbangs).len(),
            r.association_matchers() == association_matchers_of(plugins@),
            resolution_maps_wf(r@),
    {
        let ghost all = plugin_views(plugins@);
        let ghost originals = plugins@;
        let mut extension_map: Vec<(String, Vec<String>)> = Vec::new();
        let mut file_name_map: Vec<(String, Vec<String>)> = Vec::new();
        let mut association_matchers: Vec<(String, M)> = Vec::new();
        for plugin in it: plugins
            invariant
                all == plugin_views(it.seq()),
                names_map_views(extension_map@) == names_by_key(
                    extension_pairs(all.take(it.index())),
                ),
                names_map_views(file_name_map@) == names_by_key(
                    file_name_pairs(all.take(it.index())),
                ),
                association_matchers@.map_values(|e: (String, M)| e.0@) == association_names_of(
                    all.take(it.index()),
                ),
                originals == it.seq(),
                association_matchers@.map_values(|e: (String, M)| e.1) == association_matchers_of(
                    originals.take(it.index()),
                ),
        {
            let ghost done = all.take(it.index());
            let ghost pv = plugin@;
            proof {
                assert(originals.take(it.index() + 1).drop_last() =~= originals.take(it.index()));
                assert(originals.take(it.index() + 1).last() == plugin);
                assert(all.take(it.index() + 1) =~= done.push(pv));
                assert(all.take(it.index() + 1).drop_last() =~= done);
            }
            let mut j: usize = 0;
            while j < plugin.file_extensions.len()
                invariant
                    j <= plugin.file_extensions@.len(),
                    pv == plugin@,
                    names_map_views(extension_map@) == names_by_key(
                        extension_pairs(done) + keyed_name(pv.file_extensions, pv.name).take(
                            j as int,
                        ),
                    ),
                decreases plugin.file_extensions@.len() - j,
            {
                let key = to_lowercase(plugin.file_extensions[j].as_str());
                proof {
                    let pairs = extension_pairs(done) + keyed_name(pv.file_extensions, pv.name).take(
                        j as int,
                    );
                    let next = extension_pairs(done) + keyed_name(pv.file_extensions, pv.name).take(
                        j + 1,
                    );
                    assert(next.drop_last() =~= pairs);
                    assert(pv.file_extensions[j as int] == plugin.file_extensions@[j as int]@);
                    assert(next.last() == (key@, pv.name));
                }
                insert_name_exec(&mut extension_map, key, plugin.name.clone());
                j = j + 1;
            }
            proof {
                assert(keyed_name(pv.file_extensions, pv.name).take(
                    plugin.file_extensions@.len() as int,
                ) =~= keyed_name(pv.file_extensions, pv.name));
                assert(extension_pairs(done.push(pv)) == extension_pairs(done) + keyed_name(
                    pv.file_extensions,
                    pv.name,
                ));
            }
            let mut j: usize = 0;
            while j < plugin.file_names.len()
                invariant
                    j <= plugin.file_names@.len(),
                    pv == plugin@,
                    names_map_views(file_name_map@) == names_by_key(
                        file_name_pairs(done) + keyed_name(pv.file_names, pv.name).take(j as int),
                    ),
                decreases plugin.file_names@.len() - j,
            {
                let key = to_lowercase(plugin.file_names[j].as_str());
                proof {
                    let pairs = file_name_pairs(done) + keyed_name(pv.file_names, pv.name).take(
                        j as int,
                    );
                    let next = file_name_pairs(done) + keyed_name(pv.file_names, pv.name).take(
                        j + 1,
                    );
                    assert(next.drop_last() =~= pairs);
                    assert(pv.file_names[j as int] == plugin.file_names@[j as int]@);
                    assert(next.last() == (key@, pv.name));
                }
                insert_name_exec(&mut file_name_map, key, plugin.name.clone());
                j = j + 1;
            }
            proof {
                assert(keyed_name(pv.file_names, pv.name).take(plugin.file_names@.len() as int)
                    =~= keyed_name(pv.file_names, pv.name));
                assert(file_name_pairs(done.push(pv)) == file_name_pairs(done) + keyed_name(
                    pv.file_names,
                    pv.name,
                ));
            }
            let ghost before = association_matchers@;
            let PluginMatching { name, file_extensions: _, file_names: _, association_matcher } =
                plugin;
            match association_matcher {
                Some(matcher) => {
                    association_matchers.push((name, matcher));
                    proof {
                        assert(association_matchers@.map_values(|e: (String, M)| e.0@) =~= before.map_values(
                            |e: (String, M)| e.0@,
                        ).push(pv.name));
                        assert(association_matchers@.map_values(|e: (String, M)| e.1) =~= before.map_values(
                            |e: (String, M)| e.1,
                        ).push(matcher));
                    }
                },
                None => {},
            }
        }
        let pairs = string_map_pairs(hashbangs);
        let ghost entries = normalized_keys(string_map_entries(*hashbangs));
        let mut sorted: Vec<(String, String)> = Vec::new();
        let mut i: usize = 0;
        while i < pairs.len()
            invariant
                i <= pairs@.len(),
                normalized_keys(pair_views(pairs@)) == entries,
                pair_views(sorted@) == sorted_by_key_len(entries.take(i as int)),
            decreases pairs@.len() - i,
        {
            let ghost s = pair_views(sorted@);
            proof {
                assert(entries.take(i + 1).drop_last() =~= entries.take(i as int));
                assert(entries.take(i + 1).last() == entries[i as int]);
                lemma_sorted_by_key_len(entries.take(i as int));
            }
            let key = normalize_shebang_line(pairs[i].0.as_str());
            let n: usize = key.as_str().len();
            proof {
                assert(key@ == entries[i as int].0);
                assert(pairs@[i as int].1@ == entries[i as int].1);
                assert(n == key_byte_len(entries[i as int].0));
                lemma_insert_pos(s, n);
            }
            let mut k: usize = 0;
            while k < sorted.len() && sorted[k].0.as_str().len() >= n
                invariant
                    k <= sorted@.len(),
                    s == pair_views(sorted@),
                    forall|q: int| 0 <= q < k ==> key_byte_len(#[trigger] s[q].0) >= n,
                    longest_key_first(s),
                    0 <= hashbang_insert_pos(s, n) <= s.len(),
                    forall|q: int|
                        0 <= q < hashbang_insert_pos(s, n) ==> key_byte_len(#[trigger] s[q].0) >= n,
                    forall|q: int|
                        hashbang_insert_pos(s, n) <= q < s.len() ==> key_byte_len(#[trigger] s[q].0)
                            < n,
                decreases sorted@.len() - k,
            {
                proof {
                    assert(s[k as int].0 == sorted@[k as int].0@);
                }
                k = k + 1;
            }
            proof {
                if k < sorted@.len() {
                    assert(s[k as int].0 == sorted@[k as int].0@);
                }
                let p: int = hashbang_insert_pos(s, n);
                if k < p {
                    assert(key_byte_len(s[k as int].0) >= n);
                } else if p < k {
                    assert(key_byte_len(s[p].0) < n);
                }
                assert(k == p);
            }
            let entry = (key, pairs[i].1.clone());
            let ghost before = sorted@;
            sorted.insert(k, entry);
            proof {
                assert(pair_views(sorted@) =~= s.insert(k as int, entries[i as int]));
            }
            i = i + 1;
        }
        proof {
            assert(entries.take(pairs@.len() as int) =~= entries);
            assert(all.take(all.len() as int) =~= all);
            assert(originals.take(originals.len() as int) =~= originals);
            lemma_names_by_key_distinct(extension_pairs(all));
            lemma_names_by_key_distinct(file_name_pairs(all));
            lemma_sorted_by_key_len(entries);
        }
        PluginNameResolutionMaps {
            extension_to_plugin_names_map: extension_map,
            file_name_to_plugin_names_map: file_name_map,
            association_matchers,
            hashbang_extensions: sorted,
        }
    }

    /// Whether the association patterns of a plugin leave the path to it, given
    /// what the matchers answered of the path.
    fn is_not_associations_excluded(&self, plugin_name: &String, a: &AssociationResults) -> (r: bool)
        requires
            answers_fit(self@, a@),
        ensures
            r == association_allows(self@.association_names, a@.details, plugin_name@),
    {
        let ghost names = self@.association_names;
        let mut k: usize = self.association_matchers.len();
        proof {
            assert(names.take(k as int) =~= names);
        }
        while k > 0
            invariant
                k <= names.len(),
                names == self@.association_names,
                names.len() == self.association_matchers@.len(),
                answers_fit(self@, a@),
                name_index(names, plugin_name@) == name_index(names.take(k as int), plugin_name@),
            decreases k,
        {
            proof {
                assert(names.take(k as int).drop_last() =~= names.take(k - 1));
                assert(names.take(k as int).last() == names[k - 1]);
                assert(names[k - 1] == self.association_matchers@[k - 1].0@);
            }
            if self.association_matchers[k - 1].0 == *plugin_name {
                return a.details[k - 1] != GlobMatchesDetail::Excluded;
            }
            k = k - 1;
        }
        proof {
            assert(names.take(0) =~= Seq::<Seq<char>>::empty());
        }
        true
    }

    /// The first plugin of `list` whose association patterns leave the path
    /// to it.
    fn first_allowed_exec(&self, list: &Vec<String>, a: &AssociationResults) -> (r: Option<String>)
        requires
            answers_fit(self@, a@),
        ensures
            match r {
                Some(p) => first_allowed(
                    string_views(list@),
                    self@.association_names,
                    a@.details,
                ) == Some(p@),
                None => first_allowed(
                    string_views(list@),
                    self@.association_names,
                    a@.details,
                ) is None,
            },
    {
        let ghost l = string_views(list@);
        let mut k: usize = 0;
        proof {
            assert(l.skip(0) =~= l);
        }
        while k < list.len()
            invariant
                k <= list@.len(),
                l == string_views(list@),
                answers_fit(self@, a@),
                first_allowed(l, self@.association_names, a@.details) == first_allowed(
                    l.skip(k as int),
                    self@.association_names,
                    a@.details,
                ),
            decreases list@.len() - k,
        {
            proof {
                assert(l.skip(k as int)[0] == l[k as int]);
                assert(l.skip(k as int).skip(1) =~= l.skip(k + 1));
            }
            if self.is_not_associations_excluded(&list[k], a) {
                return Some(list[k].clone());
            }
            k = k + 1;
        }
        proof {
            assert(l.skip(k as int) =~= Seq::<Seq<char>>::empty());
        }
        None
    }

    /// The plugin that a key selects in one of the maps.
    fn plugin_for_key_exec(
        &self,
        m: &Vec<(String, Vec<String>)>,
        key: Option<String>,
        a: &AssociationResults,
    ) -> (r: Option<String>)
        requires
            answers_fit(self@, a@),
        ensures
            match r {
                Some(p) => plugin_for_key(
                    names_map_views(m@),
                    match key {
                        Some(k) => Some(k@),
                        None => None,
                    },
                    self@.association_names,
                    a@.details,
                ) == Some(p@),
                None => plugin_for_key(
                    names_map_views(m@),
                    match key {
                        Some(k) => Some(k@),
                        None => None,
                    },
                    self@.association_names,
                    a@.details,
                ) is None,
            },
    {
        match key {
            Some(k) => match lookup_exec(m, &k) {
                Some(list) => self.first_allowed_exec(list, a),
                None => None,
            },
            None => None,
        }
    }

    /// The plugins that format a path, given what each association matcher
    /// answered of it.
    pub fn plugin_names_from_association_results(&self, file_path: &str, a: &AssociationResults) -> (r:
        Vec<String>)
        requires
            answers_fit(self@, a@),
        ensures
            string_views(r@) == plugin_names_for(self@, file_path@, a@),
    {
        let ghost names = self@.association_names;
        let mut plugin_names: Vec<String> = Vec::new();
        let mut i: usize = 0;
        while i < self.association_matchers.len()
            invariant
                i <= names.len(),
                names == self@.association_names,
                names.len() == self.association_matchers@.len(),
                answers_fit(self@, a@),
                string_views(plugin_names@) == matched_association_names(
                    names.take(i as int),
                    a@.matched,
                ),
            decreases names.len() - i,
        {
            proof {
                assert(names.take(i + 1).drop_last() =~= names.take(i as int));
                assert(names.take(i + 1).last() == names[i as int]);
                assert(names[i as int] == self.association_matchers@[i as int].0@);
            }
            if a.matched[i] {
                let ghost before = plugin_names@;
                plugin_names.push(self.association_matchers[i].0.clone());
                proof {
                    assert(string_views(plugin_names@) =~= string_views(before).push(
                        names[i as int],
                    ));
                }
            }
            i = i + 1;
        }
        proof {
            assert(names.take(names.len() as int) =~= names);
        }
        if plugin_names.len() > 0 {
            return plugin_names;
        }
        match self.plugin_for_key_exec(
            &self.file_name_to_plugin_names_map,
            get_lowercase_file_name(file_path),
            a,
        ) {
            Some(p) => {
                let mut r: Vec<String> = Vec::new();
                r.push(p);
                proof {
                    assert(string_views(r@) =~= seq![r@[0]@]);
                }
                return r;
            },
            None => {},
        }
        match self.plugin_for_key_exec(
            &self.extension_to_plugin_names_map,
            get_lowercase_file_extension(file_path),
            a,
        ) {
            Some(p) => {
                let mut r: Vec<String> = Vec::new();
                r.push(p);
                proof {
                    assert(string_views(r@) =~= seq![r@[0]@]);
                }
                r
            },
            None => {
                proof {
                    assert(string_views(plugin_names@) =~= Seq::<Seq<char>>::empty());
                }
                plugin_names
            },
        }
    }

    /// Whether any `hashbangs` mapping is configured.
    pub fn has_hashbangs(&self) -> (r: bool)
        ensures
            r == (self@.hashbangs.len() > 0),
    {
        self.hashbang_extensions.len() > 0
    }

    /// Resolves the mapped file extension (without a leading dot) for a shebang
    /// line using longest-prefix matching at a whitespace boundary.
    pub fn resolve_hashbang_extension(&self, shebang_line: &str) -> (r: Option<&str>)
        ensures
            match r {
                Some(e) => resolved_hashbang_extension(self@.hashbangs, shebang_line@) == Some(e@),
                None => resolved_hashbang_extension(self@.hashbangs, shebang_line@) is None,
            },
            match r {
                Some(e) => exists|i: int|
                    0 <= i < self@.hashbangs.len() && matches_key(
                        normalized_shebang(shebang_line@),
                        #[trigger] self@.hashbangs[i].0,
                    ) && self@.hashbangs[i].1 == e@ && forall|j: int|
                        0 <= j < self@.hashbangs.len() && matches_key(
                            normalized_shebang(shebang_line@),
                            #[trigger] self@.hashbangs[j].0,
                        ) ==> key_byte_len(self@.hashbangs[j].0) <= key_byte_len(
                            self@.hashbangs[i].0,
                        ),
                None => forall|j: int|
                    0 <= j < self@.hashbangs.len() ==> !matches_key(
                        normalized_shebang(shebang_line@),
                        #[trigger] self@.hashbangs[j].0,
                    ),
            },
    {
        proof {
            use_type_invariant(self);
        }
        let normalized = normalize_shebang_line(shebang_line);
        let ghost hb = self@.hashbangs;
        let ghost line = normalized@;
        let mut i: usize = 0;
        proof {
            assert(hb.skip(0) =~= hb);
        }
        while i < self.hashbang_extensions.len()
            invariant
                i <= hb.len(),
                hb == self@.hashbangs,
                hb == pair_views(self.hashbang_extensions@),
                line == normalized@,
                line == normalized_shebang(shebang_line@),
                longest_key_first(hb),
                first_matching_extension(hb, line) == first_matching_extension(hb.skip(i as int), line),
                forall|j: int| 0 <= j < i ==> !matches_key(line, #[trigger] hb[j].0),
            decreases hb.len() - i,
        {
            proof {
                lemma_first_matching_skip(hb, line, i as int);
                assert(hb[i as int].0 == self.hashbang_extensions@[i as int].0@);
                assert(hb[i as int].1 == self.hashbang_extensions@[i as int].1@);
            }
            if shebang_line_matches_key(normalized.as_str(), self.hashbang_extensions[i].0.as_str()) {
                proof {
                    assert forall|j: int|
                        0 <= j < hb.len() && matches_key(line, #[trigger] hb[j].0) implies key_byte_len(
                        hb[j].0,
                    ) <= key_byte_len(hb[i as int].0) by {
                        if j > i {
                            assert(longest_key_first(hb));
                            assert(key_byte_len(hb[i as int].0) >= key_byte_len(hb[j].0));
                        }
                    }
                }
                return Some(self.hashbang_extensions[i].1.as_str());
            }
            i = i + 1;
        }
        proof {
            assert(hb.skip(i as int) =~= Seq::<(Seq<char>, Seq<char>)>::empty());
        }
        None
    }
}

impl<M: AssociationMatcher> PluginNameResolutionMaps<M> {
    /// What each association matcher answers of a path.
    pub fn association_results(&self, file_path: &str) -> (r: AssociationResults)
        ensures
            answers_fit(self@, r@),
            answers_from(self.association_matchers(), file_path@, r@),
    {
        let ghost ms = self.association_matchers();
        let mut matched: Vec<bool> = Vec::new();
        let mut details: Vec<GlobMatchesDetail> = Vec::new();
        let mut i: usize = 0;
        while i < self.association_matchers.len()
            invariant
                i <= self.association_matchers@.len(),
                ms == self.association_matchers(),
                ms.len() == self.association_matchers@.len(),
                matched@.len() == i,
                details@.len() == i,
                forall|j: int|
                    0 <= j < i ==> matches_answer(#[trigger] ms[j], file_path@, matched@[j])
                        && matches_detail_answer(ms[j], file_path@, details@[j]),
            decreases self.association_matchers@.len() - i,
        {
            let m = &self.association_matchers[i].1;
            let answer = m.matches(file_path);
            let detail = m.matches_detail(file_path);
            proof {
                assert(ms[i as int] == *m);
                assert(matches_answer(ms[i as int], file_path@, answer));
                assert(matches_detail_answer(ms[i as int], file_path@, detail));
            }
            matched.push(answer);
            details.push(detail);
            i = i + 1;
        }
        AssociationResults { matched, details }
    }

    /// The plugins that format a path: those whose association patterns match
    /// it; otherwise the first plugin for its file name, and then for its
    /// extension, that its association patterns do not exclude.
    pub fn get_plugin_names_from_file_path(&self, file_path: &str) -> (r: Vec<String>)
        ensures
            exists|a: AssociationResultsView|
                #[trigger] answers_from(self.association_matchers(), file_path@, a) && answers_fit(
                    self@,
                    a,
                ) && string_views(r@) == plugin_names_for(self@, file_path@, a),
    {
        let a = self.association_results(file_path);
        let r = self.plugin_names_from_association_results(file_path, &a);
        proof {
            assert(answers_from(self.association_matchers(), file_path@, a@));
        }
        r
    }

    /// Resolves the plugin names and the (possibly synthetic) path to pass to the
    /// plugin for a file, taking an extensionless file's shebang into account.
    ///
    /// For a file routed via its shebang the returned path is `file_path` with the
    /// mapped extension appended (`path + mappedExt`); otherwise it is `file_path`.
    pub fn resolve_for_format(&self, file_path: &str, file_bytes: &[u8]) -> (r: (Vec<String>, String))
        ensures
            exists|a1: AssociationResultsView, a2: AssociationResultsView|
                #![trigger answers_fit(self@, a1), answers_fit(self@, a2)]
                answers_fit(self@, a1) && answers_fit(self@, a2) && answers_from(
                    self.association_matchers(),
                    file_path@,
                    a1,
                ) && answers_for_query(
                    self.association_matchers(),
                    second_query(self@, file_path@, a1, Some(file_bytes@)),
                    a2,
                ) && (string_views(r.0@), r.1@) == resolved_for_format(
                    self@,
                    file_path@,
                    file_bytes@,
                    a1,
                    a2,
                ),
    {
        let a1 = self.association_results(file_path);
        let plugin_names = self.plugin_names_from_association_results(file_path, &a1);
        proof {
            assert(answers_fit(self@, a1@));
            assert(answers_from(self.association_matchers(), file_path@, a1@));
        }
        if plugin_names.len() > 0 || !self.has_hashbangs() || get_lowercase_file_extension(
            file_path,
        ).is_some() {
            let p = file_path.to_owned();
            proof {
                assert(string_views(plugin_names@).len() == plugin_names@.len());
            }
            return (plugin_names, p);
        }
        match parse_shebang_line(file_bytes) {
            Some(shebang_line) => match self.resolve_hashbang_extension(shebang_line.as_str()) {
                Some(ext) => {
                    let synthetic_path = append_extension(file_path, ext);
                    let a2 = self.association_results(synthetic_path.as_str());
                    let names = self.plugin_names_from_association_results(
                        synthetic_path.as_str(),
                        &a2,
                    );
                    proof {
                        assert(answers_fit(self@, a2@));
                        assert(string_views(names@).len() == names@.len());
                        assert(second_query(self@, file_path@, a1@, Some(file_bytes@)) == Some(
                            synthetic_path@,
                        ));
                    }
                    if names.len() > 0 {
                        return (names, synthetic_path);
                    }
                    let p = file_path.to_owned();
                    return (plugin_names, p);
                },
                None => {},
            },
            None => {},
        }
        let p = file_path.to_owned();
        (plugin_names, p)
    }
}

} // verus!
