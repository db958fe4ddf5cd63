//! Files to format, grouped by the plugins that format them.

use vstd::prelude::*;

use crate::environment::{
    cwd_answer, is_absolute_answer, is_dir_answer, matches_answer, matches_detail_answer, read_bytes,
    read_start_answer, AssociationMatcher, Environment, GlobMatchesDetail,
};
use crate::file_path_utils::{
    append_extension, get_lowercase_file_extension, join_path, path_components, path_join,
    path_starts_with, push_str, starts_with_path,
};
use crate::name_resolution::{
    answers_for_query, answers_fit, answers_from, format_path_of, second_query, key_index, lemma_key_index, may_route_by_shebang, plugin_names_for,
    resolved_for_format, shebang_route, AssociationResultsView, PluginNameResolutionMaps,
    ResolutionMapsView,
};
use crate::shebang::{parse_shebang_line, parsed_shebang, SHEBANG_READ_BYTES};
use crate::text::{chars_of, join_with, lemma_join_concat, lemma_join_push, string_views};

verus! {

/// The separator between plugin names in a `PluginNames` key.
pub open spec fn plugin_names_separator() -> Seq<char> {
    seq!['~', '~']
}

/// The pieces of `s` between the occurrences of `~~`, found left to right
/// without overlap (what `str::split("~~")` yields).
pub open spec fn split_plugin_names(s: Seq<char>) -> Seq<Seq<char>>
    decreases s.len(),
{
    if s.len() == 0 {
        seq![seq![]]
    } else if s.len() >= 2 && s[0] == '~' && s[1] == '~' {
        seq![seq![]] + split_plugin_names(s.skip(2))
    } else {
        let r = split_plugin_names(s.skip(1));
        r.update(0, seq![s[0]] + r[0])
    }
}

/// A plugin name that holds no `~~`.
pub open spec fn separator_free(n: Seq<char>) -> bool {
    forall|j: int| 0 <= j < n.len() - 1 ==> !(#[trigger] n[j] == '~' && n[j + 1] == '~')
}

/// Plugin names that a `PluginNames` key gives back unchanged: at least one,
/// none holding `~~`, and none but the last ending in `~`.
pub open spec fn separable_names(names: Seq<Seq<char>>) -> bool {
    &&& names.len() > 0
    &&& forall|i: int| 0 <= i < names.len() ==> separator_free(#[trigger] names[i])
    &&& forall|i: int|
        0 <= i < names.len() - 1 ==> (#[trigger] names[i]).len() == 0 || names[i].last() != '~'
}

/// Struct that allows using plugin names as a key.
#[derive(Debug, PartialEq, Eq, Hash)]
pub struct PluginNames(String);

impl View for PluginNames {
    type V = Seq<char>;

    closed spec fn view(&self) -> Seq<char> {
        self.0@
    }
}

proof fn lemma_split_plugin_names_nonempty(s: Seq<char>)
    ensures
        split_plugin_names(s).len() >= 1,
    decreases s.len(),
{
    if s.len() >= 2 && s[0] == '~' && s[1] == '~' {
        lemma_split_plugin_names_nonempty(s.skip(2));
    } else if s.len() > 0 {
        lemma_split_plugin_names_nonempty(s.skip(1));
    }
}

proof fn lemma_split_single(a: Seq<char>)
    requires
        separator_free(a),
    ensures
        split_plugin_names(a) == seq![a],
    decreases a.len(),
{
    if a.len() > 0 {
        let t = a.skip(1);
        assert(separator_free(t)) by {
            assert forall|j: int| 0 <= j < t.len() - 1 implies !(#[trigger] t[j] == '~' && t[j
                + 1] == '~') by {
                assert(t[j] == a[j + 1]);
                assert(t[j + 1] == a[j + 2]);
            }
        }
        if a.len() >= 2 {
            assert(!(a[0] == '~' && a[1] == '~'));
        }
        lemma_split_single(t);
        assert(seq![a].update(0, seq![a[0]] + t) =~= seq![a]) by {
            assert(seq![a[0]] + t =~= a);
        }
        assert(seq![t].update(0, seq![a[0]] + seq![t][0]) =~= seq![a]) by {
            assert(seq![a[0]] + t =~= a);
        }
    } else {
        assert(a =~= Seq::<char>::empty());
    }
}

proof fn lemma_split_after_name(a: Seq<char>, rest: Seq<char>)
    requires
        separator_free(a),
        a.len() == 0 || a.last() != '~',
    ensures
        split_plugin_names(a + plugin_names_separator() + rest) == seq![a]
            + split_plugin_names(rest),
    decreases a.len(),
{
    let s = a + plugin_names_separator() + rest;
    if a.len() == 0 {
        assert(s.skip(2) =~= rest);
        assert(s[0] == '~' && s[1] == '~');
        assert(a =~= Seq::<char>::empty());
    } else {
        let t = a.skip(1);
        assert(separator_free(t)) by {
            assert forall|j: int| 0 <= j < t.len() - 1 implies !(#[trigger] t[j] == '~' && t[j
                + 1] == '~') by {
                assert(t[j] == a[j + 1]);
                assert(t[j + 1] == a[j + 2]);
            }
        }
        if t.len() > 0 {
            assert(t.last() == a.last());
        }
        if a.len() >= 2 {
            assert(!(a[0] == '~' && a[1] == '~'));
            assert(s[1] == a[1]);
        } else {
            assert(s[1] == '~');
            assert(a[0] == a.last());
        }
        assert(s[0] == a[0]);
        lemma_split_after_name(t, rest);
        assert(s.skip(1) =~= t + plugin_names_separator() + rest);
        lemma_split_plugin_names_nonempty(rest);
        assert(seq![a[0]] + t =~= a);
        assert((seq![t] + split_plugin_names(rest)).update(0, seq![a[0]] + t) =~= seq![a]
            + split_plugin_names(rest));
    }
}

/// Splitting a `PluginNames` key gives back the names it was made of, when no
/// name holds the separator and none but the last ends in `~`.
pub proof fn lemma_plugin_names_roundtrip(names: Seq<Seq<char>>)
    requires
        separable_names(names),
    ensures
        split_plugin_names(join_with(names, plugin_names_separator())) == names,
    decreases names.len(),
{
    assert(separator_free(names[0]));
    if names.len() == 1 {
        lemma_split_single(names[0]);
        assert(names =~= seq![names[0]]);
    } else {
        let tail = names.skip(1);
        assert(separable_names(tail)) by {
            assert forall|i: int| 0 <= i < tail.len() implies separator_free(#[trigger] tail[i]) by {
                assert(tail[i] == names[i + 1]);
            }
            assert forall|i: int| 0 <= i < tail.len() - 1 implies (#[trigger] tail[i]).len() == 0
                || tail[i].last() != '~' by {
                assert(tail[i] == names[i + 1]);
            }
        }
        lemma_plugin_names_roundtrip(tail);
        assert(names =~= seq![names[0]] + tail);
        lemma_join_concat(seq![names[0]], tail, plugin_names_separator());
        assert(join_with(seq![names[0]], plugin_names_separator()) == names[0]);
        assert(names[0].len() == 0 || names[0].last() != '~');
        lemma_split_after_name(names[0], join_with(tail, plugin_names_separator()));
    }
}

impl PluginNames {
    /// The key for a list of plugin names: the names joined by `~~`.
    pub fn from_plugin_names(names: &[String]) -> (r: Self)
        ensures
            r@ == join_with(string_views(names@), plugin_names_separator()),
    {
        let mut s = String::new();
        let mut i: usize = 0;
        while i < names.len()
            invariant
                i <= names@.len(),
                s@ == join_with(string_views(names@).take(i as int), plugin_names_separator()),
            decreases names@.len() - i,
        {
            let ghost before = string_views(names@).take(i as int);
            if i > 0 {
                s.push('~');
                s.push('~');
            }
            push_str(&mut s, names[i].as_str());
            proof {
                let views = string_views(names@);
                assert(views.take(i + 1) =~= before.push(views[i as int]));
                lemma_join_push(before, plugin_names_separator(), views[i as int]);
                if i > 0 {
                    assert(s@ =~= join_with(before, plugin_names_separator())
                        + plugin_names_separator() + views[i as int]);
                } else {
                    assert(s@ =~= views[i as int]);
                }
            }
            i = i + 1;
        }
        proof {
            assert(string_views(names@).take(names@.len() as int) =~= string_views(names@));
        }
        PluginNames(s)
    }

    /// The plugin names of this key: its text split at each `~~`.
    pub fn names(&self) -> (r: Vec<String>)
        ensures
            string_views(r@) == split_plugin_names(self@),
    {
        let cs = chars_of(self.0.as_str());
        let n: usize = cs.len();
        let mut segs: Vec<String> = Vec::new();
        let mut cur = String::new();
        let mut i: usize = 0;
        proof {
            assert(cs@.skip(0) =~= cs@);
            lemma_split_plugin_names_nonempty(cs@);
            let r = split_plugin_names(cs@);
            assert(r.update(0, seq![] + r[0]) =~= r);
            assert(string_views(segs@) =~= Seq::<Seq<char>>::empty());
            assert(string_views(segs@) + r.update(0, cur@ + r[0]) =~= r);
        }
        while i < n
            invariant
                n == cs@.len(),
                i <= n,
                cs@ == self@,
                split_plugin_names(cs@.skip(i as int)).len() >= 1,
                split_plugin_names(cs@) == string_views(segs@) + split_plugin_names(
                    cs@.skip(i as int),
                ).update(0, cur@ + split_plugin_names(cs@.skip(i as int))[0]),
            decreases n - i,
        {
            let ghost rest = cs@.skip(i as int);
            if i + 1 < n && cs[i] == '~' && cs[i + 1] == '~' {
                let ghost before = segs@;
                let ghost cur_view = cur@;
                segs.push(cur);
                cur = String::new();
                proof {
                    assert(rest.skip(2) =~= cs@.skip(i + 2));
                    let r2 = split_plugin_names(cs@.skip(i + 2));
                    lemma_split_plugin_names_nonempty(cs@.skip(i + 2));
                    assert(split_plugin_names(rest) == seq![seq![]] + r2);
                    assert(string_views(segs@) =~= string_views(before).push(cur_view));
                    assert(r2.update(0, cur@ + r2[0]) =~= r2);
                    assert(string_views(before) + (seq![seq![]] + r2).update(0, cur_view + seq![])
                        =~= string_views(segs@) + r2.update(0, cur@ + r2[0]));
                }
                i = i + 2;
            } else {
                let c = cs[i];
                let ghost cur_view = cur@;
                cur.push(c);
                proof {
                    assert(rest.skip(1) =~= cs@.skip(i + 1));
                    assert(rest[0] == c);
                    if rest.len() >= 2 {
                        assert(rest[1] == cs@[i + 1]);
                    }
                    let r1 = split_plugin_names(cs@.skip(i + 1));
                    lemma_split_plugin_names_nonempty(cs@.skip(i + 1));
                    assert(split_plugin_names(rest) == r1.update(0, seq![c] + r1[0]));
                    assert(cur_view + (seq![c] + r1[0]) =~= cur@ + r1[0]);
                    assert(r1.update(0, seq![c] + r1[0]).update(0, cur_view + (seq![c] + r1[0]))
                        =~= r1.update(0, cur@ + r1[0]));
                }
                i = i + 1;
            }
        }
        proof {
            assert(cs@.skip(i as int) =~= Seq::<char>::empty());
            let r = split_plugin_names(cs@.skip(i as int));
            assert(r == seq![Seq::<char>::empty()]);
        }
        let ghost before = segs@;
        segs.push(cur);
        proof {
            assert(string_views(segs@) =~= string_views(before).push(cur@));
            assert(seq![Seq::<char>::empty()].update(0, cur@ + Seq::<char>::empty()) =~= seq![
                cur@,
            ]);
            assert(split_plugin_names(cs@) =~= string_views(segs@));
        }
        segs
    }
}

/// The error when no file is found to format.
pub struct NoFilesFoundError {
    pub base_path: String,
}

/// The message of a `NoFilesFoundError` for a base path.
pub open spec fn no_files_found_message(base_path: Seq<char>) -> Seq<char> {
    "No files found to format with the specified plugins at "@ + base_path
        + ". You may want to try using `dprint output-file-paths` to see which files it's finding or run with `--allow-no-files`."@
}

impl NoFilesFoundError {
    /// The error's message, which names the base path and suggests how to see
    /// which files are found or how to allow finding none.
    pub fn message(&self) -> (r: String)
        ensures
            r@ == no_files_found_message(self.base_path@),
    {
        let mut r = String::new();
        push_str(&mut r, "No files found to format with the specified plugins at ");
        push_str(&mut r, self.base_path.as_str());
        push_str(
            &mut r,
            ". You may want to try using `dprint output-file-paths` to see which files it's finding or run with `--allow-no-files`.",
        );
        r
    }
}

/// A file to format along with the path that should be passed to the plugin.
///
/// For a normal file `format_ext` is `None` and the plugin sees `path`. For an
/// extensionless file routed via its shebang, `format_ext` holds the mapped
/// extension so the plugin sees `path + mappedExt`, while the file is still read
/// from and written to `path`.
pub struct FileToFormat {
    pub path: String,
    pub format_ext: Option<String>,
}

/// A file to format: its path and the extension appended for the plugin.
pub type FileView = (Seq<char>, Option<Seq<char>>);

impl View for FileToFormat {
    type V = FileView;

    open spec fn view(&self) -> FileView {
        (
            self.path@,
            match self.format_ext {
                Some(e) => Some(e@),
                None => None,
            },
        )
    }
}

impl FileToFormat {
    /// The path to pass to the plugin for formatting.
    pub fn format_path(&self) -> (r: String)
        ensures
            r@ == format_path_of(self@.0, self@.1),
    {
        match &self.format_ext {
            Some(ext) => append_extension(self.path.as_str(), ext.as_str()),
            None => self.path.clone(),
        }
    }
}

/// Files grouped under the key of the plugins that format them.
pub type Groups = Seq<(Seq<char>, Seq<FileView>)>;

/// The views of a sequence of files.
pub open spec fn file_views(v: Seq<FileToFormat>) -> Seq<FileView> {
    v.map_values(|f: FileToFormat| f@)
}

/// The views of a sequence of groups.
pub open spec fn group_views(v: Seq<(PluginNames, Vec<FileToFormat>)>) -> Groups {
    v.map_values(|e: (PluginNames, Vec<FileToFormat>)| (e.0@, file_views(e.1@)))
}

/// Each key once, and no group empty.
pub open spec fn groups_wf(g: Groups) -> bool {
    &&& forall|i: int, j: int| 0 <= i < j < g.len() ==> g[i].0 != g[j].0
    &&& forall|i: int| 0 <= i < g.len() ==> (#[trigger] g[i]).1.len() > 0
}

/// `g` with `f` added at the end of the group under `key`, a new group being
/// made at the end when there is none.
pub open spec fn add_to_group(g: Groups, key: Seq<char>, f: FileView) -> Groups {
    let k: int = key_index(g, key);
    if k >= 0 {
        g.update(k, (key, g[k].1.push(f)))
    } else {
        g.push((key, seq![f]))
    }
}

/// What the library learned of one file while routing it: the answers of the
/// association matchers for its path, the start of the file if it was read,
/// and the answers for its path with a mapped extension appended.
pub struct FileObservation {
    pub first: AssociationResultsView,
    pub start: Option<Seq<u8>>,
    pub second: AssociationResultsView,
}

/// Observations that a routing can have made of a file: answers from every
/// matcher, and the file read only when it may be routed by its shebang.
pub open spec fn observation_fits(
    maps: ResolutionMapsView,
    path: Seq<char>,
    o: FileObservation,
) -> bool {
    &&& answers_fit(maps, o.first)
    &&& answers_fit(maps, o.second)
    &&& o.start is Some ==> may_route_by_shebang(maps, path, plugin_names_for(maps, path, o.first))
}

/// Observations that routing made of a file through the matchers and the
/// environment: its own answers are the matchers' for its path; when it may be
/// routed by its shebang its start is what reading `SHEBANG_READ_BYTES` bytes
/// of its path gave, and otherwise it was not read; the second answers are the
/// matchers' for its path with the mapped extension, when there is one.
pub open spec fn observation_made<M: AssociationMatcher, E: Environment>(
    matchers: Seq<M>,
    env: E,
    maps: ResolutionMapsView,
    path: Seq<char>,
    o: FileObservation,
) -> bool {
    &&& observation_fits(maps, path, o)
    &&& answers_from(matchers, path, o.first)
    &&& if may_route_by_shebang(maps, path, plugin_names_for(maps, path, o.first)) {
        read_start_answer(env, path, SHEBANG_READ_BYTES, o.start)
    } else {
        o.start is None
    }
    &&& answers_for_query(matchers, second_query(maps, path, o.first, o.start), o.second)
}

/// The plugin names and mapped extension of the `i`-th file.
pub open spec fn routed_file(
    maps: ResolutionMapsView,
    paths: Seq<Seq<char>>,
    obs: Seq<FileObservation>,
    i: int,
) -> (Seq<Seq<char>>, Option<Seq<char>>) {
    shebang_route(maps, paths[i], obs[i].first, obs[i].start, obs[i].second)
}

/// The files of `paths` that some plugin formats, grouped under the key of
/// their plugin names, groups and files in first-seen order.
pub open spec fn grouped_files(
    maps: ResolutionMapsView,
    paths: Seq<Seq<char>>,
    obs: Seq<FileObservation>,
) -> Groups
    decreases paths.len(),
{
    if paths.len() == 0 {
        seq![]
    } else {
        let g = grouped_files(maps, paths.drop_last(), obs);
        let r = routed_file(maps, paths, obs, paths.len() - 1);
        if r.0.len() == 0 {
            g
        } else {
            add_to_group(g, join_with(r.0, plugin_names_separator()), (paths.last(), r.1))
        }
    }
}

/// The number of files in the groups.
pub open spec fn file_count(g: Groups) -> nat
    decreases g.len(),
{
    if g.len() == 0 {
        0
    } else {
        file_count(g.drop_last()) + g.last().1.len()
    }
}

/// The number of files among the first `n` that some plugin formats.
pub open spec fn routed_count(
    maps: ResolutionMapsView,
    paths: Seq<Seq<char>>,
    obs: Seq<FileObservation>,
    n: int,
) -> nat
    decreases n,
{
    if n <= 0 {
        0
    } else {
        routed_count(maps, paths, obs, n - 1) + if routed_file(maps, paths, obs, n - 1).0.len()
            > 0 {
            1nat
        } else {
            0nat
        }
    }
}

/// The paths of the files in the groups, group by group.
pub open spec fn all_paths(g: Groups) -> Seq<Seq<char>>
    decreases g.len(),
{
    if g.len() == 0 {
        seq![]
    } else {
        all_paths(g.drop_last()) + g.last().1.map_values(|f: FileView| f.0)
    }
}

proof fn lemma_add_to_group(g: Groups, key: Seq<char>, f: FileView)
    requires
        groups_wf(g),
    ensures
        groups_wf(add_to_group(g, key, f)),
        file_count(add_to_group(g, key, f)) == file_count(g) + 1,
        add_to_group(g, key, f).len() > 0,
    decreases g.len(),
{
    lemma_key_index(g, key);
    let k: int = key_index(g, key);
    let r = add_to_group(g, key, f);
    if k >= 0 {
        if k == g.len() - 1 {
            assert(r.drop_last() =~= g.drop_last());
        } else {
            let dl = g.drop_last();
            assert(groups_wf(dl));
            lemma_key_index(dl, key);
            assert(key_index(g, key) == key_index(dl, key));
            lemma_add_to_group(dl, key, f);
            assert(r.drop_last() =~= add_to_group(dl, key, f));
        }
    } else {
        assert(r.drop_last() =~= g);
    }
}

proof fn lemma_grouped_files(maps: ResolutionMapsView, paths: Seq<Seq<char>>, obs: Seq<FileObservation>)
    ensures
        groups_wf(grouped_files(maps, paths, obs)),
        file_count(grouped_files(maps, paths, obs)) == routed_count(
            maps,
            paths,
            obs,
            paths.len() as int,
        ),
        grouped_files(maps, paths, obs).len() == 0 <==> routed_count(
            maps,
            paths,
            obs,
            paths.len() as int,
        ) == 0,
    decreases paths.len(),
{
    if paths.len() > 0 {
        let dl = paths.drop_last();
        lemma_grouped_files(maps, dl, obs);
        lemma_routed_count_prefix(maps, paths, obs, paths.len() - 1);
        let g = grouped_files(maps, dl, obs);
        let r = routed_file(maps, paths, obs, paths.len() - 1);
        if r.0.len() > 0 {
            lemma_add_to_group(g, join_with(r.0, plugin_names_separator()), (paths.last(), r.1));
        }
    }
}

proof fn lemma_routed_count_prefix(
    maps: ResolutionMapsView,
    paths: Seq<Seq<char>>,
    obs: Seq<FileObservation>,
    n: int,
)
    requires
        0 <= n <= paths.len(),
    ensures
        routed_count(maps, paths, obs, n) == routed_count(maps, paths.take(n), obs, n),
    decreases n,
{
    if n > 0 {
        lemma_routed_count_prefix(maps, paths, obs, n - 1);
        lemma_routed_count_take(maps, paths, obs, n, n - 1);
        assert(paths.take(n)[n - 1] == paths[n - 1]);
    }
}

proof fn lemma_routed_count_take(
    maps: ResolutionMapsView,
    paths: Seq<Seq<char>>,
    obs: Seq<FileObservation>,
    n: int,
    m: int,
)
    requires
        0 <= m <= n <= paths.len(),
    ensures
        routed_count(maps, paths.take(n), obs, m) == routed_count(maps, paths.take(m), obs, m),
    decreases m,
{
    if m > 0 {
        lemma_routed_count_take(maps, paths, obs, n, m - 1);
        lemma_routed_count_take(maps, paths, obs, m, m - 1);
        assert(paths.take(n)[m - 1] == paths[m - 1]);
        assert(paths.take(m)[m - 1] == paths[m - 1]);
    }
}

/// The files to format, grouped by the plugins that format them.
pub struct FilesPathsByPlugins(Vec<(PluginNames, Vec<FileToFormat>)>);

impl View for FilesPathsByPlugins {
    type V = Groups;

    closed spec fn view(&self) -> Groups {
        group_views(self.0@)
    }
}

impl FilesPathsByPlugins {
    #[verifier::type_invariant]
    closed spec fn well_formed(&self) -> bool {
        groups_wf(self@)
    }

    /// Fails with `NoFilesFoundError` for `base_path` when there is no file.
    pub fn ensure_not_empty(&self, base_path: &str) -> (r: Result<(), NoFilesFoundError>)
        ensures
            match r {
                Ok(()) => self@.len() > 0,
                Err(e) => self@.len() == 0 && e.base_path@ == base_path@,
            },
    {
        if self.is_empty() {
            Err(NoFilesFoundError { base_path: base_path.to_owned() })
        } else {
            Ok(())
        }
    }

    /// Whether there is no file.
    pub fn is_empty(&self) -> (r: bool)
        ensures
            r == (self@.len() == 0),
            r == (file_count(self@) == 0),
    {
        proof {
            use_type_invariant(self);
            if self@.len() > 0 {
                lemma_file_count_positive(self@);
            }
        }
        self.0.len() == 0
    }

    /// The groups, each plugin-name key with its files.
    pub fn into_vec(self) -> (r: Vec<(PluginNames, Vec<FileToFormat>)>)
        ensures
            group_views(r@) == self@,
            groups_wf(group_views(r@)),
    {
        proof {
            use_type_invariant(&self);
        }
        self.0
    }

    /// The paths of all the files, group by group.
    pub fn all_file_paths(&self) -> (r: Vec<String>)
        ensures
            string_views(r@) == all_paths(self@),
    {
        let ghost g = self@;
        let mut r: Vec<String> = Vec::new();
        let mut i: usize = 0;
        while i < self.0.len()
            invariant
                i <= self.0@.len(),
                g == group_views(self.0@),
                string_views(r@) == all_paths(g.take(i as int)),
            decreases self.0@.len() - i,
        {
            let files = &self.0[i].1;
            let ghost start = string_views(r@);
            let mut j: usize = 0;
            while j < files.len()
                invariant
                    j <= files@.len(),
                    string_views(r@) == start + file_views(files@).take(j as int).map_values(
                        |f: FileView| f.0,
                    ),
                decreases files@.len() - j,
            {
                let ghost before = r@;
                r.push(files[j].path.clone());
                proof {
                    assert(string_views(r@) =~= string_views(before).push(files@[j as int].path@));
                    assert(file_views(files@).take(j + 1).map_values(|f: FileView| f.0)
                        =~= file_views(files@).take(j as int).map_values(|f: FileView| f.0).push(
                        files@[j as int].path@,
                    ));
                }
                j = j + 1;
            }
            proof {
                assert(file_views(files@).take(files@.len() as int) =~= file_views(files@));
                assert(g.take(i + 1).drop_last() =~= g.take(i as int));
                assert(g.take(i + 1).last() == g[i as int]);
                assert(g[i as int].1 == file_views(files@));
            }
            i = i + 1;
        }
        proof {
            assert(g.take(g.len() as int) =~= g);
        }
        r
    }
}

proof fn lemma_file_count_positive(g: Groups)
    requires
        groups_wf(g),
        g.len() > 0,
    ensures
        file_count(g) > 0,
{
    assert(g[g.len() - 1].1.len() > 0);
}

/// Reads the shebang line from the start of an extensionless file, if present.
///
/// Also gives what the read returned.
fn read_shebang_line<E: Environment>(environment: &E, file_path: &str) -> (r: (
    Option<String>,
    Ghost<Option<Seq<u8>>>,
))
    ensures
        match r.1@ {
            Some(bytes) => match r.0 {
                Some(line) => parsed_shebang(bytes) == Some(line@),
                None => parsed_shebang(bytes) is None,
            },
            None => r.0 is None,
        },
        read_start_answer(*environment, file_path@, SHEBANG_READ_BYTES, r.1@),
{
    let read = environment.read_file_start_bytes(file_path, SHEBANG_READ_BYTES);
    proof {
        assert(read_start_answer(*environment, file_path@, SHEBANG_READ_BYTES, read_bytes(read)));
    }
    match read {
        Some(bytes) => {
            let line = parse_shebang_line(bytes.as_slice());
            (line, Ghost(Some(bytes@)))
        },
        None => (None, Ghost(None)),
    }
}

/// Adds a file to the group under `key`, making the group when there is none.
fn add_to_group_exec(
    groups: &mut Vec<(PluginNames, Vec<FileToFormat>)>,
    key: PluginNames,
    file: FileToFormat,
)
    ensures
        group_views(final(groups)@) == add_to_group(group_views(old(groups)@), key@, file@),
{
    let ghost v = group_views(groups@);
    let mut k: usize = groups.len();
    proof {
        assert(v.take(k as int) =~= v);
    }
    while k > 0
        invariant
            k <= groups@.len(),
            groups@ == old(groups)@,
            v == group_views(groups@),
            key_index(v, key@) == key_index(v.take(k as int), key@),
        decreases k,
    {
        proof {
            assert(v.take(k as int).drop_last() =~= v.take(k - 1));
            assert(v.take(k as int).last() == v[k - 1]);
        }
        if groups[k - 1].0.0 == key.0 {
            let (entry_key, mut files) = groups.remove(k - 1);
            let ghost files_before = files@;
            let ghost fv = file@;
            files.push(file);
            groups.insert(k - 1, (entry_key, files));
            proof {
                assert(key_index(v, key@) == k - 1);
                assert(group_views(groups@) =~= v.update(k - 1, (key@, v[k - 1].1.push(fv)))) by {
                    assert(file_views(files@) =~= file_views(files_before).push(fv));
                }
            }
            return;
        }
        k = k - 1;
    }
    proof {
        assert(v.take(0) =~= Seq::<(Seq<char>, Seq<FileView>)>::empty());
    }
    let ghost key_view = key@;
    let ghost fv = file@;
    let mut files: Vec<FileToFormat> = Vec::new();
    files.push(file);
    groups.push((key, files));
    proof {
        assert(group_views(groups@) =~= v.push((key_view, seq![fv]))) by {
            assert(file_views(files@) =~= seq![fv]);
        }
    }
}

/// Groups files by the plugins that format them.
///
/// A file no plugin claims by association, file name or extension, that has no
/// extension, is read (its first `SHEBANG_READ_BYTES` bytes) when shebang
/// mappings are configured, and is routed by its shebang line to the plugins of
/// the mapped extension. Files that no plugin formats are left out.
pub fn get_file_paths_by_plugins<M: AssociationMatcher, E: Environment>(
    plugin_name_maps: &PluginNameResolutionMaps<M>,
    file_paths: Vec<String>,
    environment: &E,
) -> (r: FilesPathsByPlugins)
    ensures
        exists|obs: Seq<FileObservation>|
            #![trigger grouped_files(plugin_name_maps@, string_views(file_paths@), obs)]
            obs.len() == file_paths@.len() && (forall|i: int|
                0 <= i < obs.len() ==> observation_made(
                    plugin_name_maps.association_matchers(),
                    *environment,
                    plugin_name_maps@,
                    string_views(file_paths@)[i],
                    #[trigger] obs[i],
                )) && r@ == grouped_files(plugin_name_maps@, string_views(file_paths@), obs)
                && file_count(r@) == routed_count(
                plugin_name_maps@,
                string_views(file_paths@),
                obs,
                file_paths@.len() as int,
            ),
{
    let ghost maps = plugin_name_maps@;
    let ghost paths = string_views(file_paths@);
    let ghost mut obs: Seq<FileObservation> = Seq::empty();
    let mut groups: Vec<(PluginNames, Vec<FileToFormat>)> = Vec::new();
    for file_path in it: file_paths
        invariant
            maps == plugin_name_maps@,
            paths == string_views(it.seq()),
            obs.len() == it.index(),
            forall|i: int|
                0 <= i < obs.len() ==> observation_made(
                    plugin_name_maps.association_matchers(),
                    *environment,
                    maps,
                    paths[i],
                    #[trigger] obs[i],
                ),
            group_views(groups@) == grouped_files(maps, paths.take(it.index()), obs),
    {
        let ghost idx = it.index();
        let ghost groups_before = group_views(groups@);
        let ghost obs_before = obs;
        let a1 = plugin_name_maps.association_results(file_path.as_str());
        let mut plugin_names = plugin_name_maps.plugin_names_from_association_results(
            file_path.as_str(),
            &a1,
        );
        let ghost first = plugin_names_for(maps, file_path@, a1@);
        let ghost mut start: Option<Seq<u8>> = None;
        let ghost mut a2 = a1@;
        let mut format_ext: Option<String> = None;
        // fall back to shebang-based routing for extensionless files that didn't
        // match by association, file name or extension
        if plugin_names.len() == 0 && plugin_name_maps.has_hashbangs()
            && get_lowercase_file_extension(file_path.as_str()).is_none() {
            let (shebang_line, Ghost(read)) = read_shebang_line(environment, file_path.as_str());
            proof {
                start = read;
            }
            match shebang_line {
                Some(line) => match plugin_name_maps.resolve_hashbang_extension(line.as_str()) {
                    Some(ext) => {
                        let synthetic_path = append_extension(file_path.as_str(), ext);
                        let results = plugin_name_maps.association_results(synthetic_path.as_str());
                        let names = plugin_name_maps.plugin_names_from_association_results(
                            synthetic_path.as_str(),
                            &results,
                        );
                        proof {
                            a2 = results@;
                            assert(second_query(maps, file_path@, a1@, start) == Some(
                                synthetic_path@,
                            ));
                        }
                        if names.len() > 0 {
                            plugin_names = names;
                            format_ext = Some(ext.to_owned());
                        }
                    },
                    None => {},
                },
                None => {},
            }
        }
        let ghost pv = file_path@;
        let file = FileToFormat { path: file_path, format_ext };
        proof {
            assert(shebang_route(maps, pv, a1@, start, a2) == (string_views(plugin_names@), file@.1));
        }
        let ghost o = FileObservation { first: a1@, start, second: a2 };
        let ghost paths_now = paths.take(idx + 1);
        proof {
            assert(paths_now.drop_last() =~= paths.take(idx));
            assert(paths_now.last() == pv);
            assert(paths[idx] == pv);
            obs = obs.push(o);
            assert(obs.drop_last() =~= obs_before);
            assert(observation_made(
                plugin_name_maps.association_matchers(),
                *environment,
                maps,
                paths[idx],
                obs[idx],
            ));
            assert forall|i: int| 0 <= i < obs.len() implies observation_made(
                plugin_name_maps.association_matchers(),
                *environment,
                maps,
                paths[i],
                #[trigger] obs[i],
            ) by {
                if i < idx {
                    assert(obs[i] == obs.drop_last()[i]);
                }
            }
            assert(grouped_files(maps, paths.take(idx), obs) == grouped_files(
                maps,
                paths.take(idx),
                obs.drop_last(),
            )) by {
                lemma_grouped_files_obs_prefix(maps, paths.take(idx), obs.drop_last(), obs);
            }
            assert(routed_file(maps, paths_now, obs, idx) == shebang_route(
                maps,
                pv,
                a1@,
                start,
                a2,
            ));
            assert(string_views(plugin_names@).len() == plugin_names@.len());
        }
        let ghost fv = file@;
        let ghost names_view = string_views(plugin_names@);
        proof {
            assert(groups_before == grouped_files(maps, paths.take(idx), obs));
            assert(grouped_files(maps, paths_now, obs) == if names_view.len() == 0 {
                groups_before
            } else {
                add_to_group(groups_before, join_with(names_view, plugin_names_separator()), fv)
            });
        }
        if plugin_names.len() > 0 {
            let key = PluginNames::from_plugin_names(plugin_names.as_slice());
            add_to_group_exec(&mut groups, key, file);
        }
        proof {
            assert(group_views(groups@) == grouped_files(maps, paths_now, obs));
        }
    }
    proof {
        assert(paths.take(paths.len() as int) =~= paths);
        lemma_grouped_files(maps, paths, obs);
        assert(obs.len() == file_paths@.len());
    }
    FilesPathsByPlugins(groups)
}

/// Routing depends only on the observations of the files routed so far.
proof fn lemma_grouped_files_obs_prefix(
    maps: ResolutionMapsView,
    paths: Seq<Seq<char>>,
    obs: Seq<FileObservation>,
    longer: Seq<FileObservation>,
)
    requires
        paths.len() <= obs.len() <= longer.len(),
        obs =~= longer.take(obs.len() as int),
    ensures
        grouped_files(maps, paths, longer) == grouped_files(maps, paths, obs),
    decreases paths.len(),
{
    if paths.len() > 0 {
        lemma_grouped_files_obs_prefix(maps, paths.drop_last(), obs, longer);
        assert(longer[paths.len() - 1] == obs[paths.len() - 1]);
    }
}

/// The bytes given when formatting a file show the shebang line that routing
/// saw: when the file could be routed by its shebang, routing read its start,
/// and that start parses to the same shebang line as the bytes.
pub open spec fn start_agrees(
    maps: ResolutionMapsView,
    path: Seq<char>,
    o: FileObservation,
    bytes: Seq<u8>,
) -> bool {
    may_route_by_shebang(maps, path, plugin_names_for(maps, path, o.first)) ==> match o.start {
        Some(start) => parsed_shebang(start) == parsed_shebang(bytes),
        None => false,
    }
}

/// Resolving a file for formatting gives the plugins and the plugin path that
/// routing gave it, when the matchers answer alike and the bytes show the same
/// shebang line.
pub proof fn lemma_format_resolution_matches_routing(
    maps: ResolutionMapsView,
    path: Seq<char>,
    o: FileObservation,
    bytes: Seq<u8>,
)
    requires
        start_agrees(maps, path, o, bytes),
    ensures
        resolved_for_format(maps, path, bytes, o.first, o.second) == (
            shebang_route(maps, path, o.first, o.start, o.second).0,
            format_path_of(path, shebang_route(maps, path, o.first, o.start, o.second).1),
        ),
{
}

/// Each file in the groups is a file of `paths` that was routed to the plugins
/// its group is keyed by, with the extension it holds.
pub proof fn lemma_grouped_file_origin(
    maps: ResolutionMapsView,
    paths: Seq<Seq<char>>,
    obs: Seq<FileObservation>,
    gi: int,
    fi: int,
)
    requires
        0 <= gi < grouped_files(maps, paths, obs).len(),
        0 <= fi < grouped_files(maps, paths, obs)[gi].1.len(),
    ensures
        exists|i: int|
            #![trigger routed_file(maps, paths, obs, i)]
            0 <= i < paths.len() && paths[i] == grouped_files(maps, paths, obs)[gi].1[fi].0
                && routed_file(maps, paths, obs, i).1 == grouped_files(maps, paths, obs)[gi].1[fi].1
                && routed_file(maps, paths, obs, i).0.len() > 0 && join_with(
                routed_file(maps, paths, obs, i).0,
                plugin_names_separator(),
            ) == grouped_files(maps, paths, obs)[gi].0,
    decreases paths.len(),
{
    let n = paths.len() - 1;
    let d = paths.drop_last();
    let g = grouped_files(maps, d, obs);
    let r = routed_file(maps, paths, obs, n);
    let out = grouped_files(maps, paths, obs);
    let key = join_with(r.0, plugin_names_separator());
    let f = (paths.last(), r.1);
    assert forall|i: int| 0 <= i < d.len() implies #[trigger] routed_file(maps, d, obs, i)
        == routed_file(maps, paths, obs, i) by {
        assert(d[i] == paths[i]);
    }
    if r.0.len() == 0 {
        lemma_grouped_file_origin(maps, d, obs, gi, fi);
        let i = choose|i: int|
            #![trigger routed_file(maps, d, obs, i)]
            0 <= i < d.len() && d[i] == g[gi].1[fi].0 && routed_file(maps, d, obs, i).1 == g[gi].1[fi].1
                && routed_file(maps, d, obs, i).0.len() > 0 && join_with(
                routed_file(maps, d, obs, i).0,
                plugin_names_separator(),
            ) == g[gi].0;
        assert(routed_file(maps, paths, obs, i) == routed_file(maps, d, obs, i));
    } else {
        lemma_key_index(g, key);
        let k: int = key_index(g, key);
        assert(out == add_to_group(g, key, f));
        let from_before = if k >= 0 {
            gi != k || fi < g[k].1.len()
        } else {
            gi < g.len()
        };
        if from_before {
            assert(out[gi].0 == g[gi].0);
            assert(out[gi].1[fi] == g[gi].1[fi]);
            lemma_grouped_file_origin(maps, d, obs, gi, fi);
            let i = choose|i: int|
                #![trigger routed_file(maps, d, obs, i)]
                0 <= i < d.len() && d[i] == g[gi].1[fi].0 && routed_file(maps, d, obs, i).1
                    == g[gi].1[fi].1 && routed_file(maps, d, obs, i).0.len() > 0 && join_with(
                    routed_file(maps, d, obs, i).0,
                    plugin_names_separator(),
                ) == g[gi].0;
            assert(routed_file(maps, paths, obs, i) == routed_file(maps, d, obs, i));
        } else {
            assert(out[gi].0 == key);
            assert(out[gi].1[fi] == f);
            assert(routed_file(maps, paths, obs, n) == r);
        }
    }
}

/// A file that no plugin takes leaves the groups of the others as they would be
/// without it: a file whose read failed, or whose shebang maps to nothing, is
/// dropped and changes nothing else.
pub proof fn lemma_unrouted_file_leaves_groups(
    maps: ResolutionMapsView,
    paths: Seq<Seq<char>>,
    obs: Seq<FileObservation>,
    k: int,
)
    requires
        paths.len() <= obs.len(),
        0 <= k < paths.len(),
        routed_file(maps, paths, obs, k).0.len() == 0,
    ensures
        grouped_files(maps, paths, obs) == grouped_files(maps, paths.remove(k), obs.remove(k)),
    decreases paths.len(),
{
    let n = paths.len() - 1;
    let d = paths.drop_last();
    if k == n {
        assert(paths.remove(k) =~= d);
        lemma_grouped_files_obs_prefix(maps, d, obs.take(n), obs);
        lemma_grouped_files_obs_prefix(maps, d, obs.take(n), obs.remove(k));
    } else {
        assert(d[k] == paths[k]);
        assert(routed_file(maps, d, obs, k) == routed_file(maps, paths, obs, k));
        lemma_unrouted_file_leaves_groups(maps, d, obs, k);
        let pr = paths.remove(k);
        let orm = obs.remove(k);
        assert(pr.drop_last() =~= d.remove(k));
        assert(pr.last() == paths.last());
        assert(orm[n - 1] == obs[n]);
        assert(routed_file(maps, pr, orm, n - 1) == routed_file(maps, paths, obs, n));
    }
}

/// A file that its own resolution (association, file name or extension) gives
/// plugins to is not read: routing takes no start of it, and groups it under
/// those plugins with no extension appended.
pub proof fn lemma_claimed_file_is_not_read<M: AssociationMatcher, E: Environment>(
    matchers: Seq<M>,
    env: E,
    maps: ResolutionMapsView,
    path: Seq<char>,
    o: FileObservation,
)
    requires
        observation_made(matchers, env, maps, path, o),
        plugin_names_for(maps, path, o.first).len() > 0,
    ensures
        o.start is None,
        shebang_route(maps, path, o.first, o.start, o.second) == (
            plugin_names_for(maps, path, o.first),
            None::<Seq<char>>,
        ),
{
}

/// Each matcher has one answer for each path, by `matches` and by
/// `matches_detail`.
pub open spec fn matchers_answer_alike<M: AssociationMatcher>(matchers: Seq<M>) -> bool {
    &&& forall|i: int, p: Seq<char>, r1: bool, r2: bool|
        #![trigger matches_answer(matchers[i], p, r1), matches_answer(matchers[i], p, r2)]
        0 <= i < matchers.len() && matches_answer(matchers[i], p, r1) && matches_answer(
            matchers[i],
            p,
            r2,
        ) ==> r1 == r2
    &&& forall|i: int, p: Seq<char>, r1: GlobMatchesDetail, r2: GlobMatchesDetail|
        #![trigger matches_detail_answer(matchers[i], p, r1), matches_detail_answer(matchers[i], p, r2)]
        0 <= i < matchers.len() && matches_detail_answer(matchers[i], p, r1)
            && matches_detail_answer(matchers[i], p, r2) ==> r1 == r2
}

/// Matchers that answer each path one way give the same answers each time.
proof fn lemma_answers_unique<M: AssociationMatcher>(
    matchers: Seq<M>,
    path: Seq<char>,
    a: AssociationResultsView,
    b: AssociationResultsView,
)
    requires
        matchers_answer_alike(matchers),
        answers_from(matchers, path, a),
        answers_from(matchers, path, b),
    ensures
        a == b,
{
    assert forall|i: int| 0 <= i < matchers.len() implies a.matched[i] == b.matched[i]
        && a.details[i] == b.details[i] by {
        assert(matches_answer(matchers[i], path, a.matched[i]));
        assert(matches_answer(matchers[i], path, b.matched[i]));
        assert(matches_detail_answer(matchers[i], path, a.details[i]));
        assert(matches_detail_answer(matchers[i], path, b.details[i]));
    }
    assert(a.matched =~= b.matched);
    assert(a.details =~= b.details);
}

/// Formatting resolves a collected file as collecting did. Every file in the
/// groups came from a file of `paths`. When the matchers answer each path one
/// way, and the bytes given show the shebang line that collecting read, then
/// resolving that file for formatting with the matchers' answers (`a1` for its
/// path, `a2` for its path with the mapped extension) gives the plugins its
/// group is keyed by and the file's format path.
pub proof fn lemma_format_resolves_collected_file<M: AssociationMatcher, E: Environment>(
    matchers: Seq<M>,
    env: E,
    maps: ResolutionMapsView,
    paths: Seq<Seq<char>>,
    obs: Seq<FileObservation>,
    gi: int,
    fi: int,
    bytes: Seq<u8>,
    a1: AssociationResultsView,
    a2: AssociationResultsView,
)
    requires
        obs.len() == paths.len(),
        forall|i: int|
            0 <= i < paths.len() ==> observation_made(matchers, env, maps, paths[i], #[trigger] obs[i]),
        matchers_answer_alike(matchers),
        0 <= gi < grouped_files(maps, paths, obs).len(),
        0 <= fi < grouped_files(maps, paths, obs)[gi].1.len(),
        answers_from(matchers, grouped_files(maps, paths, obs)[gi].1[fi].0, a1),
        answers_for_query(
            matchers,
            second_query(maps, grouped_files(maps, paths, obs)[gi].1[fi].0, a1, Some(bytes)),
            a2,
        ),
    ensures
        exists|i: int|
            #![trigger routed_file(maps, paths, obs, i)]
            0 <= i < paths.len() && paths[i] == grouped_files(maps, paths, obs)[gi].1[fi].0 && (
            start_agrees(maps, paths[i], obs[i], bytes) ==> {
                let (names, p) = resolved_for_format(maps, paths[i], bytes, a1, a2);
                &&& join_with(names, plugin_names_separator()) == grouped_files(maps, paths, obs)[gi].0
                &&& p == format_path_of(
                    grouped_files(maps, paths, obs)[gi].1[fi].0,
                    grouped_files(maps, paths, obs)[gi].1[fi].1,
                )
            }),
{
    lemma_grouped_file_origin(maps, paths, obs, gi, fi);
    let i = choose|i: int|
        #![trigger routed_file(maps, paths, obs, i)]
        0 <= i < paths.len() && paths[i] == grouped_files(maps, paths, obs)[gi].1[fi].0
            && routed_file(maps, paths, obs, i).1 == grouped_files(maps, paths, obs)[gi].1[fi].1
            && routed_file(maps, paths, obs, i).0.len() > 0 && join_with(
            routed_file(maps, paths, obs, i).0,
            plugin_names_separator(),
        ) == grouped_files(maps, paths, obs)[gi].0;
    let path = paths[i];
    let o = obs[i];
    assert(observation_made(matchers, env, maps, path, o));
    if start_agrees(maps, path, o, bytes) {
        lemma_answers_unique(matchers, path, a1, o.first);
        assert(second_query(maps, path, a1, Some(bytes)) == second_query(maps, path, o.first, o.start));
        match second_query(maps, path, o.first, o.start) {
            Some(q) => {
                lemma_answers_unique(matchers, q, a2, o.second);
            },
            None => {
                assert(shebang_route(maps, path, a1, Some(bytes), a2) == shebang_route(
                    maps,
                    path,
                    a1,
                    Some(bytes),
                    o.second,
                ));
            },
        }
        lemma_format_resolution_matches_routing(maps, path, o, bytes);
        assert(routed_file(maps, paths, obs, i) == shebang_route(maps, path, o.first, o.start, o.second));
    }
}

/// An include pattern given on the command line, as the search base reads it:
/// the directory it is relative to and whether it is negated.
pub struct IncludePatternBase {
    pub base_dir: String,
    pub is_negated: bool,
}

/// The (base directory, negated) pairs of include patterns.
pub open spec fn include_base_views(v: Seq<IncludePatternBase>) -> Seq<(Seq<char>, bool)> {
    v.map_values(|p: IncludePatternBase| (p.base_dir@, p.is_negated))
}

/// The search base after one more pattern: the pattern's base directory when
/// the pattern is not negated, holds the working directory and holds the base
/// so far; otherwise the base so far.
pub open spec fn search_base_step(cwd: Seq<char>, base: Seq<char>, p: (Seq<char>, bool)) -> Seq<char> {
    if !p.1 && path_starts_with(cwd, p.0) && path_starts_with(base, p.0) {
        p.0
    } else {
        base
    }
}

/// The search base for command-line include patterns: starting from the working
/// directory, each pattern in turn widens it to its own base directory.
pub open spec fn cli_search_base(cwd: Seq<char>, patterns: Seq<(Seq<char>, bool)>) -> Seq<char>
    decreases patterns.len(),
{
    if patterns.len() == 0 {
        cwd
    } else {
        search_base_step(cwd, cli_search_base(cwd, patterns.drop_last()), patterns.last())
    }
}

/// The search base for the command-line include patterns, if any: the working
/// directory or the widest base directory of a pattern that holds it.
pub fn get_cli_search_base(cwd: &str, arg_includes: &Option<Vec<IncludePatternBase>>) -> (r: String)
    ensures
        r@ == match arg_includes {
            Some(v) => cli_search_base(cwd@, include_base_views(v@)),
            None => cwd@,
        },
        path_starts_with(cwd@, r@),
{
    let mut base = cwd.to_owned();
    proof {
        let c = crate::file_path_utils::path_components(cwd@);
        assert(c.take(c.len() as int) =~= c);
    }
    match arg_includes {
        Some(patterns) => {
            let ghost v = include_base_views(patterns@);
            let mut i: usize = 0;
            while i < patterns.len()
                invariant
                    i <= patterns@.len(),
                    v == include_base_views(patterns@),
                    base@ == cli_search_base(cwd@, v.take(i as int)),
                    path_starts_with(cwd@, base@),
                decreases patterns@.len() - i,
            {
                let pattern = &patterns[i];
                proof {
                    assert(v.take(i + 1).drop_last() =~= v.take(i as int));
                    assert(v.take(i + 1).last() == (pattern.base_dir@, pattern.is_negated));
                }
                if !pattern.is_negated && starts_with_path(cwd, pattern.base_dir.as_str())
                    && starts_with_path(base.as_str(), pattern.base_dir.as_str()) {
                    base = pattern.base_dir.clone();
                }
                i = i + 1;
            }
            proof {
                assert(v.take(v.len() as int) =~= v);
            }
            base
        },
        None => base,
    }
}

/// The directory that the file search starts from: the command-line search base
/// when the working directory lies strictly inside the base path, else the base
/// path.
pub open spec fn glob_start_dir_of(
    cwd: Seq<char>,
    base_path: Seq<char>,
    arg_includes: Option<Seq<(Seq<char>, bool)>>,
) -> Seq<char> {
    if path_components(cwd) != path_components(base_path) && path_starts_with(cwd, base_path) {
        match arg_includes {
            Some(v) => cli_search_base(cwd, v),
            None => cwd,
        }
    } else {
        base_path
    }
}

/// The directory to start the file search from, for the working directory, the
/// configuration's base path and the command-line include patterns.
pub fn glob_start_dir(cwd: &str, base_path: &str, arg_includes: &Option<Vec<IncludePatternBase>>) -> (r:
    String)
    ensures
        r@ == glob_start_dir_of(
            cwd@,
            base_path@,
            match arg_includes {
                Some(v) => Some(include_base_views(v@)),
                None => None,
            },
        ),
{
    let is_cwd_in_base = starts_with_path(cwd, base_path);
    let is_base_in_cwd = starts_with_path(base_path, cwd);
    proof {
        let c = path_components(cwd@);
        let b = path_components(base_path@);
        if is_cwd_in_base && is_base_in_cwd {
            assert(c =~= b) by {
                assert(c.take(b.len() as int) == b);
                assert(b.take(c.len() as int) == c);
            }
        }
        if c == b {
            assert(c.take(c.len() as int) =~= c);
        }
    }
    if is_cwd_in_base && !is_base_in_cwd {
        get_cli_search_base(cwd, arg_includes)
    } else {
        base_path.to_owned()
    }
}

/// Which changed files the command line restricts formatting to.
#[derive(PartialEq, Eq, Structural, Debug, Clone, Copy)]
pub enum GitFilter {
    /// The files staged in git.
    Staged,
    /// The files with uncommitted changes.
    Dirty,
    /// No restriction.
    NoFilter,
}

/// The git restriction for the command-line flags: staged files win over dirty
/// ones.
pub fn git_filter(only_staged: bool, only_dirty: bool) -> (r: GitFilter)
    ensures
        r == if only_staged {
            GitFilter::Staged
        } else if only_dirty {
            GitFilter::Dirty
        } else {
            GitFilter::NoFilter
        },
{
    if only_staged {
        GitFilter::Staged
    } else if only_dirty {
        GitFilter::Dirty
    } else {
        GitFilter::NoFilter
    }
}

/// A pattern of a plugin's association configuration, with whether it is
/// negated.
pub struct ConfigPattern {
    pub pattern: String,
    pub is_negated: bool,
}

/// A plugin's file matching as the include patterns read it: the file names
/// and extensions it formats by default and its association patterns, if any.
pub struct PluginFilePatterns {
    pub file_names: Vec<String>,
    pub file_extensions: Vec<String>,
    pub associations: Option<Vec<ConfigPattern>>,
}

/// What the include patterns read of a plugin.
pub struct PluginFilePatternsView {
    pub file_names: Seq<Seq<char>>,
    pub file_extensions: Seq<Seq<char>>,
    pub association_globs: Seq<Seq<char>>,
}

/// The patterns of a list that are not negated, in order.
pub open spec fn positive_patterns(v: Seq<ConfigPattern>) -> Seq<Seq<char>>
    decreases v.len(),
{
    if v.len() == 0 {
        seq![]
    } else {
        let prev = positive_patterns(v.drop_last());
        if v.last().is_negated {
            prev
        } else {
            prev.push(v.last().pattern@)
        }
    }
}

impl View for PluginFilePatterns {
    type V = PluginFilePatternsView;

    open spec fn view(&self) -> PluginFilePatternsView {
        PluginFilePatternsView {
            file_names: string_views(self.file_names@),
            file_extensions: string_views(self.file_extensions@),
            association_globs: match self.associations {
                Some(v) => positive_patterns(v@),
                None => seq![],
            },
        }
    }
}

/// `seen` with each of `items` added unless already there.
pub open spec fn add_unseen(seen: Seq<Seq<char>>, items: Seq<Seq<char>>) -> Seq<Seq<char>>
    decreases items.len(),
{
    if items.len() == 0 {
        seen
    } else {
        let prev = add_unseen(seen, items.drop_last());
        if prev.contains(items.last()) {
            prev
        } else {
            prev.push(items.last())
        }
    }
}

/// The distinct file extensions of the plugins, in first-seen order.
pub open spec fn distinct_extensions(plugins: Seq<PluginFilePatternsView>) -> Seq<Seq<char>>
    decreases plugins.len(),
{
    if plugins.len() == 0 {
        seq![]
    } else {
        add_unseen(distinct_extensions(plugins.drop_last()), plugins.last().file_extensions)
    }
}

/// The distinct file names of the plugins, in first-seen order.
pub open spec fn distinct_file_names(plugins: Seq<PluginFilePatternsView>) -> Seq<Seq<char>>
    decreases plugins.len(),
{
    if plugins.len() == 0 {
        seq![]
    } else {
        add_unseen(distinct_file_names(plugins.drop_last()), plugins.last().file_names)
    }
}

/// The positive association patterns of the plugins, in order.
pub open spec fn association_globs(plugins: Seq<PluginFilePatternsView>) -> Seq<Seq<char>>
    decreases plugins.len(),
{
    if plugins.len() == 0 {
        seq![]
    } else {
        association_globs(plugins.drop_last()) + plugins.last().association_globs
    }
}

/// The include patterns derived from the plugins: one for all their
/// extensions (`**/*.{a,b}`), one for all their file names (`**/{a,b}`), each
/// when there is any, then their positive association patterns.
pub open spec fn plugin_patterns(plugins: Seq<PluginFilePatternsView>) -> Seq<Seq<char>> {
    let exts = distinct_extensions(plugins);
    let names = distinct_file_names(plugins);
    (if exts.len() > 0 {
        seq![seq!['*', '*', '/', '*', '.', '{'] + join_with(exts, seq![',']) + seq!['}']]
    } else {
        seq![]
    }) + (if names.len() > 0 {
        seq![seq!['*', '*', '/', '{'] + join_with(names, seq![',']) + seq!['}']]
    } else {
        seq![]
    }) + association_globs(plugins)
}

/// The views of a sequence of plugins' file patterns.
pub open spec fn plugin_pattern_views(v: Seq<PluginFilePatterns>) -> Seq<PluginFilePatternsView> {
    v.map_values(|p: PluginFilePatterns| p@)
}

/// Whether a configured pattern is a positive (not negated) one.
pub open spec fn positive_pattern() -> spec_fn(ConfigPattern) -> bool {
    |c: ConfigPattern| !c.is_negated
}

/// The text of a configured pattern.
pub open spec fn pattern_text() -> spec_fn(ConfigPattern) -> Seq<char> {
    |c: ConfigPattern| c.pattern@
}

/// The texts of a plugin's positive association patterns, in order.
pub open spec fn own_positive_globs(p: PluginFilePatterns) -> Seq<Seq<char>> {
    match p.associations {
        Some(v) => v@.filter(positive_pattern()).map_values(pattern_text()),
        None => seq![],
    }
}

/// Each plugin's positive association patterns, plugin by plugin.
pub open spec fn globs_by_plugin(plugins: Seq<PluginFilePatterns>) -> Seq<Seq<Seq<char>>> {
    plugins.map_values(|p: PluginFilePatterns| own_positive_globs(p))
}

proof fn lemma_positive_patterns_filter(v: Seq<ConfigPattern>)
    ensures
        positive_patterns(v) == v.filter(positive_pattern()).map_values(pattern_text()),
    decreases v.len(),
{
    if v.len() == 0 {
        assert(v.filter(positive_pattern()) =~= Seq::<ConfigPattern>::empty()) by {
            reveal(Seq::filter);
        }
        assert(v.filter(positive_pattern()).map_values(pattern_text()) =~= Seq::<Seq<char>>::empty());
    } else {
        let d = v.drop_last();
        lemma_positive_patterns_filter(d);
        d.lemma_filter_push(v.last(), positive_pattern());
        assert(d.push(v.last()) =~= v);
        let fd = d.filter(positive_pattern());
        if !v.last().is_negated {
            assert(fd.push(v.last()).map_values(pattern_text()) =~= fd.map_values(pattern_text()).push(
                v.last().pattern@,
            ));
        }
    }
}

proof fn lemma_association_globs_flatten(plugins: Seq<PluginFilePatterns>)
    ensures
        association_globs(plugin_pattern_views(plugins)) == globs_by_plugin(plugins).flatten(),
    decreases plugins.len(),
{
    if plugins.len() == 0 {
        assert(globs_by_plugin(plugins) =~= Seq::<Seq<Seq<char>>>::empty());
        assert(plugin_pattern_views(plugins) =~= Seq::<PluginFilePatternsView>::empty());
    } else {
        let d = plugins.drop_last();
        let last = plugins.last();
        lemma_association_globs_flatten(d);
        assert(plugin_pattern_views(plugins).drop_last() =~= plugin_pattern_views(d));
        assert(globs_by_plugin(plugins) =~= globs_by_plugin(d).push(own_positive_globs(last)));
        globs_by_plugin(d).lemma_flatten_push(own_positive_globs(last));
        match last.associations {
            Some(v) => {
                lemma_positive_patterns_filter(v@);
            },
            None => {},
        }
        assert(plugin_pattern_views(plugins).last().association_globs == own_positive_globs(last));
    }
}

/// No association pattern is lost: after the (at most two) patterns for the
/// plugins' extensions and file names, the derived include patterns are every
/// plugin's positive association patterns, plugin by plugin in order, each
/// plugin's in the order configured.
pub proof fn lemma_every_association_glob_included(plugins: Seq<PluginFilePatterns>)
    ensures
        exists|head: Seq<Seq<char>>|
            #![trigger head.len()]
            head.len() <= 2 && plugin_patterns(plugin_pattern_views(plugins)) == head
                + globs_by_plugin(plugins).flatten(),
{
    lemma_association_globs_flatten(plugins);
    let views = plugin_pattern_views(plugins);
    let exts = distinct_extensions(views);
    let names = distinct_file_names(views);
    let head = (if exts.len() > 0 {
        seq![seq!['*', '*', '/', '*', '.', '{'] + join_with(exts, seq![',']) + seq!['}']]
    } else {
        seq![]
    }) + (if names.len() > 0 {
        seq![seq!['*', '*', '/', '{'] + join_with(names, seq![',']) + seq!['}']]
    } else {
        seq![]
    });
    assert(head.len() <= 2);
}

/// Adds each of `items` to `seen` unless already there.
fn add_unseen_exec(seen: &mut Vec<String>, items: &Vec<String>)
    ensures
        string_views(final(seen)@) == add_unseen(string_views(old(seen)@), string_views(items@)),
{
    let ghost start = string_views(seen@);
    let ghost iv = string_views(items@);
    let mut i: usize = 0;
    while i < items.len()
        invariant
            i <= items@.len(),
            iv == string_views(items@),
            string_views(seen@) == add_unseen(start, iv.take(i as int)),
        decreases items@.len() - i,
    {
        proof {
            assert(iv.take(i + 1).drop_last() =~= iv.take(i as int));
            assert(iv.take(i + 1).last() == items@[i as int]@);
        }
        let ghost sv = string_views(seen@);
        let mut found = false;
        let mut k: usize = 0;
        while k < seen.len()
            invariant
                k <= seen@.len(),
                i < items@.len(),
                sv == string_views(seen@),
                found == (exists|q: int| 0 <= q < k && sv[q] == items@[i as int]@),
            decreases seen@.len() - k,
        {
            if seen[k] == items[i] {
                found = true;
            }
            proof {
                if found && !(exists|q: int| 0 <= q < k && sv[q] == items@[i as int]@) {
                    assert(sv[k as int] == items@[i as int]@);
                }
            }
            k = k + 1;
        }
        proof {
            if sv.contains(items@[i as int]@) {
                let q: int = choose|q: int| 0 <= q < sv.len() && sv[q] == items@[i as int]@;
                assert(sv[q] == items@[i as int]@);
            }
            if found {
                let q: int = choose|q: int| 0 <= q < k && sv[q] == items@[i as int]@;
                assert(sv.contains(items@[i as int]@));
            }
        }
        if !found {
            let ghost before = seen@;
            seen.push(items[i].clone());
            proof {
                assert(string_views(seen@) =~= string_views(before).push(items@[i as int]@));
            }
        }
        i = i + 1;
    }
    proof {
        assert(iv.take(iv.len() as int) =~= iv);
    }
}

/// The parts joined by `sep`, between `prefix` and `suffix`.
fn braced_list(prefix: &str, parts: &Vec<String>, suffix: char) -> (r: String)
    ensures
        r@ == prefix@ + join_with(string_views(parts@), seq![',']) + seq![suffix],
{
    let mut r = String::new();
    push_str(&mut r, prefix);
    let ghost pv = string_views(parts@);
    let mut i: usize = 0;
    while i < parts.len()
        invariant
            i <= parts@.len(),
            pv == string_views(parts@),
            r@ == prefix@ + join_with(pv.take(i as int), seq![',']),
        decreases parts@.len() - i,
    {
        let ghost before = pv.take(i as int);
        if i > 0 {
            r.push(',');
        }
        push_str(&mut r, parts[i].as_str());
        proof {
            assert(pv.take(i + 1) =~= before.push(pv[i as int]));
            lemma_join_push(before, seq![','], pv[i as int]);
            if i > 0 {
                assert(r@ =~= prefix@ + (join_with(before, seq![',']) + seq![','] + pv[i as int]));
            } else {
                assert(r@ =~= prefix@ + pv[i as int]);
            }
        }
        i = i + 1;
    }
    r.push(suffix);
    proof {
        assert(pv.take(pv.len() as int) =~= pv);
        assert(r@ =~= prefix@ + join_with(pv, seq![',']) + seq![suffix]);
    }
    r
}

/// The include patterns derived from the plugins when no includes are
/// configured: `**/*.{...}` for their extensions, `**/{...}` for their file
/// names (each present once, in first-seen order), then their positive
/// association patterns.
pub fn get_plugin_patterns(plugins: &Vec<PluginFilePatterns>) -> (r: Vec<String>)
    ensures
        string_views(r@) == plugin_patterns(plugin_pattern_views(plugins@)),
{
    let ghost all = plugin_pattern_views(plugins@);
    let mut file_names: Vec<String> = Vec::new();
    let mut file_exts: Vec<String> = Vec::new();
    let mut globs: Vec<String> = Vec::new();
    let mut i: usize = 0;
    while i < plugins.len()
        invariant
            i <= plugins@.len(),
            all == plugin_pattern_views(plugins@),
            string_views(file_names@) == distinct_file_names(all.take(i as int)),
            string_views(file_exts@) == distinct_extensions(all.take(i as int)),
            string_views(globs@) == association_globs(all.take(i as int)),
        decreases plugins@.len() - i,
    {
        let plugin = &plugins[i];
        proof {
            assert(all.take(i + 1).drop_last() =~= all.take(i as int));
            assert(all.take(i + 1).last() == plugin@);
        }
        add_unseen_exec(&mut file_names, &plugin.file_names);
        add_unseen_exec(&mut file_exts, &plugin.file_extensions);
        match &plugin.associations {
            Some(patterns) => {
                let ghost g0 = string_views(globs@);
                let mut j: usize = 0;
                while j < patterns.len()
                    invariant
                        j <= patterns@.len(),
                        string_views(globs@) == g0 + positive_patterns(patterns@.take(j as int)),
                    decreases patterns@.len() - j,
                {
                    proof {
                        assert(patterns@.take(j + 1).drop_last() =~= patterns@.take(j as int));
                        assert(patterns@.take(j + 1).last() == patterns@[j as int]);
                    }
                    if !patterns[j].is_negated {
                        let ghost before = globs@;
                        globs.push(patterns[j].pattern.clone());
                        proof {
                            assert(string_views(globs@) =~= string_views(before).push(
                                patterns@[j as int].pattern@,
                            ));
                        }
                    }
                    j = j + 1;
                }
                proof {
                    assert(patterns@.take(patterns@.len() as int) =~= patterns@);
                }
            },
            None => {
                proof {
                    assert(string_views(globs@) =~= string_views(globs@) + Seq::<Seq<char>>::empty());
                }
            },
        }
        i = i + 1;
    }
    proof {
        assert(all.take(all.len() as int) =~= all);
    }
    proof {
        reveal_strlit("**/*.{");
        reveal_strlit("**/{");
    }
    let ghost exts = distinct_extensions(all);
    let ghost names = distinct_file_names(all);
    let ghost ext_part: Seq<Seq<char>> = if exts.len() > 0 {
        seq![seq!['*', '*', '/', '*', '.', '{'] + join_with(exts, seq![',']) + seq!['}']]
    } else {
        seq![]
    };
    let ghost name_part: Seq<Seq<char>> = if names.len() > 0 {
        seq![seq!['*', '*', '/', '{'] + join_with(names, seq![',']) + seq!['}']]
    } else {
        seq![]
    };
    let mut result: Vec<String> = Vec::new();
    if file_exts.len() > 0 {
        let pat = braced_list("**/*.{", &file_exts, '}');
        proof {
            assert("**/*.{"@ =~= seq!['*', '*', '/', '*', '.', '{']);
        }
        result.push(pat);
    }
    proof {
        assert(string_views(result@) =~= ext_part);
    }
    if file_names.len() > 0 {
        let ghost before = result@;
        let pat = braced_list("**/{", &file_names, '}');
        proof {
            assert("**/{"@ =~= seq!['*', '*', '/', '{']);
        }
        result.push(pat);
        proof {
            assert(string_views(result@) =~= string_views(before).push(pat@));
        }
    }
    let ghost head = string_views(result@);
    proof {
        assert(head =~= ext_part + name_part);
    }
    let mut k: usize = 0;
    while k < globs.len()
        invariant
            k <= globs@.len(),
            string_views(result@) == head + string_views(globs@).take(k as int),
        decreases globs@.len() - k,
    {
        let ghost before = result@;
        result.push(globs[k].clone());
        proof {
            assert(string_views(result@) =~= string_views(before).push(globs@[k as int]@));
            assert(string_views(globs@).take(k + 1) =~= string_views(globs@).take(k as int).push(
                globs@[k as int]@,
            ));
        }
        k = k + 1;
    }
    proof {
        assert(string_views(globs@).take(globs@.len() as int) =~= string_views(globs@));
        assert(string_views(result@) =~= plugin_patterns(all));
    }
    result
}

/// The include patterns derived from the plugins when the configuration gives
/// none: those of `plugin_patterns`, and when shebang mappings are enabled also
/// `**/*`, so that extensionless files are collected and can be routed by their
/// shebang line.
pub fn derived_config_includes(hashbangs_enabled: bool, plugins: &Vec<PluginFilePatterns>) -> (r: Vec<
    String,
>)
    ensures
        string_views(r@) == plugin_patterns(plugin_pattern_views(plugins@)) + if hashbangs_enabled {
            seq![seq!['*', '*', '/', '*']]
        } else {
            seq![]
        },
{
    let mut patterns = get_plugin_patterns(plugins);
    let ghost before = patterns@;
    if hashbangs_enabled {
        let all = "**/*";
        proof {
            reveal_strlit("**/*");
            assert(all@ =~= seq!['*', '*', '/', '*']);
        }
        patterns.push(all.to_owned());
        proof {
            assert(string_views(patterns@) =~= string_views(before).push(seq!['*', '*', '/', '*']));
        }
    } else {
        proof {
            assert(string_views(patterns@) =~= string_views(before) + seq![]);
        }
    }
    patterns
}

/// A pattern with each `\` turned into `/`.
pub open spec fn forward_slashes(p: Seq<char>) -> Seq<char> {
    p.map_values(|c: char| if c == '\\' { '/' } else { c })
}

/// A text without its trailing `/` characters.
pub open spec fn trim_trailing_slashes(s: Seq<char>) -> Seq<char>
    decreases s.len(),
{
    if s.len() > 0 && s.last() == '/' {
        trim_trailing_slashes(s.drop_last())
    } else {
        s
    }
}

/// What an include pattern expands to, given whether it names a directory: a
/// glob pattern (or `.`) stays as it is; a directory gives its path with
/// forward slashes and that path followed by `/**/*`; anything else stays as
/// it is.
pub open spec fn expanded_include_pattern(pattern: Seq<char>, is_glob: bool, is_dir: bool) -> Seq<
    Seq<char>,
> {
    if pattern == seq!['.'] || is_glob || !is_dir {
        seq![pattern]
    } else {
        let n = forward_slashes(pattern);
        seq![n, trim_trailing_slashes(n) + seq!['/', '*', '*', '/', '*']]
    }
}

/// An include pattern given on the command line, with whether it is a glob
/// pattern.
pub struct IncludePatternArg {
    pub pattern: String,
    pub is_glob: bool,
}

/// The texts of include pattern arguments with their glob flags.
pub open spec fn include_arg_views(v: Seq<IncludePatternArg>) -> Seq<(Seq<char>, bool)> {
    v.map_values(|a: IncludePatternArg| (a.pattern@, a.is_glob))
}

/// The expansions of the patterns, in order, for directory answers `dirs`.
pub open spec fn expanded_include_patterns(args: Seq<(Seq<char>, bool)>, dirs: Seq<bool>) -> Seq<
    Seq<char>,
>
    decreases args.len(),
{
    if args.len() == 0 {
        seq![]
    } else {
        expanded_include_patterns(args.drop_last(), dirs) + expanded_include_pattern(
            args.last().0,
            args.last().1,
            dirs[args.len() - 1],
        )
    }
}

/// A pattern with forward slashes, and the length of it without its trailing
/// slashes.
fn forward_slashes_exec(pattern: &str) -> (r: (String, usize))
    ensures
        r.0@ == forward_slashes(pattern@),
        r.1 <= r.0@.len(),
        trim_trailing_slashes(r.0@) == r.0@.take(r.1 as int),
{
    let cs = chars_of(pattern);
    let mut normalized = String::new();
    let mut trimmed_len: usize = 0;
    let mut i: usize = 0;
    while i < cs.len()
        invariant
            i <= cs@.len(),
            cs@ == pattern@,
            normalized@ == forward_slashes(cs@.take(i as int)),
            trimmed_len <= i,
            trim_trailing_slashes(normalized@) == normalized@.take(trimmed_len as int),
        decreases cs@.len() - i,
    {
        let c = if cs[i] == '\\' {
            '/'
        } else {
            cs[i]
        };
        let ghost before = normalized@;
        normalized.push(c);
        if c != '/' {
            trimmed_len = i + 1;
        }
        proof {
            assert(cs@.take(i + 1) =~= cs@.take(i as int).push(cs@[i as int]));
            assert(normalized@ =~= forward_slashes(cs@.take(i + 1)));
            assert(normalized@.drop_last() =~= before);
            if c != '/' {
                assert(normalized@.take(trimmed_len as int) =~= normalized@);
            } else {
                assert(before.take(trimmed_len as int) =~= normalized@.take(trimmed_len as int));
            }
        }
        i = i + 1;
    }
    proof {
        assert(cs@.take(cs@.len() as int) =~= cs@);
    }
    (normalized, trimmed_len)
}

/// What an include pattern expands to, given whether it is a glob pattern and
/// whether it names a directory.
pub fn expanded_include_pattern_for(pattern: &str, is_glob: bool, is_dir: bool) -> (r: Vec<String>)
    ensures
        string_views(r@) == expanded_include_pattern(pattern@, is_glob, is_dir),
{
    let cs = chars_of(pattern);
    let is_dot = cs.len() == 1 && cs[0] == '.';
    proof {
        if cs@.len() == 1 && cs@[0] == '.' {
            assert(pattern@ =~= seq!['.']);
        }
        if pattern@ == seq!['.'] {
            assert(cs@[0] == '.');
        }
    }
    let mut r: Vec<String> = Vec::new();
    if is_dot || is_glob || !is_dir {
        r.push(pattern.to_owned());
        proof {
            assert(string_views(r@) =~= seq![pattern@]);
        }
        return r;
    }
    let (normalized, trimmed_len) = forward_slashes_exec(pattern);
    let ncs = chars_of(normalized.as_str());
    let mut with_glob = String::new();
    let mut k: usize = 0;
    while k < trimmed_len
        invariant
            k <= trimmed_len <= ncs@.len(),
            ncs@ == normalized@,
            with_glob@ == ncs@.take(k as int),
        decreases trimmed_len - k,
    {
        with_glob.push(ncs[k]);
        proof {
            assert(ncs@.take(k + 1) =~= ncs@.take(k as int).push(ncs@[k as int]));
        }
        k = k + 1;
    }
    push_str(&mut with_glob, "/**/*");
    proof {
        reveal_strlit("/**/*");
        assert(with_glob@ =~= trim_trailing_slashes(normalized@) + seq!['/', '*', '*', '/', '*']);
    }
    r.push(normalized);
    r.push(with_glob);
    proof {
        assert(string_views(r@) =~= expanded_include_pattern(pattern@, is_glob, true));
    }
    r
}

/// Whether a command-line pattern is kept as it is, without asking the
/// environment about it: `.` and glob patterns are.
pub open spec fn kept_pattern(pattern: Seq<char>, is_glob: bool) -> bool {
    pattern == seq!['.'] || is_glob
}

/// `is_dir` is the environment's answer to whether a command-line pattern
/// names a directory: the pattern with forward slashes is asked about, joined
/// onto the working directory when the environment does not call it absolute.
pub open spec fn directory_answer<E: Environment>(env: E, pattern: Seq<char>, is_dir: bool) -> bool {
    let n = forward_slashes(pattern);
    ||| is_absolute_answer(env, n, true) && is_dir_answer(env, n, is_dir)
    ||| is_absolute_answer(env, n, false) && exists|cwd: Seq<char>|
        cwd_answer(env, cwd) && is_dir_answer(env, path_join(cwd, n), is_dir)
}

/// Expands a command-line include pattern that names a directory to that
/// directory and everything under it.
///
/// `is_glob` says whether the pattern is a glob pattern; such a pattern, and
/// `.`, are kept as they are. Otherwise the pattern, with forward slashes,
/// resolved against the working directory when it is relative, is asked about.
pub fn expand_directory_include_pattern<E: Environment>(
    pattern: &str,
    is_glob: bool,
    environment: &E,
) -> (r: Vec<String>)
    ensures
        kept_pattern(pattern@, is_glob) ==> string_views(r@) == seq![pattern@],
        exists|is_dir: bool|
            (kept_pattern(pattern@, is_glob) || directory_answer(*environment, pattern@, is_dir))
                && string_views(r@) == #[trigger] expanded_include_pattern(
                pattern@,
                is_glob,
                is_dir,
            ),
{
    let cs = chars_of(pattern);
    proof {
        if cs@.len() == 1 && cs@[0] == '.' {
            assert(pattern@ =~= seq!['.']);
        }
        if pattern@ == seq!['.'] {
            assert(cs@[0] == '.');
        }
    }
    if (cs.len() == 1 && cs[0] == '.') || is_glob {
        let r = expanded_include_pattern_for(pattern, is_glob, false);
        proof {
            assert(string_views(r@) == expanded_include_pattern(pattern@, is_glob, false));
        }
        return r;
    }
    let (normalized, _) = forward_slashes_exec(pattern);
    let absolute = environment.is_absolute_path(normalized.as_str());
    let ghost mut cwd_seen: Seq<char> = seq![];
    let path = if absolute {
        normalized
    } else {
        let cwd = environment.cwd();
        proof {
            cwd_seen = cwd@;
        }
        join_path(cwd.as_str(), normalized.as_str())
    };
    let is_dir = environment.fs_is_dir_no_err(path.as_str());
    proof {
        assert(is_absolute_answer(*environment, forward_slashes(pattern@), absolute));
        assert(is_dir_answer(*environment, path@, is_dir));
        if !absolute {
            assert(cwd_answer(*environment, cwd_seen));
        }
        assert(directory_answer(*environment, pattern@, is_dir));
    }
    let r = expanded_include_pattern_for(pattern, is_glob, is_dir);
    proof {
        assert(string_views(r@) == expanded_include_pattern(pattern@, is_glob, is_dir));
    }
    r
}

/// Expands each command-line include pattern that names a directory (see
/// `expand_directory_include_pattern`), keeping their order.
pub fn expand_directory_include_patterns<E: Environment>(
    include_patterns: &Vec<IncludePatternArg>,
    environment: &E,
) -> (r: Vec<String>)
    ensures
        exists|dirs: Seq<bool>|
            dirs.len() == include_patterns@.len() && (forall|i: int|
                0 <= i < dirs.len() ==> kept_pattern(
                    include_patterns@[i].pattern@,
                    include_patterns@[i].is_glob,
                ) || directory_answer(*environment, include_patterns@[i].pattern@, #[trigger] dirs[i]))
                && string_views(r@) == #[trigger] expanded_include_patterns(
                include_arg_views(include_patterns@),
                dirs,
            ),
{
    let ghost args = include_arg_views(include_patterns@);
    let ghost mut dirs: Seq<bool> = Seq::empty();
    let mut r: Vec<String> = Vec::new();
    let mut i: usize = 0;
    while i < include_patterns.len()
        invariant
            i <= include_patterns@.len(),
            args == include_arg_views(include_patterns@),
            dirs.len() == i,
            forall|j: int|
                0 <= j < dirs.len() ==> kept_pattern(
                    include_patterns@[j].pattern@,
                    include_patterns@[j].is_glob,
                ) || directory_answer(*environment, include_patterns@[j].pattern@, #[trigger] dirs[j]),
            string_views(r@) == expanded_include_patterns(args.take(i as int), dirs),
        decreases include_patterns@.len() - i,
    {
        let arg = &include_patterns[i];
        let expanded = expand_directory_include_pattern(arg.pattern.as_str(), arg.is_glob, environment);
        let ghost d = choose|is_dir: bool|
            (kept_pattern(arg.pattern@, arg.is_glob) || directory_answer(
                *environment,
                arg.pattern@,
                is_dir,
            )) && string_views(expanded@) == #[trigger] expanded_include_pattern(
                arg.pattern@,
                arg.is_glob,
                is_dir,
            );
        let ghost before = string_views(r@);
        let ghost old_dirs = dirs;
        proof {
            dirs = dirs.push(d);
            assert(dirs[i as int] == d);
            assert forall|j: int|
                0 <= j < dirs.len() implies kept_pattern(
                include_patterns@[j].pattern@,
                include_patterns@[j].is_glob,
            ) || directory_answer(*environment, include_patterns@[j].pattern@, #[trigger] dirs[j]) by {
                if j < i {
                    assert(dirs[j] == old_dirs[j]);
                }
            }
            lemma_expanded_dirs_prefix(args.take(i as int), old_dirs, dirs);
            assert(args.take(i + 1).drop_last() =~= args.take(i as int));
            assert(args.take(i + 1).last() == (arg.pattern@, arg.is_glob));
        }
        let mut k: usize = 0;
        while k < expanded.len()
            invariant
                k <= expanded@.len(),
                string_views(r@) == before + string_views(expanded@).take(k as int),
            decreases expanded@.len() - k,
        {
            let ghost b = r@;
            r.push(expanded[k].clone());
            proof {
                assert(string_views(r@) =~= string_views(b).push(expanded@[k as int]@));
                assert(string_views(expanded@).take(k + 1) =~= string_views(expanded@).take(
                    k as int,
                ).push(expanded@[k as int]@));
            }
            k = k + 1;
        }
        proof {
            assert(string_views(expanded@).take(expanded@.len() as int) =~= string_views(expanded@));
        }
        i = i + 1;
    }
    proof {
        assert(args.take(args.len() as int) =~= args);
    }
    r
}

proof fn lemma_expanded_dirs_prefix(args: Seq<(Seq<char>, bool)>, dirs: Seq<bool>, longer: Seq<bool>)
    requires
        args.len() <= dirs.len() <= longer.len(),
        dirs =~= longer.take(dirs.len() as int),
    ensures
        expanded_include_patterns(args, longer) == expanded_include_patterns(args, dirs),
    decreases args.len(),
{
    if args.len() > 0 {
        lemma_expanded_dirs_prefix(args.drop_last(), dirs, longer);
        assert(longer[args.len() - 1] == dirs[args.len() - 1]);
    }
}

} // verus!
