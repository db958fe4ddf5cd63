//! What the library asks of its surroundings: the file system and the compiled
//! association glob patterns of each plugin.

use vstd::prelude::*;

verus! {

/// How a plugin's association patterns judge a path.
#[derive(Clone, Copy, Debug, PartialEq, Eq, Structural)]
pub enum GlobMatchesDetail {
    /// A positive pattern matches and no negated pattern excludes the path.
    Matched,
    /// A negated pattern excludes the path.
    Excluded,
    /// No pattern says anything of the path.
    NotMatched,
}

/// The compiled association glob patterns of one plugin.
///
/// Nothing is assumed of what an implementation answers. The library states
/// its results over the answers it got, each tied to the call that gave it by
/// `matches_answer` and `matches_detail_answer`.
pub trait AssociationMatcher {
    /// Whether the patterns match the path.
    fn matches(&self, file_path: &str) -> bool;

    /// How the patterns judge the path.
    fn matches_detail(&self, file_path: &str) -> GlobMatchesDetail;
}

/// The parts of the environment that file routing touches.
///
/// Nothing is assumed of what an implementation answers. The library states
/// its results over the answers it got, each tied to the call that gave it by
/// the `..._answer` functions below.
pub trait Environment {
    /// The current working directory.
    fn cwd(&self) -> String;

    /// Whether a path is absolute.
    fn is_absolute_path(&self, path: &str) -> bool;

    /// Whether a path names a directory (`false` on any error).
    fn fs_is_dir_no_err(&self, path: &str) -> bool;

    /// Up to `max_bytes` bytes from the start of a file, or `None` when it
    /// cannot be read.
    fn read_file_start_bytes(&self, file_path: &str, max_bytes: usize) -> Option<Vec<u8>>;

    /// The directory that holds the cache.
    fn get_cache_dir(&self) -> String;

    /// Creates a directory and its parents; `true` on success.
    fn mk_dir_all(&self, path: &str) -> bool;
}

/// `r` is an answer that `m.matches` can give for a path with the text `path`.
pub open spec fn matches_answer<M: AssociationMatcher>(m: M, path: Seq<char>, r: bool) -> bool {
    exists|p: &str| p@ == path && call_ensures(M::matches, (&m, p), r)
}

/// `r` is an answer that `m.matches_detail` can give for a path with the text
/// `path`.
pub open spec fn matches_detail_answer<M: AssociationMatcher>(
    m: M,
    path: Seq<char>,
    r: GlobMatchesDetail,
) -> bool {
    exists|p: &str| p@ == path && call_ensures(M::matches_detail, (&m, p), r)
}

/// `r` is a working directory that `env.cwd` can give.
pub open spec fn cwd_answer<E: Environment>(env: E, r: Seq<char>) -> bool {
    exists|s: String| s@ == r && call_ensures(E::cwd, (&env,), s)
}

/// `r` is an answer that `env.is_absolute_path` can give for `path`.
pub open spec fn is_absolute_answer<E: Environment>(env: E, path: Seq<char>, r: bool) -> bool {
    exists|p: &str| p@ == path && call_ensures(E::is_absolute_path, (&env, p), r)
}

/// `r` is an answer that `env.fs_is_dir_no_err` can give for `path`.
pub open spec fn is_dir_answer<E: Environment>(env: E, path: Seq<char>, r: bool) -> bool {
    exists|p: &str| p@ == path && call_ensures(E::fs_is_dir_no_err, (&env, p), r)
}

/// The bytes of an answer of `read_file_start_bytes`.
pub open spec fn read_bytes(v: Option<Vec<u8>>) -> Option<Seq<u8>> {
    match v {
        Some(b) => Some(b@),
        None => None,
    }
}

/// `r` is what `env.read_file_start_bytes` can give, as bytes, for `path` and
/// at most `max_bytes` bytes.
pub open spec fn read_start_answer<E: Environment>(
    env: E,
    path: Seq<char>,
    max_bytes: usize,
    r: Option<Seq<u8>>,
) -> bool {
    exists|p: &str, v: Option<Vec<u8>>|
        p@ == path && call_ensures(E::read_file_start_bytes, (&env, p, max_bytes), v) && read_bytes(v)
            == r
}

/// `r` is a cache directory that `env.get_cache_dir` can give.
pub open spec fn cache_dir_answer<E: Environment>(env: E, r: Seq<char>) -> bool {
    exists|s: String| s@ == r && call_ensures(E::get_cache_dir, (&env,), s)
}

/// `r` is an answer that `env.mk_dir_all` can give for `path`.
pub open spec fn mk_dir_answer<E: Environment>(env: E, path: Seq<char>, r: bool) -> bool {
    exists|p: &str| p@ == path && call_ensures(E::mk_dir_all, (&env, p), r)
}

} // verus!
