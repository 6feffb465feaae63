//! Paths and the column names made from them.

use crate::value::{JsonPath, PathModel};
use vstd::prelude::*;
use vstd::string::*;

verus! {

/// The segments of a path joined by the separator.
pub open spec fn join_segments(path: PathModel, separator: Seq<char>) -> Seq<char>
    decreases path.len(),
{
    if path.len() == 0 {
        Seq::empty()
    } else if path.len() == 1 {
        path[0]
    } else {
        join_segments(path.drop_last(), separator) + separator + path.last()
    }
}

/// The column name of a path: its segments joined by the separator, or the
/// fallback where that text is empty (an empty path, or empty segments only
/// with an empty separator).
pub open spec fn column_name(path: PathModel, separator: Seq<char>, fallback: Seq<char>) -> Seq<
    char,
> {
    let joined = join_segments(path, separator);
    if joined.len() == 0 {
        fallback
    } else {
        joined
    }
}

/// The name under which a frame at this path is collected: its last segment,
/// or the empty text for the empty path.
pub open spec fn terminal_name(path: PathModel) -> Seq<char> {
    if path.len() == 0 {
        Seq::empty()
    } else {
        path.last()
    }
}

/// Whether two paths are equal, segment by segment.
pub fn same_path(a: &JsonPath, b: &JsonPath) -> (r: bool)
    ensures
        r == (a.deep_view() == b.deep_view()),
{
    if a.len() != b.len() {
        assert(a.deep_view().len() != b.deep_view().len());
        return false;
    }
    let mut i: usize = 0;
    while i < a.len()
        invariant
            i <= a.len(),
            a.len() == b.len(),
            forall|j: int| 0 <= j < i ==> a[j]@ == b[j]@,
        decreases a.len() - i,
    {
        if a[i] != b[i] {
            assert(a.deep_view()[i as int] != b.deep_view()[i as int]);
            return false;
        }
        i += 1;
    }
    assert(a.deep_view() =~= b.deep_view());
    true
}

/// Whether a path is one of the given paths.
pub fn contains_path(paths: &Vec<JsonPath>, path: &JsonPath) -> (r: bool)
    ensures
        r == paths.deep_view().contains(path.deep_view()),
{
    let mut i: usize = 0;
    while i < paths.len()
        invariant
            i <= paths.len(),
            forall|j: int| 0 <= j < i ==> paths.deep_view()[j] != path.deep_view(),
        decreases paths.len() - i,
    {
        if same_path(&paths[i], path) {
            assert(paths.deep_view()[i as int] == path.deep_view());
            return true;
        }
        i += 1;
    }
    false
}

/// A copy of a path.
pub fn clone_path(path: &JsonPath) -> (copy: JsonPath)
    ensures
        copy.deep_view() == path.deep_view(),
{
    let mut copy: Vec<String> = Vec::with_capacity(path.len());
    let mut i: usize = 0;
    while i < path.len()
        invariant
            i <= path.len(),
            copy.len() == i,
            forall|j: int| 0 <= j < i ==> copy[j]@ == path[j]@,
        decreases path.len() - i,
    {
        copy.push(path[i].clone());
        i += 1;
    }
    copy
}

/// The name under which a frame at this path is collected.
pub fn last_segment(path: &JsonPath) -> (name: String)
    ensures
        name@ == terminal_name(path.deep_view()),
{
    if path.len() == 0 {
        String::new()
    } else {
        path[path.len() - 1].clone()
    }
}

/// Builds the column name of a path.
pub fn generate_name(path: &JsonPath, separator: &str, fallback: &String) -> (name: String)
    ensures
        name@ == column_name(path.deep_view(), separator@, fallback@),
{
    let mut result = String::new();
    let mut i: usize = 0;
    while i < path.len()
        invariant
            i <= path.len(),
            result@ == join_segments(path.deep_view().take(i as int), separator@),
        decreases path.len() - i,
    {
        if i > 0 {
            result.append(separator);
        }
        result.append(path[i].as_str());
        proof {
            let prefix = path.deep_view().take(i as int + 1);
            assert(prefix.drop_last() =~= path.deep_view().take(i as int));
        }
        i += 1;
    }
    assert(path.deep_view().take(path.len() as int) =~= path.deep_view());
    if result.as_str().is_empty() {
        fallback.clone()
    } else {
        result
    }
}

/// Column names already built, by path.
///
/// A cache serves one separator and one fallback at a time, and every name it
/// holds is the column name of its path under them. A cache is only a
/// shortcut: a name taken from it is the name that [`generate_name`] builds.
pub struct NameCache {
    separator: String,
    fallback: String,
    entries: Vec<(JsonPath, String)>,
}

impl NameCache {
    /// Every cached name is the column name of its path under the separator
    /// and the fallback that the cache serves.
    #[verifier::type_invariant]
    spec fn agrees(&self) -> bool {
        forall|i: int|
            0 <= i < self.entries.len() ==> (#[trigger] self.entries[i]).1@ == column_name(
                self.entries[i].0.deep_view(),
                self.separator@,
                self.fallback@,
            )
    }

    /// An empty cache: it remembers no path, and serves the empty separator
    /// and the empty fallback until it is asked for others.
    pub fn new() -> (cache: NameCache)
        ensures
            forall|path: PathModel| !cache.remembers(path),
            cache.served() == (Seq::<char>::empty(), Seq::<char>::empty()),
    {
        NameCache { separator: String::new(), fallback: String::new(), entries: Vec::new() }
    }

    /// The cached name of a path: a name exactly where the cache remembers
    /// the path, and then the column name of the path under the separator and
    /// the fallback that the cache serves.
    fn find(&self, path: &JsonPath) -> (found: Option<String>)
        ensures
            found is Some <==> self.remembers(path.deep_view()),
            found matches Some(name) ==> name@ == column_name(
                path.deep_view(),
                self.served().0,
                self.served().1,
            ),
    {
        proof {
            use_type_invariant(self);
        }
        let mut i: usize = 0;
        while i < self.entries.len()
            invariant
                i <= self.entries.len(),
                self.agrees(),
                forall|j: int|
                    0 <= j < i ==> (#[trigger] self.entries[j]).0.deep_view() != path.deep_view(),
            decreases self.entries.len() - i,
        {
            if same_path(&self.entries[i].0, path) {
                assert(self.entries[i as int].0.deep_view() == path.deep_view());
                return Some(self.entries[i].1.clone());
            }
            i += 1;
        }
        None
    }

    /// Whether the cache holds a name for this path.
    pub closed spec fn remembers(&self, path: PathModel) -> bool {
        exists|i: int|
            0 <= i < self.entries.len() && (#[trigger] self.entries[i]).0.deep_view() == path
    }

    /// The separator and the fallback that the cache serves.
    pub closed spec fn served(&self) -> (Seq<char>, Seq<char>) {
        (self.separator@, self.fallback@)
    }
}

/// Looks up the column name of a path, or builds it and remembers it. The
/// name is the one that [`generate_name`] builds, whether it was found or
/// built. A cache that served another separator or fallback is emptied first.
pub fn cached_name(
    path: &JsonPath,
    separator: &String,
    fallback: &String,
    cache: &mut NameCache,
) -> (name: String)
    ensures
        name@ == column_name(path.deep_view(), separator@, fallback@),
{
    if cache.separator != *separator || cache.fallback != *fallback {
        *cache = NameCache {
            separator: separator.clone(),
            fallback: fallback.clone(),
            entries: Vec::new(),
        };
    }
    match cache.find(path) {
        Some(name) => name,
        None => {
            let name = generate_name(path, separator.as_str(), fallback);
            let mut taken = NameCache::new();
            std::mem::swap(cache, &mut taken);
            proof {
                use_type_invariant(&taken);
            }
            let NameCache { separator: served, fallback: spare, entries: mut entries } = taken;
            entries.push((clone_path(path), name.clone()));
            *cache = NameCache { separator: served, fallback: spare, entries };
            name
        },
    }
}

} // verus!
