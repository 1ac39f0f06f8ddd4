//! The decision of the label watcher: whether a batch of filesystem
//! events touches one of the watched inputs. Paths are canonical and
//! `/`-separated, as the watcher hands them over.
use vstd::prelude::*;
use crate::strings::{chars_of, has_prefix, same_chars, starts_with, strings_view};

verus! {

/// Whether `path` is `directory` or lies below it, component by component.
pub open spec fn within(path: Seq<char>, directory: Seq<char>) -> bool {
    path == directory || (has_prefix(path, directory) && (
    (directory.len() > 0 && directory.last() == '/') || (path.len() > directory.len()
        && path[directory.len() as int] == '/')))
}

/// Whether one changed path concerns the watch: it is not an output of the
/// watcher itself, and it is a watched file or lies in a watched directory.
pub open spec fn path_relevant(
    path: Seq<char>,
    files: Seq<Seq<char>>,
    directories: Seq<Seq<char>>,
    ignored: Seq<Seq<char>>,
) -> bool {
    &&& !ignored.contains(path)
    &&& (files.contains(path) || exists|d: int|
        0 <= d < directories.len() && #[trigger] within(path, directories[d]))
}

/// Whether an event is relevant: it is no mere access, and one of its
/// paths concerns the watch.
pub open spec fn event_relevant(
    is_access: bool,
    paths: Seq<Seq<char>>,
    files: Seq<Seq<char>>,
    directories: Seq<Seq<char>>,
    ignored: Seq<Seq<char>>,
) -> bool {
    !is_access && exists|i: int|
        0 <= i < paths.len() && #[trigger] path_relevant(paths[i], files, directories, ignored)
}

/// Whether `list` holds `path`.
fn holds(list: &Vec<String>, path: &Vec<char>) -> (r: bool)
    ensures
        r == strings_view(list@).contains(path@),
{
    let ghost all = strings_view(list@);
    let mut i: usize = 0;
    while i < list.len()
        invariant
            i <= list.len(),
            all == strings_view(list@),
            forall|j: int| 0 <= j < i ==> all[j] != path@,
        decreases list.len() - i,
    {
        if same_chars(&chars_of(list[i].as_str()), path) {
            assert(all[i as int] == path@);
            return true;
        }
        i = i + 1;
    }
    false
}

/// Whether `path` lies in `directory` (or is it).
fn lies_within(path: &str, directory: &str) -> (r: bool)
    ensures
        r == within(path@, directory@),
{
    if !starts_with(path, directory) {
        assert(path@.take(path@.len() as int) =~= path@);
        return false;
    }
    let p = chars_of(path);
    let d = chars_of(directory);
    if p.len() == d.len() {
        assert(p@ =~= p@.take(d@.len() as int));
        return true;
    }
    if d.len() > 0 && d[d.len() - 1] == '/' {
        return true;
    }
    if p[d.len()] == '/' {
        return true;
    }
    assert(p@ != d@);
    false
}

/// Whether one changed path concerns the watch.
fn concerns(path: &str, files: &Vec<String>, directories: &Vec<String>, ignored: &Vec<String>) -> (r:
    bool)
    ensures
        r == path_relevant(path@, strings_view(files@), strings_view(directories@), strings_view(
            ignored@,
        )),
{
    let p = chars_of(path);
    if holds(ignored, &p) {
        return false;
    }
    if holds(files, &p) {
        return true;
    }
    let ghost dirs = strings_view(directories@);
    let mut d: usize = 0;
    while d < directories.len()
        invariant
            d <= directories.len(),
            dirs == strings_view(directories@),
            !strings_view(ignored@).contains(path@),
            forall|k: int| 0 <= k < d ==> !#[trigger] within(path@, dirs[k]),
        decreases directories.len() - d,
    {
        if lies_within(path, directories[d].as_str()) {
            assert(within(path@, dirs[d as int]));
            return true;
        }
        d = d + 1;
    }
    false
}

/// Whether a filesystem event should trigger a rebuild: `is_access` tells
/// a mere read apart; `paths` are the event's canonical paths, `files` and
/// `directories` the watched inputs, `ignored` the watcher's own outputs.
pub fn event_is_relevant(
    is_access: bool,
    paths: &Vec<String>,
    files: &Vec<String>,
    directories: &Vec<String>,
    ignored: &Vec<String>,
) -> (r: bool)
    ensures
        r == event_relevant(
            is_access,
            strings_view(paths@),
            strings_view(files@),
            strings_view(directories@),
            strings_view(ignored@),
        ),
{
    if is_access {
        return false;
    }
    let ghost all = strings_view(paths@);
    let mut i: usize = 0;
    while i < paths.len()
        invariant
            i <= paths.len(),
            !is_access,
            all == strings_view(paths@),
            forall|k: int|
                0 <= k < i ==> !#[trigger] path_relevant(
                    all[k],
                    strings_view(files@),
                    strings_view(directories@),
                    strings_view(ignored@),
                ),
        decreases paths.len() - i,
    {
        if concerns(paths[i].as_str(), files, directories, ignored) {
            assert(path_relevant(
                all[i as int],
                strings_view(files@),
                strings_view(directories@),
                strings_view(ignored@),
            ));
            return true;
        }
        i = i + 1;
    }
    false
}

} // verus!
