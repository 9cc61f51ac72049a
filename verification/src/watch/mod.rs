use vstd::prelude::*;

verus! {

/// A debounced file-system event, with its paths as strings.
pub enum WatchEvent {
    NoticeWrite(String),
    NoticeRemove(String),
    Create(String),
    Write(String),
    Chmod(String),
    Remove(String),
    Rename(String, String),
    Rescan,
    Error(String, Option<String>),
}

/// The path that an event is about: the first path of a rename, none for a
/// rescan or an error.
pub open spec fn event_path(e: &WatchEvent) -> Option<Seq<char>> {
    match e {
        WatchEvent::NoticeWrite(p) => Some(p@),
        WatchEvent::NoticeRemove(p) => Some(p@),
        WatchEvent::Create(p) => Some(p@),
        WatchEvent::Write(p) => Some(p@),
        WatchEvent::Chmod(p) => Some(p@),
        WatchEvent::Remove(p) => Some(p@),
        WatchEvent::Rename(p, _) => Some(p@),
        WatchEvent::Rescan => None,
        WatchEvent::Error(..) => None,
    }
}

/// The path of an event, if it has one.
pub fn path_from_event(e: &WatchEvent) -> (r: Option<String>)
    ensures
        r matches Some(p) ==> event_path(e) == Some(p@),
        r is None ==> event_path(e) is None,
{
    match e {
        WatchEvent::NoticeWrite(p)
        | WatchEvent::NoticeRemove(p)
        | WatchEvent::Create(p)
        | WatchEvent::Write(p)
        | WatchEvent::Chmod(p)
        | WatchEvent::Remove(p)
        | WatchEvent::Rename(p, _) => Some(p.clone()),
        _ => None,
    }
}

/// The parent of a path, as `std::path::Path::parent` computes it: the path
/// without its final component, none for a root or the empty path.
pub uninterp spec fn path_parent(p: Seq<char>) -> Option<Seq<char>>;

/// `std::path::Path::parent`, on a path given as a string. The parent is
/// the path without its final component, so it is a shorter prefix of it.
#[verifier::external_body]
fn parent_of(p: &str) -> (r: Option<String>)
    ensures
        r matches Some(q) ==> path_parent(p@) == Some(q@) && q@.len() < p@.len() && q@ == p@.take(q@.len() as int),
        r is None ==> path_parent(p@) is None,
{
    match std::path::Path::new(p).parent() {
        Some(q) => Some(q.to_string_lossy().into_owned()),
        None => None,
    }
}

/// Whether two paths, given as strings, name the same path: what `==` on
/// `std::path::Path` computes, comparing them component by component.
pub uninterp spec fn path_equal(a: Seq<char>, b: Seq<char>) -> bool;

/// `std::path::Path`'s `==`, on two paths given as strings. Its result is
/// named by `path_equal`; two equal strings name the same path.
#[verifier::external_body]
fn same_path(a: &str, b: &str) -> (r: bool)
    ensures
        r == path_equal(a@, b@),
        a@ == b@ ==> r,
{
    std::path::Path::new(a) == std::path::Path::new(b)
}

/// The first of the watched paths, from index `i` on, that names the same
/// path as `p`.
pub open spec fn first_match_from(p: Seq<char>, watched: Seq<Seq<char>>, i: int) -> Option<Seq<char>>
    decreases watched.len() - i,
{
    if i < 0 || i >= watched.len() {
        None
    } else if path_equal(watched[i], p) {
        Some(watched[i])
    } else {
        first_match_from(p, watched, i + 1)
    }
}

/// The first of the watched paths that names the same path as `p`.
pub open spec fn first_match(p: Seq<char>, watched: Seq<Seq<char>>) -> Option<Seq<char>> {
    first_match_from(p, watched, 0)
}

/// The watched path that answers for `p`: the one that names `p` itself,
/// else the one that answers for its parent.
pub open spec fn nearest_watched(p: Seq<char>, watched: Seq<Seq<char>>) -> Option<Seq<char>>
    decreases p.len(),
{
    match first_match(p, watched) {
        Some(h) => Some(h),
        None => match path_parent(p) {
            Some(q) => if q.len() < p.len() && q == p.take(q.len() as int) {
                nearest_watched(q, watched)
            } else {
                None
            },
            None => None,
        },
    }
}

/// The first watched path that names the same path as `p`.
fn watched_match(p: &String, watched: &Vec<String>) -> (r: Option<String>)
    ensures
        r matches Some(h) ==> first_match(p@, watched.deep_view()) == Some(h@),
        r is None ==> first_match(p@, watched.deep_view()) is None,
{
    let mut i: usize = 0;
    while i < watched.len()
        invariant
            i <= watched.len(),
            first_match(p@, watched.deep_view()) == first_match_from(p@, watched.deep_view(), i as int),
        decreases watched.len() - i,
    {
        if same_path(watched[i].as_str(), p.as_str()) {
            return Some(watched[i].clone());
        }
        i = i + 1;
    }
    None
}

/// The watched path whose handler answers for `path`: the watched path
/// that names the path itself, else the one that answers for its nearest
/// ancestor that some watched path names.
pub fn find_handler(path: String, watched: &Vec<String>) -> (r: Option<String>)
    ensures
        r matches Some(h) ==> nearest_watched(path@, watched.deep_view()) == Some(h@),
        r is None ==> nearest_watched(path@, watched.deep_view()) is None,
{
    let mut cur = path;
    loop
        invariant
            nearest_watched(cur@, watched.deep_view()) == nearest_watched(path@, watched.deep_view()),
        decreases cur@.len(),
    {
        match watched_match(&cur, watched) {
            Some(h) => {
                return Some(h);
            },
            None => {},
        }
        match parent_of(cur.as_str()) {
            Some(q) => {
                cur = q;
            },
            None => {
                return None;
            },
        }
    }
}

/// The watched path whose handler answers for the event `e`.
pub fn handler_for_event(e: &WatchEvent, watched: &Vec<String>) -> (r: Option<String>)
    ensures
        event_path(e) is None ==> r is None,
        event_path(e) matches Some(p) ==> match nearest_watched(p, watched.deep_view()) {
            Some(h) => r matches Some(k) && k@ == h,
            None => r is None,
        },
{
    match path_from_event(e) {
        Some(p) => find_handler(p, watched),
        None => None,
    }
}

} // verus!
