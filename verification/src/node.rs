//! Finding the Node runtime the speech sidecar runs on.
//!
//! An application opened from a launcher inherits the launcher's environment,
//! not the one a terminal would give it, so a perfectly good install can be
//! invisible on `PATH`. The places worth looking in are looked in, best guess
//! first; what is made of what was found there is decided here.

use crate::order::{is_order, lemma_sorted, sort, sorted, views};
use crate::text::{
    chars_list, chars_of, comes_before, decimal, is_char, is_digit, lemma_decimal,
    lemma_precedes_order, lemma_precedes_total, lemma_prefix_step, lemma_split_on_one,
    lemma_split_on_piece, lemma_trimmed_already, parse_u32, precedes, push_decimal, push_text,
    same_text, split_at_char, split_on, texts, trim_front, trim_start_char, trim_text, trimmed,
    unsigned_value, whitespace,
};
use crate::update::{is_newer, law_versions_are_ordered, newer_than};
use vstd::prelude::*;

verus! {

/// The oldest release still receiving security fixes when this was written.
pub const MINIMUM_MAJOR: u32 = 20;

#[derive(Debug, PartialEq, Eq)]
pub struct NodeRuntime {
    pub path: String,
    /// As reported, e.g. "v22.11.0".
    pub version: String,
    pub major: u32,
}

/// A runtime as contracts speak of it.
pub struct Runtime {
    pub path: Seq<char>,
    pub version: Seq<char>,
    pub major: u32,
}

impl View for NodeRuntime {
    type V = Runtime;

    open spec fn view(&self) -> Runtime {
        Runtime { path: self.path@, version: self.version@, major: self.major }
    }
}

pub open spec fn runtimes(list: Seq<NodeRuntime>) -> Seq<Runtime> {
    list.map_values(|n: NodeRuntime| n@)
}

impl Clone for NodeRuntime {
    fn clone(&self) -> (r: Self)
        ensures
            r@ == self@,
    {
        NodeRuntime { path: self.path.clone(), version: self.version.clone(), major: self.major }
    }
}

/// What the settings screen shows, and why starting failed if it did.
#[derive(Debug, PartialEq, Eq)]
pub struct NodeStatus {
    pub found: bool,
    pub path: Option<String>,
    pub version: Option<String>,
    /// Node is installed but predates what the sidecar needs.
    pub too_old: bool,
    pub minimum: u32,
}

/// A status as contracts speak of it.
pub struct Standing {
    pub found: bool,
    pub path: Option<Seq<char>>,
    pub version: Option<Seq<char>>,
    pub too_old: bool,
    pub minimum: u32,
}

pub open spec fn seen(text: Option<String>) -> Option<Seq<char>> {
    match text {
        Some(text) => Some(text@),
        None => None,
    }
}

impl View for NodeStatus {
    type V = Standing;

    open spec fn view(&self) -> Standing {
        Standing {
            found: self.found,
            path: seen(self.path),
            version: seen(self.version),
            too_old: self.too_old,
            minimum: self.minimum,
        }
    }
}

pub open spec fn not_there() -> Standing {
    Standing { found: false, path: None, version: None, too_old: false, minimum: MINIMUM_MAJOR }
}

impl NodeStatus {
    pub fn missing() -> (r: Self)
        ensures
            r@ == not_there(),
    {
        NodeStatus {
            found: false,
            path: None,
            version: None,
            too_old: false,
            minimum: MINIMUM_MAJOR,
        }
    }
}

/// The major version a report names: what stands before the first dot, without
/// the mark in front. Anything unrecognisable is no answer at all.
pub open spec fn major_in(reported: Seq<char>) -> Option<int> {
    unsigned_value(
        split_on(trim_front(trimmed(reported), is_char('v')), '.')[0],
        u32::MAX as int,
    )
}

/// "v22.11.0" gives 22. Anything unrecognisable is no answer at all rather than
/// guessed at.
pub fn major_version(reported: &str) -> (r: Option<u32>)
    ensures
        match major_in(reported@) {
            Some(major) => r == Some(major as u32) && 0 <= major <= u32::MAX,
            None => r is None,
        },
{
    let bare: String = trim_start_char(trim_text(reported).as_str(), 'v');
    let parts: Vec<Vec<char>> = split_at_char(chars_of(bare.as_str()).as_slice(), '.');
    assert(chars_list(parts@)[0] == parts@[0]@);
    parse_u32(parts[0].as_slice())
}

/// What a candidate that was asked for its version is.
pub open spec fn answer_of(path: Seq<char>, success: bool, printed: Seq<char>) -> Option<Runtime> {
    match major_in(trimmed(printed)) {
        Some(major) if success => Some(
            Runtime { path, version: trimmed(printed), major: major as u32 },
        ),
        _ => None,
    }
}

/// What a candidate is, given how it ended when it was asked for its version
/// and what it printed.
pub fn interrogated(path: &str, success: bool, printed: &str) -> (r: Option<NodeRuntime>)
    ensures
        match answer_of(path@, success, printed@) {
            Some(runtime) => r matches Some(node) && node@ == runtime,
            None => r is None,
        },
{
    if !success {
        return None;
    }
    let version: String = trim_text(printed);
    match major_version(version.as_str()) {
        Some(major) => Some(NodeRuntime { path: path.to_owned(), version, major }),
        None => None,
    }
}

// ------------------------------------------------------------------- looking

/// What the runtime is called.
pub open spec fn executable(windows: bool) -> Seq<char> {
    if windows {
        "node.exe"@
    } else {
        "node"@
    }
}

/// Where version managers keep their runtimes, below the home directory.
pub open spec fn manager_dirs() -> Seq<Seq<char>> {
    seq![
        ".nvm/versions/node"@,
        ".local/share/fnm/node-versions"@,
        ".volta/tools/image/node"@,
    ]
}

/// Where version managers keep their runtimes, below the home directory.
pub fn managers() -> (r: Vec<&'static str>)
    ensures
        r@.map_values(|dir: &'static str| dir@) == manager_dirs(),
{
    let dirs: Vec<&'static str> = vec![
        ".nvm/versions/node",
        ".local/share/fnm/node-versions",
        ".volta/tools/image/node",
    ];
    assert(dirs@.map_values(|dir: &'static str| dir@) =~= manager_dirs());
    dirs
}

/// What a version manager has: its directory, and the names in it.
#[derive(Debug, PartialEq, Eq)]
pub struct Managed {
    pub root: String,
    pub versions: Vec<String>,
}

/// Places as contracts speak of them: each is the parts of a path, to be joined
/// the way the machine joins them.
pub open spec fn routes(places: Seq<Vec<String>>) -> Seq<Seq<Seq<char>>> {
    places.map_values(|place: Vec<String>| texts(place@))
}

/// The version a directory is named for: without the mark in front.
pub open spec fn version_named(name: Seq<char>) -> Seq<char> {
    trim_front(name, is_char('v'))
}

/// Whether one directory's version is an older one than another's, compared as
/// numbers, because "v9.11.2" sorts after "v20.1.0" alphabetically. Names of the
/// same version are told apart by their letters.
pub open spec fn is_older(a: Seq<char>, b: Seq<char>) -> bool {
    ||| is_newer(version_named(b), version_named(a))
    ||| !is_newer(version_named(a), version_named(b)) && precedes(a, b)
}

pub open spec fn older_first() -> spec_fn(Seq<char>, Seq<char>) -> bool {
    |a: Seq<char>, b: Seq<char>| is_older(a, b)
}

/// The names of some versions, the newest first.
pub open spec fn newest_first(names: Seq<Seq<char>>) -> Seq<Seq<char>> {
    sorted(names, older_first()).reverse()
}

/// The places in some directories.
pub open spec fn directly_in(dirs: Seq<Seq<char>>, exe: Seq<char>) -> Seq<Seq<Seq<char>>> {
    dirs.map_values(|dir: Seq<char>| seq![dir, exe])
}

/// Where installers put it: below the given roots on Windows, and elsewhere in
/// the usual directories, Homebrew's first.
pub open spec fn usual_places(windows: bool, roots: Seq<Seq<char>>) -> Seq<Seq<Seq<char>>> {
    if windows {
        roots.map_values(|root: Seq<char>| seq![root, "nodejs"@, executable(windows)])
    } else {
        directly_in(
            seq!["/opt/homebrew/bin"@, "/usr/local/bin"@, "/usr/bin"@, "/opt/local/bin"@],
            executable(windows),
        )
    }
}

/// The places of some versions: each may keep it one level deeper.
pub open spec fn version_places(root: Seq<char>, names: Seq<Seq<char>>, exe: Seq<char>) -> Seq<
    Seq<Seq<char>>,
>
    decreases names.len(),
{
    if names.len() == 0 {
        Seq::empty()
    } else {
        version_places(root, names.drop_last(), exe) + seq![
            seq![root, names.last(), "bin"@, exe],
            seq![root, names.last(), "installation"@, "bin"@, exe],
        ]
    }
}

/// The places of version managers, each one's newest version first.
pub open spec fn managed_places(managed: Seq<Managed>, exe: Seq<char>) -> Seq<Seq<Seq<char>>>
    decreases managed.len(),
{
    if managed.len() == 0 {
        Seq::empty()
    } else {
        let last = managed.last();
        managed_places(managed.drop_last(), exe) + version_places(
            last.root@,
            newest_first(texts(last.versions@)),
            exe,
        )
    }
}

/// Everywhere worth looking, best guess first: what a shell would find, then
/// the installers, then the version managers.
pub open spec fn search(
    windows: bool,
    path: Seq<Seq<char>>,
    roots: Seq<Seq<char>>,
    managed: Seq<Managed>,
) -> Seq<Seq<Seq<char>>> {
    directly_in(path, executable(windows)) + usual_places(windows, roots) + managed_places(
        managed,
        executable(windows),
    )
}

fn push_place(out: &mut Vec<Vec<String>>, parts: &[&str])
    ensures
        routes(final(out)@) == routes(old(out)@).push(parts@.map_values(|part: &str| part@)),
{
    let ghost wanted = parts@.map_values(|part: &str| part@);
    let mut place: Vec<String> = Vec::new();
    let mut i: usize = 0;
    assert(texts(place@) =~= wanted.take(0));
    while i < parts.len()
        invariant
            i <= parts.len(),
            wanted == parts@.map_values(|part: &str| part@),
            texts(place@) == wanted.take(i as int),
        decreases parts.len() - i,
    {
        push_text(&mut place, parts[i].to_owned());
        i += 1;
        assert(texts(place@) =~= wanted.take(i as int));
    }
    assert(wanted.take(i as int) =~= wanted);
    out.push(place);
    assert(routes(out@) =~= routes(old(out)@).push(wanted));
}

fn older(a: &str, b: &str) -> (r: bool)
    ensures
        r == is_older(a@, b@),
{
    let first: String = trim_start_char(a, 'v');
    let second: String = trim_start_char(b, 'v');
    newer_than(second.as_str(), first.as_str()) || (!newer_than(first.as_str(), second.as_str())
        && comes_before(chars_of(a).as_slice(), chars_of(b).as_slice()))
}

fn push_versions(out: &mut Vec<Vec<String>>, root: &str, names: Vec<String>, exe: &str)
    ensures
        routes(final(out)@) == routes(old(out)@) + version_places(
            root@,
            newest_first(texts(names@)),
            exe@,
        ),
{
    let ghost before = routes(out@);
    let ghost given = texts(names@);
    assert(views(names@) =~= given);
    let precedes_it = |a: &String, b: &String| -> (r: bool)
        ensures
            r == is_older(a@, b@),
        { older(a.as_str(), b.as_str()) };
    let ascending: Vec<String> = sort(names, precedes_it, Ghost(older_first()));
    let ghost newest = newest_first(given);
    assert(views(ascending@) =~= texts(ascending@));
    assert(newest.len() == ascending@.len());
    let mut left: usize = ascending.len();
    assert(newest.take(0) =~= Seq::empty());
    assert(routes(out@) =~= before + version_places(root@, newest.take(0), exe@));
    while left > 0
        invariant
            left <= ascending.len(),
            newest.len() == ascending@.len(),
            newest == texts(ascending@).reverse(),
            routes(out@) == before + version_places(root@, newest.take(ascending.len() - left), exe@),
        decreases left,
    {
        let name: &str = ascending[left - 1].as_str();
        let ghost so_far = routes(out@);
        push_place(out, &[root, name, "bin", exe]);
        push_place(out, &[root, name, "installation", "bin", exe]);
        proof {
            let done = ascending.len() - left;
            lemma_prefix_step(newest, done);
            assert(newest[done] == name@);
            let two = seq![
                seq![root@, name@, "bin"@, exe@],
                seq![root@, name@, "installation"@, "bin"@, exe@],
            ];
            assert([root, name, "bin", exe]@.map_values(|part: &str| part@) =~= two[0]);
            assert([root, name, "installation", "bin", exe]@.map_values(|part: &str| part@)
                =~= two[1]);
            assert(routes(out@) =~= so_far + two);
            assert(routes(out@) =~= before + version_places(root@, newest.take(done + 1), exe@));
        }
        left -= 1;
    }
    assert(newest.take(newest.len() as int) =~= newest);
}

proof fn lemma_older_is_order()
    ensures
        is_order(older_first()),
{
    let before = older_first();
    assert forall|a: Seq<char>, b: Seq<char>| #[trigger] before(a, b) implies !before(b, a) by {
        law_versions_are_ordered(version_named(a), version_named(b), version_named(a));
        lemma_precedes_total(a, b);
    }
    assert forall|a: Seq<char>, b: Seq<char>, c: Seq<char>|
        !(#[trigger] before(a, b)) && !(#[trigger] before(b, c)) implies !before(a, c) by {
        let (x, y, z) = (version_named(a), version_named(b), version_named(c));
        law_versions_are_ordered(x, y, z);
        law_versions_are_ordered(z, y, x);
        law_versions_are_ordered(y, z, x);
        law_versions_are_ordered(z, x, y);
        law_versions_are_ordered(x, z, y);
        law_versions_are_ordered(y, x, z);
        if !precedes(a, b) && !precedes(b, c) {
            lemma_precedes_order(a, b, c);
        }
    }
}

/// No version is looked in before a newer one of the same manager, and those
/// looked in are those that the manager has.
pub proof fn law_the_newest_version_is_looked_in_first(names: Seq<Seq<char>>)
    ensures
        newest_first(names).len() == names.len(),
        forall|name: Seq<char>|
            newest_first(names).contains(name) <==> #[trigger] names.contains(name),
        forall|i: int, j: int|
            0 <= i < j < names.len() ==> !is_newer(
                version_named(#[trigger] newest_first(names)[j]),
                version_named(#[trigger] newest_first(names)[i]),
            ),
{
    broadcast use vstd::seq_lib::group_to_multiset_ensures;

    lemma_older_is_order();
    lemma_sorted(names, older_first());
    let ascending = sorted(names, older_first());
    let last = names.len() - 1;
    assert forall|name: Seq<char>|
        newest_first(names).contains(name) <==> #[trigger] names.contains(name) by {
        assert(ascending.contains(name) <==> ascending.to_multiset().count(name) > 0);
        assert(names.contains(name) <==> names.to_multiset().count(name) > 0);
        if newest_first(names).contains(name) {
            let at = newest_first(names).index_of(name);
            assert(ascending[last - at] == name);
        }
        if ascending.contains(name) {
            let at = ascending.index_of(name);
            assert(newest_first(names)[last - at] == name);
        }
    }
    assert forall|i: int, j: int| 0 <= i < j < names.len() implies !is_newer(
        version_named(#[trigger] newest_first(names)[j]),
        version_named(#[trigger] newest_first(names)[i]),
    ) by {
        assert(newest_first(names)[i] == ascending[last - i]);
        assert(newest_first(names)[j] == ascending[last - j]);
        assert(!older_first()(ascending[last - i], ascending[last - j]));
    }
}

/// Everywhere worth looking, best guess first. `path` is the directories a shell
/// would look in, `roots` where programs are installed on Windows, and `managed`
/// what the version managers have.
pub fn places(
    windows: bool,
    path: &[String],
    roots: &[String],
    managed: Vec<Managed>,
) -> (r: Vec<Vec<String>>)
    ensures
        routes(r@) == search(windows, texts(path@), texts(roots@), managed@),
{
    let exe: &'static str = if windows {
        "node.exe"
    } else {
        "node"
    };
    let mut out: Vec<Vec<String>> = Vec::new();
    let ghost first = directly_in(texts(path@), exe@);
    let mut i: usize = 0;
    assert(routes(out@) =~= first.take(0));
    while i < path.len()
        invariant
            i <= path.len(),
            first == directly_in(texts(path@), exe@),
            routes(out@) == first.take(i as int),
        decreases path.len() - i,
    {
        let dir: &str = path[i].as_str();
        push_place(&mut out, &[dir, exe]);
        assert([dir, exe]@.map_values(|part: &str| part@) =~= seq![dir@, exe@]);
        i += 1;
        assert(first.take(i as int) =~= first.take(i - 1).push(seq![dir@, exe@]));
    }
    assert(first.take(i as int) =~= first);
    let ghost second = usual_places(windows, texts(roots@));
    if windows {
        let mut k: usize = 0;
        assert(routes(out@) =~= first + second.take(0));
        while k < roots.len()
            invariant
                windows,
                exe@ == executable(windows),
                k <= roots.len(),
                second == usual_places(windows, texts(roots@)),
                routes(out@) == first + second.take(k as int),
            decreases roots.len() - k,
        {
            let root: &str = roots[k].as_str();
            push_place(&mut out, &[root, "nodejs", exe]);
            assert([root, "nodejs", exe]@.map_values(|part: &str| part@) =~= seq![
                root@,
                "nodejs"@,
                exe@,
            ]);
            k += 1;
            assert(second.take(k as int) =~= second.take(k - 1).push(
                seq![root@, "nodejs"@, exe@],
            ));
            assert(routes(out@) =~= first + second.take(k as int));
        }
        assert(second.take(k as int) =~= second);
    } else {
        push_place(&mut out, &["/opt/homebrew/bin", exe]);
        push_place(&mut out, &["/usr/local/bin", exe]);
        push_place(&mut out, &["/usr/bin", exe]);
        push_place(&mut out, &["/opt/local/bin", exe]);
        proof {
            assert(["/opt/homebrew/bin", exe]@.map_values(|part: &str| part@) =~= second[0]);
            assert(["/usr/local/bin", exe]@.map_values(|part: &str| part@) =~= second[1]);
            assert(["/usr/bin", exe]@.map_values(|part: &str| part@) =~= second[2]);
            assert(["/opt/local/bin", exe]@.map_values(|part: &str| part@) =~= second[3]);
            assert(routes(out@) =~= first + second);
        }
    }
    let ghost all = managed@;
    assert(all.take(0) =~= Seq::empty());
    assert(routes(out@) =~= first + second + managed_places(all.take(0), exe@));
    for one in it: managed
        invariant
            all == it.seq(),
            routes(out@) == first + second + managed_places(all.take(it.index() as int), exe@),
    {
        let ghost so_far = routes(out@);
        proof {
            lemma_prefix_step(all, it.index() as int);
        }
        push_versions(&mut out, one.root.as_str(), one.versions, exe);
        assert(routes(out@) =~= first + second + managed_places(
            all.take(it.index() as int + 1),
            exe@,
        ));
    }
    assert(all.take(all.len() as int) =~= all);
    out
}

/// The search looks beyond `PATH`: an application opened from a launcher has the
/// launcher's, so the usual directories are looked in whatever it holds. And
/// `PATH` wins when it is there: its places come before every other.
pub proof fn law_the_search_looks_beyond_path(
    path: Seq<Seq<char>>,
    roots: Seq<Seq<char>>,
    managed: Seq<Managed>,
    i: int,
)
    requires
        0 <= i < 4,
    ensures
        search(false, path, roots, managed).contains(usual_places(false, roots)[i]),
        search(false, path, roots, managed).take(path.len() as int) == directly_in(path, "node"@),
{
    let all = search(false, path, roots, managed);
    assert(all[path.len() + i] == usual_places(false, roots)[i]);
    assert(all.take(path.len() as int) =~= directly_in(path, "node"@));
}

/// The places worth asking among those looked at: each is a path and whether a
/// file is there. No place is asked twice.
pub open spec fn worth_asking(looked: Seq<(String, bool)>) -> Seq<Seq<char>>
    decreases looked.len(),
{
    if looked.len() == 0 {
        Seq::empty()
    } else {
        let before = worth_asking(looked.drop_last());
        let (path, is_file) = looked.last();
        if is_file && !before.contains(path@) {
            before.push(path@)
        } else {
            before
        }
    }
}

fn holds(list: &Vec<String>, wanted: &str) -> (r: bool)
    ensures
        r == texts(list@).contains(wanted@),
{
    let ghost all = texts(list@);
    let mut i: usize = 0;
    while i < list.len()
        invariant
            i <= list.len(),
            all == texts(list@),
            forall|k: int| 0 <= k < i ==> #[trigger] all[k] != wanted@,
        decreases list.len() - i,
    {
        assert(all[i as int] == list@[i as int]@);
        if same_text(list[i].as_str(), wanted) {
            return true;
        }
        i += 1;
    }
    false
}

/// The places worth asking among those looked at, in the order they were looked
/// at.
pub fn candidates(looked: &[(String, bool)]) -> (r: Vec<String>)
    ensures
        texts(r@) == worth_asking(looked@),
{
    let mut out: Vec<String> = Vec::new();
    let mut i: usize = 0;
    assert(texts(out@) =~= worth_asking(looked@.take(0)));
    while i < looked.len()
        invariant
            i <= looked.len(),
            texts(out@) == worth_asking(looked@.take(i as int)),
        decreases looked.len() - i,
    {
        proof {
            lemma_prefix_step(looked@, i as int);
        }
        if looked[i].1 && !holds(&out, looked[i].0.as_str()) {
            push_text(&mut out, looked[i].0.clone());
        }
        i += 1;
    }
    assert(looked@.take(looked@.len() as int) =~= looked@);
    out
}

/// The first runtime that is new enough, from the `i`th on.
pub open spec fn first_usable(found: Seq<Runtime>, i: int) -> Option<Runtime>
    decreases found.len() - i,
{
    if i < 0 || i >= found.len() {
        None
    } else if found[i].major >= MINIMUM_MAJOR {
        Some(found[i])
    } else {
        first_usable(found, i + 1)
    }
}

/// The runtime to use among those found, or nothing if none is suitable. One
/// that is too old is not returned: running on it would fail later and less
/// clearly than saying so now.
pub fn find(found: &[NodeRuntime]) -> (r: Option<NodeRuntime>)
    ensures
        match first_usable(runtimes(found@), 0) {
            Some(runtime) => r matches Some(node) && node@ == runtime,
            None => r is None,
        },
{
    let ghost all = runtimes(found@);
    let mut i: usize = 0;
    while i < found.len()
        invariant
            i <= found.len(),
            all == runtimes(found@),
            first_usable(all, 0) == first_usable(all, i as int),
        decreases found.len() - i,
    {
        assert(all[i as int] == found@[i as int]@);
        if found[i].major >= MINIMUM_MAJOR {
            return Some(found[i].clone());
        }
        i += 1;
    }
    None
}

/// What to show of the runtimes found: the one to use, or else the first one
/// that is too old, or else that there is none.
pub open spec fn standing(found: Seq<Runtime>) -> Standing {
    match first_usable(found, 0) {
        Some(runtime) => Standing {
            found: true,
            path: Some(runtime.path),
            version: Some(runtime.version),
            too_old: false,
            minimum: MINIMUM_MAJOR,
        },
        None => if found.len() > 0 {
            Standing {
                found: false,
                path: Some(found[0].path),
                version: Some(found[0].version),
                too_old: true,
                minimum: MINIMUM_MAJOR,
            }
        } else {
            not_there()
        },
    }
}

/// What to show the operator, including the awkward middle case where Node is
/// installed but too old to use.
pub fn status(found: &[NodeRuntime]) -> (r: NodeStatus)
    ensures
        r@ == standing(runtimes(found@)),
{
    match find(found) {
        Some(node) => NodeStatus {
            found: true,
            path: Some(node.path),
            version: Some(node.version),
            too_old: false,
            minimum: MINIMUM_MAJOR,
        },
        None => if found.len() > 0 {
            assert(runtimes(found@)[0] == found@[0]@);
            NodeStatus {
                found: false,
                path: Some(found[0].path.clone()),
                version: Some(found[0].version.clone()),
                too_old: true,
                minimum: MINIMUM_MAJOR,
            }
        } else {
            NodeStatus::missing()
        },
    }
}

/// What is looked for and what is shown agree: something is shown as found
/// exactly where there is something to use, and it is that.
pub proof fn law_finding_and_showing_agree(found: Seq<Runtime>)
    ensures
        standing(found).found <==> first_usable(found, 0) is Some,
        first_usable(found, 0) matches Some(runtime) ==> runtime.major >= MINIMUM_MAJOR && standing(
            found,
        ).path == Some(runtime.path) && standing(found).version == Some(runtime.version),
{
    lemma_first_usable(found, 0);
}

proof fn lemma_first_usable(found: Seq<Runtime>, i: int)
    requires
        0 <= i,
    ensures
        first_usable(found, i) matches Some(runtime) ==> runtime.major >= MINIMUM_MAJOR,
    decreases found.len() - i,
{
    if i < found.len() {
        lemma_first_usable(found, i + 1);
    }
}

/// What the operator is told of a machine without a usable runtime.
pub open spec fn explained(status: Standing) -> Seq<char> {
    let minimum = decimal(MINIMUM_MAJOR as nat);
    if status.too_old {
        "FATAL: Live transcription needs Node "@ + minimum + "+ and this machine has "@ + (
        match status.version {
            Some(version) => version,
            None => "an older version"@,
        })
            + ". Install a current version from nodejs.org, then start listening again."@
    } else {
        "FATAL: Live transcription needs the Node runtime, which is not installed. Install it from nodejs.org (version "@
            + minimum
            + "+), then start listening again. Everything else in Pulpitry works without it."@
    }
}

/// Said in full, because this is the one thing a new install can be missing and
/// the operator has no way to guess it.
pub fn missing_message(status: &NodeStatus) -> (r: String)
    ensures
        r@ == explained(status@),
{
    if status.too_old {
        let mut out: String = "FATAL: Live transcription needs Node ".to_owned();
        push_decimal(&mut out, MINIMUM_MAJOR as u64);
        out.push_str("+ and this machine has ");
        match &status.version {
            Some(version) => {
                out.push_str(version.as_str());
            },
            None => {
                out.push_str("an older version");
            },
        }
        out.push_str(". Install a current version from nodejs.org, then start listening again.");
        out
    } else {
        let mut out: String =
            "FATAL: Live transcription needs the Node runtime, which is not installed. Install it from nodejs.org (version ".to_owned();
        push_decimal(&mut out, MINIMUM_MAJOR as u64);
        out.push_str(
            "+), then start listening again. Everything else in Pulpitry works without it.",
        );
        out
    }
}

/// Whether a runtime is worth asking if it knows the option: older ones reject
/// unknown options outright.
pub fn may_know_system_ca(node: &NodeRuntime) -> (r: bool)
    ensures
        r == (node@.major >= 22),
{
    node.major >= 22
}

/// Arguments that make a runtime trust the machine's own certificates.
/// `understood` is what the runtime said when it was asked whether it knows the
/// option, which is asked of it rather than inferred from its version.
pub fn system_ca_args(node: &NodeRuntime, understood: bool) -> (r: Vec<String>)
    ensures
        texts(r@) == if node@.major >= 22 && understood {
            seq!["--use-system-ca"@]
        } else {
            Seq::empty()
        },
{
    let mut args: Vec<String> = Vec::new();
    assert(texts(args@) =~= Seq::empty());
    if node.major >= 22 && understood {
        push_text(&mut args, "--use-system-ca".to_owned());
        assert(texts(args@) =~= seq!["--use-system-ca"@]);
    }
    args
}

/// The major version is the number before the first dot, with or without the mark
/// in front.
pub proof fn law_a_major_version_is_read(major: u32, rest: Seq<char>, marked: bool)
    requires
        rest.len() > 0,
        !whitespace(rest.last()),
    ensures
        major_in(
            (if marked {
                seq!['v']
            } else {
                Seq::empty()
            }) + decimal(major as nat) + seq!['.'] + rest,
        ) == Some(major as int),
{
    let digits = decimal(major as nat);
    lemma_decimal(major as nat);
    assert(is_digit(digits[0]));
    let bare = digits + seq!['.'] + rest;
    let mark: Seq<char> = if marked {
        seq!['v']
    } else {
        Seq::empty()
    };
    let whole = mark + digits + seq!['.'] + rest;
    assert(whole =~= mark + bare);
    assert(whole.last() == rest.last());
    assert(bare[0] == digits[0]);
    assert(whole[0] == if marked {
        'v'
    } else {
        digits[0]
    });
    lemma_trimmed_already(whole);
    let drop = is_char('v');
    assert(trim_front(bare, drop) == bare);
    if marked {
        assert(whole.skip(1) =~= bare);
        assert(trim_front(whole, drop) == trim_front(whole.skip(1), drop));
    }
    assert(!digits.contains('.')) by {
        if digits.contains('.') {
            let k = choose|k: int| 0 <= k < digits.len() && digits[k] == '.';
            assert(is_digit(digits[k]));
        }
    }
    lemma_first_piece(digits, rest);
}

proof fn lemma_first_piece(first: Seq<char>, rest: Seq<char>)
    requires
        !first.contains('.'),
    ensures
        split_on(first + seq!['.'] + rest, '.').len() >= 2,
        split_on(first + seq!['.'] + rest, '.')[0] == first,
    decreases rest.len(),
{
    let whole = first + seq!['.'] + rest;
    if rest.len() == 0 {
        lemma_split_on_one(first, '.');
        lemma_split_on_piece(first, Seq::empty(), '.');
    } else {
        lemma_first_piece(first, rest.drop_last());
        assert(whole.drop_last() =~= first + seq!['.'] + rest.drop_last());
    }
}

/// What is used is the first that was found of version twenty or later.
pub proof fn law_nothing_older_than_twenty_is_used(found: Seq<Runtime>)
    ensures
        match first_usable(found, 0) {
            Some(runtime) => exists|i: int|
                0 <= i < found.len() && #[trigger] found[i] == runtime && runtime.major >= 20
                    && forall|k: int| 0 <= k < i ==> found[k].major < 20,
            None => forall|k: int| 0 <= k < found.len() ==> found[k].major < 20,
        },
{
    lemma_usable_from(found, 0);
}

proof fn lemma_usable_from(found: Seq<Runtime>, i: int)
    requires
        0 <= i,
    ensures
        match first_usable(found, i) {
            Some(runtime) => exists|at: int|
                i <= at < found.len() && #[trigger] found[at] == runtime && runtime.major >= 20
                    && forall|k: int| i <= k < at ==> found[k].major < 20,
            None => forall|k: int| i <= k < found.len() ==> found[k].major < 20,
        },
    decreases found.len() - i,
{
    if i < found.len() && found[i].major < 20 {
        lemma_usable_from(found, i + 1);
        if let Some(runtime) = first_usable(found, i + 1) {
            let at = choose|at: int|
                i + 1 <= at < found.len() && #[trigger] found[at] == runtime && runtime.major >= 20
                    && forall|k: int| i + 1 <= k < at ==> found[k].major < 20;
            assert(found[at] == runtime);
            assert forall|k: int| i <= k < at implies found[k].major < 20 by {}
        }
    } else if i < found.len() {
        assert(found[i] == first_usable(found, i)->0);
    }
}

/// Every place where there is a file is asked, no place twice, and no other.
pub proof fn law_every_file_is_asked_once(looked: Seq<(String, bool)>, i: int, path: Seq<char>)
    ensures
        worth_asking(looked).no_duplicates(),
        0 <= i < looked.len() && looked[i].1 ==> worth_asking(looked).contains(looked[i].0@),
        worth_asking(looked).contains(path) ==> exists|k: int|
            0 <= k < looked.len() && (#[trigger] looked[k]).0@ == path && looked[k].1,
    decreases looked.len(),
{
    if looked.len() > 0 {
        let front = looked.drop_last();
        let before = worth_asking(front);
        let after = worth_asking(looked);
        let last = looked.last().0@;
        law_every_file_is_asked_once(front, i, path);
        if after != before {
            assert(after == before.push(last));
            assert(after[after.len() - 1] == last);
            if 0 <= i < front.len() && front[i].1 {
                let k = choose|k: int| 0 <= k < before.len() && before[k] == front[i].0@;
                assert(after[k] == front[i].0@);
            }
        }
        if after.contains(path) {
            if before.contains(path) {
                let k = choose|k: int|
                    0 <= k < front.len() && (#[trigger] front[k]).0@ == path && front[k].1;
                assert(looked[k] == front[k]);
            } else {
                let k = choose|k: int| 0 <= k < after.len() && after[k] == path;
                if k < before.len() {
                    assert(before[k] == path);
                }
                assert(looked[looked.len() - 1].0@ == path);
            }
        }
    }
}

/// Where there is a runtime but none recent enough, the first is shown, as too old;
/// where there is none, nothing is. What is shown to be needed is version twenty.
pub proof fn law_an_old_runtime_is_shown_as_too_old(found: Seq<Runtime>)
    requires
        forall|i: int| 0 <= i < found.len() ==> (#[trigger] found[i]).major < 20,
    ensures
        !standing(found).found,
        standing(found).minimum == 20,
        standing(found).too_old <==> found.len() > 0,
        found.len() > 0 ==> standing(found).path == Some(found[0].path) && standing(found).version
            == Some(found[0].version),
        found.len() == 0 ==> standing(found).path is None && standing(found).version is None,
{
    lemma_usable_from(found, 0);
}

} // verus!
