//! Noticing that a newer version exists.
//!
//! This runs for everybody, and is made so that running for everybody is
//! defensible: it asks a public list of releases what the newest one is, with
//! no identifier in the request, no version and no machine facts. An operator
//! who wants a machine that touches nothing at all can still switch it off.

use crate::json::{
    field, field_from, json_of, lemma_trees, read_json, text_in, tree, trees, Json, Tree,
};
use crate::text::{
    begins, chars_list, chars_of, copy_range, decimal, is_digit, lemma_decimal, lemma_prefix_step,
    lemma_split_on_nonempty, lemma_split_on_one, lemma_split_on_piece, lemma_written_number,
    parse_u32, parse_u64, push_all, push_decimal, split_at_char, split_on, starts_with, text_of,
    trim, trimmed, unsigned_value,
};
use vstd::prelude::*;

verus! {

/// Where the installers are published. Public, so this needs no credential.
pub const RELEASES: &'static str =
    "https://api.github.com/repos/aysmart/castavox-downloads/releases?per_page=30";

/// A day, in seconds. A church that opens the app six times on a Sunday should
/// ask once.
pub const EVERY: u64 = 86_400;

/// Short: nobody is waiting for this, and a slow answer is the same as none. In
/// seconds.
pub const TIMEOUT: u64 = 6;

/// A newer release than the one running.
#[derive(Debug, PartialEq, Eq)]
pub struct Newer {
    /// "0.7.0", as it would be written on a page rather than as a tag.
    pub version: String,
    /// Where a person goes to get it.
    pub url: String,
}

// ------------------------------------------------------------------ versions

/// One part of a version: what is no number counts as nothing.
pub open spec fn part(text: Seq<char>) -> int {
    match unsigned_value(trimmed(text), u32::MAX as int) {
        Some(n) => n,
        None => 0,
    }
}

/// The parts of a dotted version.
pub open spec fn version_parts(version: Seq<char>) -> Seq<int> {
    split_on(version, '.').map_values(|p: Seq<char>| part(p))
}

/// A part of a version: nothing where there are fewer.
pub open spec fn part_at(parts: Seq<int>, at: int) -> int {
    if 0 <= at < parts.len() {
        parts[at]
    } else {
        0
    }
}

/// Whether one version is after another, from a part on.
pub open spec fn after_from(a: Seq<int>, b: Seq<int>, at: int) -> bool
    decreases a.len() + b.len() - at,
{
    if at < 0 || (at >= a.len() && at >= b.len()) {
        false
    } else if part_at(a, at) != part_at(b, at) {
        part_at(a, at) > part_at(b, at)
    } else {
        after_from(a, b, at + 1)
    }
}

/// Whether one version is after another, compared as numbers.
pub open spec fn is_newer(candidate: Seq<char>, running: Seq<char>) -> bool {
    after_from(version_parts(candidate), version_parts(running), 0)
}

/// The parts of a dotted version.
pub fn parts(version: &str) -> (r: Vec<u32>)
    ensures
        r@.map_values(|n: u32| n as int) == version_parts(version@),
{
    let pieces: Vec<Vec<char>> = split_at_char(chars_of(version).as_slice(), '.');
    let ghost wanted = version_parts(version@);
    let mut out: Vec<u32> = Vec::new();
    let mut i: usize = 0;
    while i < pieces.len()
        invariant
            i <= pieces.len(),
            chars_list(pieces@) == split_on(version@, '.'),
            out.len() == i,
            wanted == version_parts(version@),
            forall|k: int| 0 <= k < i ==> (#[trigger] out@[k]) as int == wanted[k],
        decreases pieces.len() - i,
    {
        assert(chars_list(pieces@)[i as int] == pieces@[i as int]@);
        assert(wanted[i as int] == part(pieces@[i as int]@));
        out.push(
            match parse_u32(trim(pieces[i].as_slice()).as_slice()) {
                Some(n) => n,
                None => 0,
            },
        );
        i += 1;
    }
    assert(chars_list(pieces@).len() == pieces@.len());
    assert(out@.map_values(|n: u32| n as int) =~= wanted);
    out
}

fn at_or_zero(parts: &Vec<u32>, at: usize) -> (r: u32)
    ensures
        r == part_at(parts@.map_values(|n: u32| n as int), at as int),
{
    if at < parts.len() {
        parts[at]
    } else {
        0
    }
}

/// Compares two dotted versions numerically, because "0.10.0" sorts before
/// "0.9.0" alphabetically.
pub fn newer_than(candidate: &str, running: &str) -> (r: bool)
    ensures
        r == is_newer(candidate@, running@),
{
    let a: Vec<u32> = parts(candidate);
    let b: Vec<u32> = parts(running);
    let ghost x = a@.map_values(|n: u32| n as int);
    let ghost y = b@.map_values(|n: u32| n as int);
    let mut at: usize = 0;
    while at < a.len() || at < b.len()
        invariant
            at <= a.len() || at <= b.len(),
            x == a@.map_values(|n: u32| n as int),
            y == b@.map_values(|n: u32| n as int),
            is_newer(candidate@, running@) == after_from(x, y, at as int),
        decreases a.len() + b.len() - at,
    {
        let p: u32 = at_or_zero(&a, at);
        let q: u32 = at_or_zero(&b, at);
        if p != q {
            return p > q;
        }
        at += 1;
    }
    false
}

proof fn lemma_after_step(a: Seq<int>, b: Seq<int>, at: int)
    requires
        at >= 0,
    ensures
        after_from(a, b, at) == if part_at(a, at) != part_at(b, at) {
            part_at(a, at) > part_at(b, at)
        } else {
            after_from(a, b, at + 1)
        },
{
}

proof fn lemma_order(a: Seq<int>, b: Seq<int>, c: Seq<int>, at: int)
    requires
        at >= 0,
    ensures
        after_from(a, b, at) && after_from(b, c, at) ==> after_from(a, c, at),
        !after_from(a, b, at) && !after_from(b, c, at) ==> !after_from(a, c, at),
        !(after_from(a, b, at) && after_from(b, a, at)),
    decreases a.len() + b.len() + c.len() - at,
{
    lemma_after_step(a, b, at);
    lemma_after_step(b, c, at);
    lemma_after_step(a, c, at);
    lemma_after_step(b, a, at);
    if at < a.len() + b.len() + c.len() {
        lemma_order(a, b, c, at + 1);
    }
}

/// The same version is not newer than itself, of two versions at most one is
/// newer, and what is newer than a newer version is newer.
pub proof fn law_versions_are_ordered(a: Seq<char>, b: Seq<char>, c: Seq<char>)
    ensures
        !is_newer(a, a),
        !(is_newer(a, b) && is_newer(b, a)),
        is_newer(a, b) && is_newer(b, c) ==> is_newer(a, c),
        !is_newer(a, b) && !is_newer(b, c) ==> !is_newer(a, c),
{
    lemma_order(version_parts(a), version_parts(b), version_parts(c), 0);
    lemma_order(version_parts(a), version_parts(a), version_parts(a), 0);
}

proof fn lemma_a_zero_more(a: Seq<int>, b: Seq<int>, at: int)
    requires
        at >= 0,
    ensures
        after_from(a.push(0), b, at) == after_from(a, b, at),
        after_from(b, a.push(0), at) == after_from(b, a, at),
    decreases a.len() + b.len() + 1 - at,
{
    let longer = a.push(0);
    lemma_after_step(longer, b, at);
    lemma_after_step(a, b, at);
    lemma_after_step(b, longer, at);
    lemma_after_step(b, a, at);
    assert(part_at(longer, at) == part_at(a, at));
    if at < a.len() + b.len() + 1 {
        lemma_a_zero_more(a, b, at + 1);
    }
}

/// A part of nothing at the end changes nothing: "1.2.0" is neither newer nor
/// older than anything that "1.2" is not.
pub proof fn law_a_trailing_zero_changes_nothing(version: Seq<char>, other: Seq<char>)
    ensures
        is_newer(version + ".0"@, other) == is_newer(version, other),
        is_newer(other, version + ".0"@) == is_newer(other, version),
{
    reveal_strlit(".0");
    let longer = version + ".0"@;
    let dotted = version.push('.');
    assert(longer.drop_last() =~= dotted);
    assert(dotted.drop_last() =~= version);
    lemma_split_on_nonempty(version, '.');
    assert(split_on(dotted, '.') =~= split_on(version, '.').push(Seq::empty()));
    assert(split_on(longer, '.') =~= split_on(version, '.').push(seq!['0'])) by {
        assert(Seq::<char>::empty().push('0') =~= seq!['0']);
    }
    assert(part(seq!['0']) == 0) by {
        lemma_written_number(0, u32::MAX as int);
        assert(decimal(0) =~= seq!['0']);
    }
    assert(version_parts(longer) =~= version_parts(version).push(0));
    lemma_a_zero_more(version_parts(version), version_parts(other), 0);
}

// ------------------------------------------------------------------ releases

pub open spec fn is_draft(release: Tree) -> bool {
    field(release, "draft"@) == Some(Tree::Bool(true))
}

/// The version a release's tag names, where it is one of this product's.
pub open spec fn version_in(release: Tree, prefix: Seq<char>) -> Option<Seq<char>> {
    match text_in(field(release, "tag_name"@)) {
        Some(tag) if !is_draft(release) && starts_with(tag, prefix) => Some(
            tag.skip(prefix.len() as int),
        ),
        _ => None,
    }
}

/// Whether a release can be read: one that is no draft has a tag.
pub open spec fn has_tag(release: Tree) -> bool {
    is_draft(release) || text_in(field(release, "tag_name"@)) is Some
}

/// The newest version among some releases.
pub open spec fn best_of(releases: Seq<Tree>, prefix: Seq<char>) -> Option<Seq<char>>
    decreases releases.len(),
{
    if releases.len() == 0 {
        None
    } else {
        let held = best_of(releases.drop_last(), prefix);
        match (version_in(releases.last(), prefix), held) {
            (Some(version), None) => Some(version),
            (Some(version), Some(best)) => if is_newer(version, best) {
                Some(version)
            } else {
                held
            },
            (None, _) => held,
        }
    }
}

pub open spec fn prefix_of(app: Seq<char>) -> Seq<char> {
    app + "-v"@
}

pub open spec fn release_url(app: Seq<char>, version: Seq<char>) -> Seq<char> {
    "https://github.com/aysmart/castavox-downloads/releases/tag/"@ + app + "-v"@ + version
}

/// The version to tell an operator of: the newest, where it is newer than the
/// one running.
pub open spec fn offered(
    releases: Seq<Tree>,
    app: Seq<char>,
    running: Seq<char>,
) -> Option<Seq<char>> {
    match best_of(releases, prefix_of(app)) {
        Some(version) if is_newer(version, running) => Some(version),
        _ => None,
    }
}

/// Whether a reply is a list of releases that can all be read.
pub open spec fn is_readable(reply: Tree) -> bool {
    reply matches Tree::List(releases) && forall|i: int|
        0 <= i < releases.len() ==> has_tag(#[trigger] releases[i])
}

pub open spec fn news_of(newer: Option<Newer>, app: Seq<char>, version: Option<Seq<char>>) -> bool {
    match version {
        Some(version) => newer matches Some(n) && n.version@ == version && n.url@ == release_url(
            app,
            version,
        ),
        None => newer is None,
    }
}

/// What a list of releases has to say: nothing at all where it cannot be read,
/// and otherwise the newer release there is, if there is one.
pub fn newest(reply: &Json, app: &str, running: &str) -> (r: Option<Option<Newer>>)
    ensures
        r is Some <==> is_readable(reply@),
        r matches Some(newer) ==> news_of(
            newer,
            app@,
            offered(reply@->List_0, app@, running@),
        ),
{
    let releases: &Vec<Json> = match reply {
        Json::List(releases) => releases,
        _ => return None,
    };
    let ghost all = trees(releases@);
    proof {
        lemma_trees(releases@);
    }
    let mut prefix: Vec<char> = chars_of(app);
    push_all(&mut prefix, chars_of("-v").as_slice());
    let mut best: Option<String> = None;
    let mut i: usize = 0;
    while i < releases.len()
        invariant
            i <= releases.len(),
            reply@ == Tree::List(all),
            all.len() == releases@.len(),
            forall|k: int| 0 <= k < releases@.len() ==> #[trigger] all[k] == tree(releases@[k]),
            prefix@ == prefix_of(app@),
            forall|k: int| 0 <= k < i ==> has_tag(#[trigger] all[k]),
            match best_of(all.take(i as int), prefix@) {
                Some(version) => best matches Some(held) && held@ == version,
                None => best is None,
            },
        decreases releases.len() - i,
    {
        proof {
            lemma_prefix_step(all, i as int);
        }
        let release: &Json = &releases[i];
        assert(all[i as int] == release@);
        let draft: bool = match release.get("draft") {
            Some(Json::Bool(draft)) => *draft,
            _ => false,
        };
        if !draft {
            let tag: Vec<char> = match release.get("tag_name") {
                Some(Json::Text(tag)) => chars_of(tag.as_str()),
                _ => {
                    assert(!has_tag(all[i as int]));
                    return None;
                },
            };
            if begins(tag.as_slice(), prefix.as_slice()) {
                let rest: Vec<char> = copy_range(tag.as_slice(), prefix.len(), tag.len());
                assert(rest@ =~= tag@.skip(prefix@.len() as int));
                let version: String = text_of(rest.as_slice());
                let better: bool = match &best {
                    Some(held) => newer_than(version.as_str(), held.as_str()),
                    None => true,
                };
                if better {
                    best = Some(version);
                }
            }
        }
        i += 1;
    }
    assert(all.take(all.len() as int) =~= all);
    match best {
        Some(version) => {
            if newer_than(version.as_str(), running) {
                let mut url: String =
                    "https://github.com/aysmart/castavox-downloads/releases/tag/".to_owned();
                url.push_str(app);
                url.push_str("-v");
                url.push_str(version.as_str());
                Some(Some(Newer { version, url }))
            } else {
                Some(None)
            }
        },
        None => Some(None),
    }
}

/// What the text of a reply has to say, as [`newest`] reads it.
pub fn read_reply(body: &str, app: &str, running: &str) -> (r: Option<Option<Newer>>)
    ensures
        r is Some <==> (json_of(body@) matches Ok(reply) && is_readable(reply)),
        r matches Some(newer) ==> news_of(
            newer,
            app@,
            offered(json_of(body@)->Ok_0->List_0, app@, running@),
        ),
{
    match read_json(body) {
        Ok(reply) => newest(&reply, app, running),
        Err(_) => None,
    }
}

/// What is offered is newer than what is running, and no release of the product
/// is newer than what is offered.
pub proof fn law_the_newest_release_is_offered(
    releases: Seq<Tree>,
    app: Seq<char>,
    running: Seq<char>,
    i: int,
)
    requires
        0 <= i < releases.len(),
        version_in(releases[i], prefix_of(app)) is Some,
    ensures
        match offered(releases, app, running) {
            Some(version) => is_newer(version, running) && !is_newer(
                version_in(releases[i], prefix_of(app))->0,
                version,
            ),
            None => !is_newer(version_in(releases[i], prefix_of(app))->0, running),
        },
{
    lemma_best(releases, prefix_of(app), i);
    let best = best_of(releases, prefix_of(app))->0;
    law_versions_are_ordered(version_in(releases[i], prefix_of(app))->0, best, running);
}

proof fn lemma_best(releases: Seq<Tree>, prefix: Seq<char>, i: int)
    requires
        0 <= i < releases.len(),
        version_in(releases[i], prefix) is Some,
    ensures
        best_of(releases, prefix) matches Some(best) && !is_newer(
            version_in(releases[i], prefix)->0,
            best,
        ),
    decreases releases.len(),
{
    let mine = version_in(releases[i], prefix)->0;
    let before = releases.drop_last();
    if i < before.len() {
        lemma_best(before, prefix, i);
        let held = best_of(before, prefix)->0;
        if let Some(version) = version_in(releases.last(), prefix) {
            law_versions_are_ordered(mine, held, version);
            law_versions_are_ordered(version, held, held);
        }
    } else {
        law_versions_are_ordered(mine, mine, mine);
    }
}

// ----------------------------------------------------------------- when it is

/// Whether it is time to look again, given what the last look left behind. A
/// stamp that cannot be read is no stamp.
pub open spec fn is_due(stamp: Option<Seq<char>>, now: u64) -> bool {
    match stamp {
        Some(text) => match unsigned_value(trimmed(text), u64::MAX as int) {
            Some(then) => now - then >= EVERY,
            None => true,
        },
        None => true,
    }
}

/// Whether a day has passed since the last look.
pub fn due(stamp: Option<&str>, now: u64) -> (r: bool)
    ensures
        r == is_due(
            match stamp {
                Some(text) => Some(text@),
                None => None,
            },
            now,
        ),
{
    match stamp {
        Some(text) => match parse_u64(trim(chars_of(text).as_slice()).as_slice()) {
            Some(then) => now >= then && now - then >= EVERY,
            None => true,
        },
        None => true,
    }
}

/// Whether to look: only where it is switched on and due.
pub fn wanted(enabled: bool, stamp: Option<&str>, now: u64) -> (r: bool)
    ensures
        r == (enabled && is_due(
            match stamp {
                Some(text) => Some(text@),
                None => None,
            },
            now,
        )),
{
    enabled && due(stamp, now)
}

/// The stamp to leave behind once the list has been read, whatever it said.
pub fn stamp(now: u64) -> (r: String)
    ensures
        r@ == decimal(now as nat),
{
    let mut out: String = String::new();
    push_decimal(&mut out, now);
    assert(out@ =~= decimal(now as nat));
    out
}

/// After a look the next one is due a day later and not before.
pub proof fn law_one_look_a_day(then: u64, now: u64)
    ensures
        is_due(Some(decimal(then as nat)), now) <==> now - then >= 86_400,
{
    lemma_written_number(then as nat, u64::MAX as int);
}

// -------------------------------------------------------------------- in numbers

/// A version of three numbers, as it is written.
pub open spec fn dotted(a: nat, b: nat, c: nat) -> Seq<char> {
    decimal(a) + seq!['.'] + decimal(b) + seq!['.'] + decimal(c)
}

proof fn lemma_no_dot(n: nat)
    ensures
        !decimal(n).contains('.'),
{
    lemma_decimal(n);
    if decimal(n).contains('.') {
        let k = choose|k: int| 0 <= k < decimal(n).len() && decimal(n)[k] == '.';
        assert(is_digit(decimal(n)[k]));
    }
}

proof fn lemma_dotted(a: nat, b: nat, c: nat)
    requires
        a <= u32::MAX,
        b <= u32::MAX,
        c <= u32::MAX,
    ensures
        version_parts(dotted(a, b, c)) == seq![a as int, b as int, c as int],
{
    lemma_no_dot(a);
    lemma_no_dot(b);
    lemma_no_dot(c);
    lemma_split_on_one(decimal(a), '.');
    lemma_split_on_piece(decimal(a), decimal(b), '.');
    lemma_split_on_piece(decimal(a) + seq!['.'] + decimal(b), decimal(c), '.');
    lemma_written_number(a, u32::MAX as int);
    lemma_written_number(b, u32::MAX as int);
    lemma_written_number(c, u32::MAX as int);
    assert(split_on(dotted(a, b, c), '.') =~= seq![decimal(a), decimal(b), decimal(c)]);
    assert(version_parts(dotted(a, b, c)) =~= seq![a as int, b as int, c as int]);
}

/// Versions are compared as numbers, the first that differ deciding: 0.10.0 is
/// newer than 0.9.0, which it stands before in an alphabet.
pub proof fn law_versions_are_compared_as_numbers(
    a: nat,
    b: nat,
    c: nat,
    x: nat,
    y: nat,
    z: nat,
)
    requires
        a <= u32::MAX,
        b <= u32::MAX,
        c <= u32::MAX,
        x <= u32::MAX,
        y <= u32::MAX,
        z <= u32::MAX,
    ensures
        is_newer(dotted(a, b, c), dotted(x, y, z)) <==> a > x || (a == x && (b > y || (b == y && c
            > z))),
{
    lemma_dotted(a, b, c);
    lemma_dotted(x, y, z);
    let p = seq![a as int, b as int, c as int];
    let q = seq![x as int, y as int, z as int];
    lemma_after_step(p, q, 0);
    lemma_after_step(p, q, 1);
    lemma_after_step(p, q, 2);
    assert(!after_from(p, q, 3));
}

/// A release of a product is known by its tag, which is the product, a hyphen, a
/// v and the version; a draft is no release.
pub proof fn law_a_release_is_known_by_its_tag(app: Seq<char>, version: Seq<char>, draft: bool)
    ensures
        version_in(
            Tree::Object(
                seq![
                    ("tag_name"@, Tree::Text(app + seq!['-', 'v'] + version)),
                    ("draft"@, Tree::Bool(draft)),
                ],
            ),
            prefix_of(app),
        ) == if draft {
            None::<Seq<char>>
        } else {
            Some(version)
        },
{
    reveal_strlit("-v");
    reveal_strlit("tag_name");
    reveal_strlit("draft");
    assert("-v"@ =~= seq!['-', 'v']);
    assert("tag_name"@.len() == 8 && "draft"@.len() == 5);
    let tag = app + seq!['-', 'v'] + version;
    let list = seq![("tag_name"@, Tree::Text(tag)), ("draft"@, Tree::Bool(draft))];
    let release = Tree::Object(list);
    assert(field_from(list, "tag_name"@, 0) == Some(Tree::Text(tag)));
    assert(field_from(list, "draft"@, 1) == Some(Tree::Bool(draft)));
    assert(field_from(list, "draft"@, 0) == Some(Tree::Bool(draft)));
    assert(tag.subrange(0, prefix_of(app).len() as int) =~= prefix_of(app));
    assert(tag.skip(prefix_of(app).len() as int) =~= version);
}

/// What is offered is one of the releases that were listed.
pub proof fn law_nothing_unlisted_is_offered(
    releases: Seq<Tree>,
    app: Seq<char>,
    running: Seq<char>,
    version: Seq<char>,
)
    requires
        offered(releases, app, running) == Some(version),
    ensures
        exists|i: int|
            0 <= i < releases.len() && version_in(#[trigger] releases[i], prefix_of(app)) == Some(
                version,
            ),
{
    lemma_best_is_listed(releases, prefix_of(app));
}

proof fn lemma_best_is_listed(releases: Seq<Tree>, prefix: Seq<char>)
    requires
        best_of(releases, prefix) is Some,
    ensures
        exists|i: int|
            0 <= i < releases.len() && version_in(#[trigger] releases[i], prefix) == best_of(
                releases,
                prefix,
            ),
    decreases releases.len(),
{
    let front = releases.drop_last();
    if best_of(releases, prefix) == version_in(releases.last(), prefix) {
        assert(version_in(releases[releases.len() - 1], prefix) == best_of(releases, prefix));
    } else {
        lemma_best_is_listed(front, prefix);
        let k = choose|k: int|
            0 <= k < front.len() && version_in(#[trigger] front[k], prefix) == best_of(
                front,
                prefix,
            );
        assert(releases[k] == front[k]);
    }
}

} // verus!
