//! Which models there are, and which one suits a machine.
//!
//! The list is fetched from the repository that publishes them, so nothing
//! about which models exist is written down here. One is chosen for the
//! operator, and cautiously: too small costs some accuracy on names, too large
//! costs a transcript that arrives after the sentence.

use crate::json::{
    field, field_from, lemma_trees, text_in, tree, trees, Figure, Json, Numeral, Tree,
};
use crate::order::{in_order, is_order, lemma_sorted, sort, sorted, views};
use crate::text::{
    ascii_lowercase, ascii_lowercase_char, chars_of, comes_before, contains, copy_range, decimal,
    ends_with, eq_ignore_ascii_case, equal_ignoring_ascii_case, finishes, lemma_precedes_order,
    lemma_precedes_total, lemma_prefix_step, lemma_split_on_nonempty, occurs_at, precedes,
    push_decimal, same_text, split_on, starts_with, strip_leading, strip_trailing, text_contains,
    text_ends_with, text_of, text_starts_with, texts, without_leading, without_trailing,
};
use crate::whisper::speech::{bare_code, before_region, law_a_region_is_no_part_of_a_language};
use vstd::prelude::*;

verus! {

/// Where the list of models comes from.
pub const CATALOGUE_URL: &'static str =
    "https://huggingface.co/api/models/ggerganov/whisper.cpp/tree/main";

/// Where a model is downloaded from.
pub const DOWNLOAD_BASE: &'static str =
    "https://huggingface.co/ggerganov/whisper.cpp/resolve/main";

/// One model the operator could choose.
#[derive(Debug, PartialEq, Eq)]
pub struct ModelInfo {
    /// The file name, which is also its identity: "ggml-base.en.bin".
    pub file: String,
    /// What to call it on screen: "base.en".
    pub label: String,
    pub bytes: u64,
    /// True for the `.en` builds, which are better at English and cannot do
    /// anything else.
    pub english_only: bool,
    /// Smaller and faster at some cost in accuracy.
    pub quantised: bool,
    pub installed: bool,
}

/// A model as contracts speak of it.
pub struct Model {
    pub file: Seq<char>,
    pub label: Seq<char>,
    pub bytes: u64,
    pub english_only: bool,
    pub quantised: bool,
    pub installed: bool,
}

impl View for ModelInfo {
    type V = Model;

    open spec fn view(&self) -> Model {
        Model {
            file: self.file@,
            label: self.label@,
            bytes: self.bytes,
            english_only: self.english_only,
            quantised: self.quantised,
            installed: self.installed,
        }
    }
}

/// What to call a model file on screen.
pub open spec fn label_of(file: Seq<char>) -> Seq<char> {
    without_trailing(without_leading(file, "ggml-"@), ".bin"@)
}

/// A model file as it is listed.
pub open spec fn described(file: Seq<char>, bytes: u64, installed: bool) -> Model {
    Model {
        file,
        label: label_of(file),
        bytes,
        english_only: contains(label_of(file), ".en"@),
        quantised: contains(label_of(file), "-q"@),
        installed,
    }
}

fn label(file: &str) -> (r: String)
    ensures
        r@ == label_of(file@),
{
    let bare: Vec<char> = strip_leading(
        chars_of(file).as_slice(),
        chars_of("ggml-").as_slice(),
    );
    text_of(strip_trailing(bare.as_slice(), chars_of(".bin").as_slice()).as_slice())
}

/// A model file as it is listed.
pub fn describe(file: &str, bytes: u64, installed: bool) -> (r: ModelInfo)
    ensures
        r@ == described(file@, bytes, installed),
{
    let label: String = label(file);
    ModelInfo {
        english_only: text_contains(label.as_str(), ".en"),
        quantised: text_contains(label.as_str(), "-q"),
        installed,
        file: file.to_owned(),
        label,
        bytes,
    }
}

pub open spec fn is_model(name: Seq<char>) -> bool {
    starts_with(name, "ggml-"@) && ends_with(name, ".bin"@)
}

/// Whether a file is named like a model.
pub fn is_model_file(name: &str) -> (r: bool)
    ensures
        r == is_model(name@),
{
    text_starts_with(name, "ggml-") && text_ends_with(name, ".bin")
}

/// Whether a path does not begin with a backslash.
pub open spec fn opens_plainly(path: Seq<char>) -> bool {
    path.len() == 0 || path[0] != '\\'
}

/// Whether a path is one that every machine takes apart at its slashes and
/// nowhere else.
pub open spec fn is_plain_path(path: Seq<char>) -> bool {
    &&& !path.contains('\\')
    &&& !path.contains(':')
    &&& !starts_with(path, "//"@)
}

/// The last name among the pieces of a path, where no step back follows it.
/// Empty pieces and `.` lead nowhere else.
pub open spec fn last_name(pieces: Seq<Seq<char>>) -> Option<Seq<char>>
    decreases pieces.len(),
{
    if pieces.len() == 0 || pieces.last() == ".."@ {
        None
    } else if pieces.last().len() == 0 || pieces.last() == "."@ {
        last_name(pieces.drop_last())
    } else {
        Some(pieces.last())
    }
}

/// What holds of the final component of a path on every machine.
pub open spec fn is_component(path: Seq<char>, name: Seq<char>) -> bool {
    &&& name.len() > 0
    &&& name != "."@
    &&& name != ".."@
    &&& opens_plainly(path) ==> !name.contains('/')
}

/// `std::path::Path::file_name`: the final component of a path, where it has
/// one. Where no backslash, colon or double slash in front gives a machine more
/// to separate than slashes, that is the last name between the slashes, past
/// what is empty or `.`, and there is none behind a `..` at the end. A component
/// is never empty, `.` or `..`, and holds no slash, unless the path begins with
/// a backslash, which on some machines makes a slash an ordinary character. What
/// a backslash, a colon or a double slash in front separates depends on the
/// machine and is left open.
#[verifier::external_body]
fn file_name(path: &str) -> (r: Option<String>)
    ensures
        r matches Some(name) ==> is_component(path@, name@),
        is_plain_path(path@) ==> is_named(r, last_name(split_on(path@, '/'))),
{
    std::path::Path::new(path).file_name().map(|name| name.to_string_lossy().into_owned())
}

/// Where a model is kept, below the application's directory, given the final
/// component of its name.
pub fn kept_in(name: Option<String>) -> (r: Vec<String>)
    ensures
        texts(r@) == seq![
            "models"@,
            match name {
                Some(name) => name@,
                None => Seq::empty(),
            },
        ],
{
    let mut parts: Vec<String> = Vec::new();
    parts.push("models".to_owned());
    let name: String = match name {
        Some(name) => name,
        None => String::new(),
    };
    let ghost last = name@;
    parts.push(name);
    assert(texts(parts@) =~= seq!["models"@, last]);
    parts
}

/// Where a model is kept, below the application's directory. The name arrives
/// from a remote listing, so only its final component counts: a path that walked
/// out of this directory would be a remote server choosing where we write.
pub fn model_path(file: &str) -> (r: Vec<String>)
    ensures
        r@.len() == 2,
        r@[0]@ == "models"@,
        is_plain_path(file@) ==> r@[1]@ == (match last_name(split_on(file@, '/')) {
            Some(name) => name,
            None => Seq::empty(),
        }),
        r@[1]@ != "."@ && r@[1]@ != ".."@,
        opens_plainly(file@) ==> !r@[1]@.contains('/'),
{
    let name: Option<String> = file_name(file);
    let parts: Vec<String> = kept_in(name);
    proof {
        reveal_strlit(".");
        reveal_strlit("..");
        assert(texts(parts@).len() == parts@.len());
        assert(texts(parts@)[0] == parts@[0]@);
        assert(texts(parts@)[1] == parts@[1]@);
    }
    parts
}

proof fn lemma_name_behind(before: Seq<char>, name: Seq<char>)
    requires
        before.len() == 0 || before.last() == '/',
        !name.contains('/'),
    ensures
        split_on(before + name, '/').len() > 0,
        split_on(before + name, '/').last() == name,
    decreases name.len(),
{
    let whole = before + name;
    lemma_split_on_nonempty(whole, '/');
    if name.len() == 0 {
        assert(whole =~= before);
    } else {
        assert forall|c: char| name.drop_last().contains(c) implies name.contains(c) by {
            let at = name.drop_last().index_of(c);
            assert(name[at] == c);
        }
        lemma_name_behind(before, name.drop_last());
        assert(whole.drop_last() =~= before + name.drop_last());
        assert(name.contains(name.last()));
        assert(name.drop_last().push(name.last()) =~= name);
    }
}

/// A model is kept under its name, whatever way a remote listing puts in front
/// of it.
pub proof fn law_only_the_name_of_a_model_counts(way: Seq<char>, name: Seq<char>)
    requires
        name.len() > 0,
        name != "."@,
        name != ".."@,
        !name.contains('/'),
    ensures
        last_name(split_on(name, '/')) == Some(name),
        last_name(split_on(way + "/"@ + name, '/')) == Some(name),
{
    reveal_strlit("/");
    lemma_name_behind(Seq::empty(), name);
    assert(Seq::<char>::empty() + name =~= name);
    lemma_name_behind(way + "/"@, name);
}

/// Whether a file of so many bytes is an installed model: an empty one is what
/// an interrupted download leaves.
pub fn is_installed(bytes: Option<u64>) -> (r: bool)
    ensures
        r == (bytes matches Some(n) && n > 0),
{
    match bytes {
        Some(n) => n > 0,
        None => false,
    }
}

// ----------------------------------------------------------------- catalogue

/// The path that an entry of the published list names, or nothing.
pub open spec fn path_in(entry: Tree) -> Seq<char> {
    match text_in(field(entry, "path"@)) {
        Some(path) => path,
        None => Seq::empty(),
    }
}

/// The size that an entry of the published list gives, or nothing.
pub open spec fn size_in(entry: Tree) -> u64 {
    match field(entry, "size"@) {
        Some(Tree::Number(Figure::Unsigned(bytes))) => bytes,
        _ => 0,
    }
}

/// The models among the entries of the published list.
pub open spec fn published(entries: Seq<Tree>) -> Seq<(Seq<char>, u64)>
    decreases entries.len(),
{
    if entries.len() == 0 {
        Seq::empty()
    } else {
        let before = published(entries.drop_last());
        if is_model(path_in(entries.last())) {
            before.push((path_in(entries.last()), size_in(entries.last())))
        } else {
            before
        }
    }
}

pub open spec fn published_in(reply: Tree) -> Seq<(Seq<char>, u64)> {
    match reply {
        Tree::List(entries) => published(entries),
        _ => Seq::empty(),
    }
}

/// Names and sizes as contracts speak of them.
pub open spec fn sized(list: Seq<(String, u64)>) -> Seq<(Seq<char>, u64)> {
    list.map_values(|e: (String, u64)| (e.0@, e.1))
}

/// The models in the published list, with their sizes.
pub fn published_models(reply: &Json) -> (r: Vec<(String, u64)>)
    ensures
        sized(r@) == published_in(reply@),
{
    let mut out: Vec<(String, u64)> = Vec::new();
    let entries: &Vec<Json> = match reply {
        Json::List(entries) => entries,
        _ => {
            assert(sized(out@) =~= Seq::empty());
            return out;
        },
    };
    let ghost all = trees(entries@);
    proof {
        lemma_trees(entries@);
    }
    assert(sized(out@) =~= published(all.take(0)));
    let mut i: usize = 0;
    while i < entries.len()
        invariant
            i <= entries.len(),
            all.len() == entries@.len(),
            forall|k: int| 0 <= k < entries@.len() ==> #[trigger] all[k] == tree(entries@[k]),
            sized(out@) == published(all.take(i as int)),
        decreases entries.len() - i,
    {
        proof {
            lemma_prefix_step(all, i as int);
        }
        let entry: &Json = &entries[i];
        assert(all[i as int] == entry@);
        let path: String = match entry.get("path") {
            Some(Json::Text(path)) => path.clone(),
            _ => String::new(),
        };
        assert(path@ =~= path_in(entry@));
        let bytes: u64 = match entry.get("size") {
            Some(Json::Number(Numeral::Unsigned(bytes))) => *bytes,
            _ => 0,
        };
        if is_model_file(path.as_str()) {
            let ghost before = out@;
            out.push((path, bytes));
            assert(sized(out@) =~= sized(before).push((out@.last().0@, bytes)));
        }
        i += 1;
    }
    assert(all.take(all.len() as int) =~= all);
    out
}

pub open spec fn has_file(models: Seq<Model>, file: Seq<char>) -> bool {
    exists|i: int| 0 <= i < models.len() && (#[trigger] models[i]).file == file
}

/// The published models, and after them those on disk that are not among them.
pub open spec fn merged(listed: Seq<Model>, here: Seq<Model>) -> Seq<Model>
    decreases here.len(),
{
    if here.len() == 0 {
        listed
    } else {
        let before = merged(listed, here.drop_last());
        if has_file(before, here.last().file) {
            before
        } else {
            before.push(here.last())
        }
    }
}

/// Smallest first, and by label where two are of a size.
pub open spec fn smaller_first() -> spec_fn(Model, Model) -> bool {
    |a: Model, b: Model| a.bytes < b.bytes || (a.bytes == b.bytes && precedes(a.label, b.label))
}

/// Every model to choose from.
pub open spec fn choices(listed: Seq<Model>, here: Seq<Model>) -> Seq<Model> {
    sorted(merged(listed, here), smaller_first())
}

/// Every model to choose from, smallest first: those that are published, as far
/// as the list could be reached, and those on disk.
pub fn catalogue(listed: Vec<ModelInfo>, here: Vec<ModelInfo>) -> (r: Vec<ModelInfo>)
    ensures
        views(r@) == choices(views(listed@), views(here@)),
{
    let ghost all = views(here@);
    let ghost remote = views(listed@);
    let mut found: Vec<ModelInfo> = listed;
    assert(views(found@) =~= merged(remote, all.take(0)));
    for model in it: here
        invariant
            all == views(it.seq()),
            views(found@) == merged(remote, all.take(it.index() as int)),
    {
        proof {
            lemma_prefix_step(all, it.index() as int);
            assert(all[it.index() as int] == model@);
        }
        let ghost before = views(found@);
        let mut known: bool = false;
        let mut i: usize = 0;
        while i < found.len()
            invariant
                i <= found.len(),
                before == views(found@),
                known ==> has_file(before, model.file@),
                !known ==> forall|k: int| 0 <= k < i ==> (#[trigger] before[k]).file != model.file@,
            decreases found.len() - i,
        {
            assert(before[i as int] == found@[i as int]@);
            if same_text(found[i].file.as_str(), model.file.as_str()) {
                known = true;
            }
            i += 1;
        }
        if !known {
            found.push(model);
            assert(views(found@) =~= before.push(found@.last()@));
        }
    }
    assert(all.take(all.len() as int) =~= all);
    let before = |a: &ModelInfo, b: &ModelInfo| -> (r: bool)
        ensures
            r == (a@.bytes < b@.bytes || (a@.bytes == b@.bytes && precedes(a@.label, b@.label))),
        {
            a.bytes < b.bytes || (a.bytes == b.bytes && comes_before(
                chars_of(a.label.as_str()).as_slice(),
                chars_of(b.label.as_str()).as_slice(),
            ))
        };
    sort(found, before, Ghost(smaller_first()))
}

proof fn lemma_smaller_first()
    ensures
        is_order(smaller_first()),
{
    let before = smaller_first();
    assert forall|a: Model, b: Model| #[trigger] before(a, b) implies !before(b, a) by {
        lemma_precedes_total(a.label, b.label);
    }
    assert forall|a: Model, b: Model, c: Model|
        !(#[trigger] before(a, b)) && !(#[trigger] before(b, c)) implies !before(a, c) by {
        if a.bytes == b.bytes && b.bytes == c.bytes {
            lemma_precedes_order(a.label, b.label, c.label);
        }
    }
}

proof fn lemma_merged(listed: Seq<Model>, here: Seq<Model>, i: int)
    ensures
        0 <= i < here.len() ==> has_file(merged(listed, here), here[i].file),
        0 <= i < listed.len() ==> merged(listed, here).contains(listed[i]),
    decreases here.len(),
{
    if here.len() > 0 {
        let before = merged(listed, here.drop_last());
        let after = merged(listed, here);
        lemma_merged(listed, here.drop_last(), i);
        if 0 <= i < here.len() {
            if i < here.len() - 1 || has_file(before, here.last().file) {
                let file = here[i].file;
                let k = choose|k: int| 0 <= k < before.len() && (#[trigger] before[k]).file == file;
                assert(after[k] == before[k]);
            } else {
                assert(after[after.len() - 1] == here[i]);
            }
        }
        if 0 <= i < listed.len() {
            let k = choose|k: int| 0 <= k < before.len() && before[k] == listed[i];
            assert(after[k] == listed[i]);
        }
    } else if 0 <= i < listed.len() {
        assert(merged(listed, here)[i] == listed[i]);
    }
}

/// The list is in order of size, and a model that is on disk is in it whether
/// or not it is still published.
pub proof fn law_the_affordable_ones_come_first(listed: Seq<Model>, here: Seq<Model>, i: int)
    requires
        0 <= i < here.len(),
    ensures
        in_order(choices(listed, here), smaller_first()),
        has_file(choices(listed, here), here[i].file),
{
    broadcast use vstd::seq_lib::group_to_multiset_ensures;

    lemma_smaller_first();
    let all = merged(listed, here);
    lemma_sorted(all, smaller_first());
    lemma_merged(listed, here, i);
    let file = here[i].file;
    let k = choose|k: int| 0 <= k < all.len() && (#[trigger] all[k]).file == file;
    assert(all.contains(all[k]));
    assert(choices(listed, here).to_multiset().count(all[k]) > 0);
    assert(choices(listed, here).contains(all[k]));
    let m = choose|m: int|
        0 <= m < choices(listed, here).len() && choices(listed, here)[m] == all[k];
    assert(choices(listed, here)[m].file == file);
}

// -------------------------------------------------------------------- ladder

/// The sizes that are ever chosen for somebody, smallest first.
pub open spec fn ladder() -> Seq<Seq<char>> {
    seq!["tiny"@, "base"@, "small"@, "medium"@]
}

/// Where a size stands on the ladder.
pub open spec fn rung(size: Seq<char>) -> Option<int> {
    if size == ladder()[0] {
        Some(0)
    } else if size == ladder()[1] {
        Some(1)
    } else if size == ladder()[2] {
        Some(2)
    } else if size == ladder()[3] {
        Some(3)
    } else {
        None
    }
}

/// The file a size comes in. The large one has no English-only build.
pub open spec fn model_file(size: Seq<char>, english: bool) -> Seq<char> {
    if english && size != "large"@ {
        "ggml-"@ + size + ".en.bin"@
    } else {
        "ggml-"@ + size + ".bin"@
    }
}

/// The file a size comes in.
pub fn named(size: &str, english: bool) -> (r: String)
    ensures
        r@ == model_file(size@, english),
{
    let mut out: String = "ggml-".to_owned();
    out.push_str(size);
    if english && !same_text(size, "large") {
        out.push_str(".en.bin");
    } else {
        out.push_str(".bin");
    }
    out
}

/// Whether a model file is an English build of a size.
pub open spec fn is_english_build(file: Seq<char>) -> bool {
    ends_with(label_of(file), ".en"@)
}

/// The size a model file is of: all of its label but the `.en` of an English
/// build. A quantised build is of a size of its own, which is on no ladder.
pub open spec fn size_of_file(file: Seq<char>) -> Seq<char> {
    let label = label_of(file);
    if is_english_build(file) {
        label.take(label.len() - 3)
    } else {
        label
    }
}

pub open spec fn beside(file: Seq<char>, by: int) -> Option<Seq<char>> {
    match rung(size_of_file(file)) {
        Some(at) if 0 <= at + by < ladder().len() => Some(
            model_file(ladder()[at + by], is_english_build(file)),
        ),
        _ => None,
    }
}

fn rung_name(at: usize) -> (r: &'static str)
    requires
        at < 4,
    ensures
        r@ == ladder()[at as int],
{
    if at == 0 {
        "tiny"
    } else if at == 1 {
        "base"
    } else if at == 2 {
        "small"
    } else {
        "medium"
    }
}

fn rung_of(size: &str) -> (r: Option<usize>)
    ensures
        match rung(size@) {
            Some(at) => r == Some(at as usize) && 0 <= at < 4,
            None => r is None,
        },
{
    if same_text(size, "tiny") {
        Some(0)
    } else if same_text(size, "base") {
        Some(1)
    } else if same_text(size, "small") {
        Some(2)
    } else if same_text(size, "medium") {
        Some(3)
    } else {
        None
    }
}

fn rung_of_file(file: &str) -> (r: (Option<usize>, bool))
    ensures
        match rung(size_of_file(file@)) {
            Some(at) => r.0 == Some(at as usize) && 0 <= at < 4,
            None => r.0 is None,
        },
        r.1 == is_english_build(file@),
{
    proof {
        reveal_strlit(".en");
    }
    let label: Vec<char> = chars_of(label(file).as_str());
    let english: bool = finishes(label.as_slice(), chars_of(".en").as_slice());
    let end: usize = if english {
        label.len() - 3
    } else {
        label.len()
    };
    let size: String = text_of(copy_range(label.as_slice(), 0, end).as_slice());
    assert(size@ =~= size_of_file(file@));
    (rung_of(size.as_str()), english)
}

pub open spec fn is_named(r: Option<String>, file: Option<Seq<char>>) -> bool {
    match file {
        Some(file) => r matches Some(found) && found@ == file,
        None => r is None,
    }
}

/// The next size down from what is loaded, for a machine that cannot keep up.
/// Nothing at the bottom of the ladder, or for a model that is not on it.
pub fn smaller_than(file: &str) -> (r: Option<String>)
    ensures
        is_named(r, beside(file@, -1)),
{
    let (at, english) = rung_of_file(file);
    match at {
        Some(at) => if at > 0 {
            Some(named(rung_name(at - 1), english))
        } else {
            None
        },
        None => None,
    }
}

/// The next size up, for a machine that has proved it has room. Nothing at the
/// top of the ladder, or for a model that is not on it.
pub fn larger_than(file: &str) -> (r: Option<String>)
    ensures
        is_named(r, beside(file@, 1)),
{
    let (at, english) = rung_of_file(file);
    match at {
        Some(at) => if at < 3 {
            Some(named(rung_name(at + 1), english))
        } else {
            None
        },
        None => None,
    }
}

// ---------------------------------------------------------------- first choice

pub open spec fn is_english(locale: Seq<char>) -> bool {
    before_region(locale).len() == 0 || equal_ignoring_ascii_case(before_region(locale), "en"@)
}

/// Whether the `.en` builds are the right family for a locale.
pub fn english(locale: &str) -> (r: bool)
    ensures
        r == is_english(locale@),
{
    let base: Vec<char> = chars_of(bare_code(locale).as_str());
    base.len() == 0 || eq_ignore_ascii_case(base.as_slice(), chars_of("en").as_slice())
}

/// The size to start with. Off Apple silicon nothing above base is chosen,
/// whatever the machine claims to have: a thread count does not tell a
/// workstation from a thin laptop.
pub open spec fn starting_size(cores: usize, apple_silicon: bool) -> Seq<char> {
    if cores <= 3 {
        ladder()[0]
    } else if apple_silicon && cores >= 10 {
        ladder()[2]
    } else {
        ladder()[1]
    }
}

/// The model to start with on a machine of so many cores, when nobody has
/// chosen one.
pub fn recommended(locale: &str, cores: usize, apple_silicon: bool) -> (r: String)
    ensures
        r@ == model_file(starting_size(cores, apple_silicon), is_english(locale@)),
{
    let size: &'static str = if cores <= 3 {
        "tiny"
    } else if apple_silicon && cores >= 10 {
        "small"
    } else {
        "base"
    };
    named(size, english(locale))
}

/// Whether a machine is likely to keep up with a preacher. A guess, and nothing
/// is refused on the strength of it: every Apple silicon machine does, and of
/// the others those with enough cores to be a workstation.
pub fn likely_keeps_up(cores: usize, apple_silicon: bool) -> (r: bool)
    ensures
        r == (apple_silicon || cores >= 16),
{
    apple_silicon || cores >= 16
}

/// How many threads to decode with: a core is left for everything else.
pub fn decoding_threads(cores: Option<usize>) -> (r: i32)
    ensures
        r == match cores {
            Some(n) => if n <= 2 {
                1
            } else if n >= 9 {
                8
            } else {
                n - 1
            },
            None => 4,
        },
{
    match cores {
        Some(n) => if n <= 2 {
            1
        } else if n >= 9 {
            8
        } else {
            (n - 1) as i32
        },
        None => 4,
    }
}

/// Each size stands on its own rung.
proof fn lemma_rungs(at: int)
    requires
        0 <= at < 4,
    ensures
        rung(ladder()[at]) == Some(at),
        ladder()[at].len() > 0,
        ladder()[at][0] != 'g',
        ladder()[at] != "large"@,
        !ladder()[at].contains('.'),
{
    reveal_strlit("tiny");
    reveal_strlit("base");
    reveal_strlit("small");
    reveal_strlit("medium");
    reveal_strlit("large");
    assert("tiny"@[0] == 't' && "base"@[0] == 'b' && "small"@[0] == 's' && "medium"@[0] == 'm'
        && "large"@[0] == 'l');
}

/// Whatever the machine, what is chosen is on the ladder and is not the largest
/// there: a download that large is somebody's decision.
pub proof fn law_the_recommendation_is_never_the_largest(cores: usize, apple_silicon: bool)
    ensures
        rung(starting_size(cores, apple_silicon)) matches Some(at) && at <= 2,
        !apple_silicon ==> (rung(starting_size(cores, apple_silicon)) matches Some(at) && at <= 1),
{
    lemma_rungs(0);
    lemma_rungs(1);
    lemma_rungs(2);
}

proof fn lemma_label(size: Seq<char>, english: bool)
    requires
        size.len() > 0,
        size[0] != 'g',
        size != "large"@,
        !size.contains('.'),
    ensures
        label_of(model_file(size, english)) == if english {
            size + ".en"@
        } else {
            size
        },
        size_of_file(model_file(size, english)) == size,
        is_english_build(model_file(size, english)) == english,
{
    reveal_strlit("ggml-");
    reveal_strlit(".bin");
    reveal_strlit(".en");
    reveal_strlit(".en.bin");
    let file = model_file(size, english);
    let tail = if english {
        ".en.bin"@
    } else {
        ".bin"@
    };
    let named = if english {
        size + ".en"@
    } else {
        size
    };
    let bare = size + tail;
    assert(file =~= "ggml-"@ + bare);
    assert(file.subrange(0, 5) =~= "ggml-"@);
    assert(file.skip(5) =~= bare);
    if starts_with(bare, "ggml-"@) {
        assert(bare.subrange(0, 5)[0] == bare[0]);
    }
    assert(without_leading(bare, "ggml-"@) == bare);
    assert(without_leading(file, "ggml-"@) == bare);
    assert(bare.subrange(bare.len() - 4, bare.len() as int) =~= ".bin"@);
    assert(bare.take(bare.len() - 4) =~= named);
    if ends_with(named, ".bin"@) {
        let end = named.subrange(named.len() - 4, named.len() as int);
        if english {
            assert(end[2] == named[named.len() - 2]);
        } else {
            assert(end[0] == size[size.len() - 4]);
            assert(size.contains(size[size.len() - 4]));
        }
    }
    assert(without_trailing(named, ".bin"@) == named);
    assert(label_of(file) == named);
    if english {
        assert(named.subrange(size.len() as int, (size.len() + 3) as int) =~= ".en"@);
        assert(named.take(named.len() - 3) =~= size);
    } else if ends_with(named, ".en"@) {
        assert(named.subrange(named.len() - 3, named.len() as int)[0] == size[size.len() - 3]);
        assert(size.contains(size[size.len() - 3]));
    }
}

/// Only the four sizes and their English builds are on the ladder: for anything
/// else, a quantised build among them, no step is offered.
pub proof fn law_only_the_ladder_has_steps(file: Seq<char>, by: int)
    requires
        beside(file, by) is Some,
    ensures
        exists|at: int|
            0 <= at < ladder().len() && (label_of(file) == #[trigger] ladder()[at]
                || label_of(file) == ladder()[at] + ".en"@),
{
    reveal_strlit(".en");
    let at = rung(size_of_file(file))->0;
    let label = label_of(file);
    assert(ladder()[at] == size_of_file(file));
    if is_english_build(file) {
        assert(label =~= ladder()[at] + ".en"@);
    }
}

/// The steps of the ladder lead both ways: one up from one down is where it
/// started, in the same language.
pub proof fn law_a_step_down_can_be_taken_back(at: int, english: bool)
    requires
        1 <= at < 4,
    ensures
        beside(model_file(ladder()[at], english), -1) == Some(model_file(ladder()[at - 1], english)),
        beside(model_file(ladder()[at - 1], english), 1) == Some(model_file(ladder()[at], english)),
{
    lemma_rungs(at);
    lemma_rungs(at - 1);
    lemma_label(ladder()[at], english);
    lemma_label(ladder()[at - 1], english);
}

// ----------------------------------------------------------------- downloads

/// Where a model is downloaded from.
pub fn download_url(name: &str) -> (r: String)
    ensures
        r@ == DOWNLOAD_BASE@ + "/"@ + name@,
{
    let mut url: String = DOWNLOAD_BASE.to_owned();
    url.push_str("/");
    url.push_str(name);
    url
}

/// Whether a download that ended is whole. `total` is what the server said to
/// expect, or zero if it did not say.
pub fn ended(received: u64, total: u64) -> (r: Result<(), String>)
    ensures
        r is Ok <==> total == 0 || received == total,
        r matches Err(words) ==> words@ == "the download ended early: "@ + decimal(received as nat)
            + " of "@ + decimal(total as nat) + " bytes"@,
{
    if total == 0 || received == total {
        return Ok(());
    }
    let mut words: String = "the download ended early: ".to_owned();
    push_decimal(&mut words, received);
    words.push_str(" of ");
    push_decimal(&mut words, total);
    words.push_str(" bytes");
    Err(words)
}

// ----------------------------------------------------------------- in their words

/// The model to start with: the tiny one with three cores or fewer, the small one
/// with ten or more on Apple silicon, and the base one otherwise. English has a
/// build of its own.
pub proof fn law_the_starting_model(cores: usize, apple_silicon: bool, english: bool)
    ensures
        model_file(starting_size(cores, apple_silicon), english) == "ggml-"@ + (if cores <= 3 {
            "tiny"@
        } else if apple_silicon && cores >= 10 {
            "small"@
        } else {
            "base"@
        }) + (if english {
            ".en.bin"@
        } else {
            ".bin"@
        }),
{
    lemma_rungs(0);
    lemma_rungs(1);
    lemma_rungs(2);
}

/// A step down or up from each size, in the same language, in so many words: the
/// smallest has none below it and the medium one none above.
pub proof fn law_the_steps_of_the_ladder(english: bool)
    ensures
        ({
            let tail = if english {
                ".en.bin"@
            } else {
                ".bin"@
            };
            let tiny = "ggml-"@ + "tiny"@ + tail;
            let base = "ggml-"@ + "base"@ + tail;
            let small = "ggml-"@ + "small"@ + tail;
            let medium = "ggml-"@ + "medium"@ + tail;
            &&& beside(tiny, -1) is None && beside(tiny, 1) == Some(base)
            &&& beside(base, -1) == Some(tiny) && beside(base, 1) == Some(small)
            &&& beside(small, -1) == Some(base) && beside(small, 1) == Some(medium)
            &&& beside(medium, -1) == Some(small) && beside(medium, 1) is None
        }),
{
    lemma_rungs(0);
    lemma_rungs(1);
    lemma_rungs(2);
    lemma_rungs(3);
    lemma_label(ladder()[0], english);
    lemma_label(ladder()[1], english);
    lemma_label(ladder()[2], english);
    lemma_label(ladder()[3], english);
}

/// English is English in any region and in either case, and so is a locale that
/// names no language; another language of the same length is not.
pub proof fn law_english_has_regions(region: Seq<char>, a: char, b: char)
    requires
        a != '-' && a != '_' && b != '-' && b != '_',
    ensures
        is_english(Seq::empty()),
        is_english(seq![a, b]) <==> (a == 'e' || a == 'E') && (b == 'n' || b == 'N'),
        is_english(seq![a, b, '-'] + region) <==> is_english(seq![a, b]),
        is_english(seq![a, b, '_'] + region) <==> is_english(seq![a, b]),
{
    reveal_strlit("en");
    let code = seq![a, b];
    assert(!code.contains('-') && !code.contains('_'));
    law_a_region_is_no_part_of_a_language(code, region, false);
    law_a_region_is_no_part_of_a_language(code, region, true);
    assert(code + seq!['-'] + region =~= seq![a, b, '-'] + region);
    assert(code + seq!['_'] + region =~= seq![a, b, '_'] + region);
    assert(before_region(Seq::empty()).len() == 0);
    let lower = ascii_lowercase(code);
    let wanted = ascii_lowercase("en"@);
    assert(wanted =~= seq!['e', 'n']);
    assert(lower =~= seq![ascii_lowercase_char(a), ascii_lowercase_char(b)]);
    if lower == wanted {
        assert(lower[0] == wanted[0] && lower[1] == wanted[1]);
    }
}

/// The list holds every model that is published, and nothing that is neither
/// published nor on disk.
pub proof fn law_the_list_is_what_there_is(listed: Seq<Model>, here: Seq<Model>, i: int, k: int)
    requires
        0 <= i < listed.len(),
        0 <= k < choices(listed, here).len(),
    ensures
        choices(listed, here).contains(listed[i]),
        listed.contains(choices(listed, here)[k]) || here.contains(choices(listed, here)[k]),
{
    broadcast use vstd::seq_lib::group_to_multiset_ensures;

    lemma_smaller_first();
    let all = merged(listed, here);
    lemma_sorted(all, smaller_first());
    lemma_merged(listed, here, i);
    assert(choices(listed, here).to_multiset().count(listed[i]) > 0);
    let one = choices(listed, here)[k];
    assert(choices(listed, here).contains(one));
    assert(all.to_multiset().count(one) > 0);
    assert(all.contains(one));
    lemma_merged_from(listed, here, one);
}

proof fn lemma_merged_from(listed: Seq<Model>, here: Seq<Model>, one: Model)
    requires
        merged(listed, here).contains(one),
    ensures
        listed.contains(one) || here.contains(one),
    decreases here.len(),
{
    if here.len() > 0 {
        let front = here.drop_last();
        if merged(listed, front).contains(one) {
            lemma_merged_from(listed, front, one);
            if front.contains(one) {
                let k = choose|k: int| 0 <= k < front.len() && front[k] == one;
                assert(here[k] == one);
            }
        } else {
            let k = choose|k: int|
                0 <= k < merged(listed, here).len() && merged(listed, here)[k] == one;
            if k < merged(listed, front).len() {
                assert(merged(listed, front)[k] == one);
            }
            assert(here[here.len() - 1] == one);
        }
    }
}

/// A published entry as it is listed: where it is, and how large.
pub open spec fn entry_of(path: Seq<char>, bytes: u64) -> Tree {
    Tree::Object(
        seq![("path"@, Tree::Text(path)), ("size"@, Tree::Number(Figure::Unsigned(bytes)))],
    )
}

/// An entry that is named like a model is one, with its size, and any other is
/// passed over; the order is that of the list.
pub proof fn law_what_is_named_like_a_model_is_one(
    before: Seq<Tree>,
    path: Seq<char>,
    bytes: u64,
)
    ensures
        published(before.push(entry_of(path, bytes))) == if starts_with(path, "ggml-"@)
            && ends_with(path, ".bin"@) {
            published(before).push((path, bytes))
        } else {
            published(before)
        },
{
    reveal_strlit("path");
    reveal_strlit("size");
    assert("path"@[0] == 'p' && "size"@[0] == 's');
    let list = seq![("path"@, Tree::Text(path)), ("size"@, Tree::Number(Figure::Unsigned(bytes)))];
    assert(field_from(list, "path"@, 0) == Some(Tree::Text(path)));
    assert(field_from(list, "size"@, 1) == Some(Tree::Number(Figure::Unsigned(bytes))));
    assert(field_from(list, "size"@, 0) == Some(Tree::Number(Figure::Unsigned(bytes))));
    assert(before.push(entry_of(path, bytes)).drop_last() =~= before);
}

/// A model is listed under its size and its language, without what every file name
/// has in common, and is known for an English one where it is.
pub proof fn law_a_model_is_labelled(at: int, english: bool, bytes: u64, installed: bool)
    requires
        0 <= at < 4,
    ensures
        ({
            let model = described(model_file(ladder()[at], english), bytes, installed);
            &&& model.label == if english {
                ladder()[at] + ".en"@
            } else {
                ladder()[at]
            }
            &&& model.english_only == english
            &&& model.bytes == bytes
            &&& model.installed == installed
            &&& model.file == model_file(ladder()[at], english)
        }),
{
    reveal_strlit(".en");
    lemma_rungs(at);
    lemma_label(ladder()[at], english);
    let label = label_of(model_file(ladder()[at], english));
    let size = ladder()[at];
    if english {
        assert(occurs_at(label, ".en"@, size.len() as int)) by {
            assert(label.subrange(size.len() as int, size.len() as int + 3) =~= ".en"@);
        }
    } else if contains(label, ".en"@) {
        let k = choose|k: int| #[trigger] occurs_at(label, ".en"@, k);
        assert(label.subrange(k, k + 3)[0] == label[k]);
        assert(size.contains(size[k]));
    }
}

} // verus!
