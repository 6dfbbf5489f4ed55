//! Text as a sequence of characters.
//!
//! Contracts speak of `Seq<char>`; the functions here move between that model
//! and `String`, and give the small text operations everything else is built
//! from.

use vstd::prelude::*;

verus! {

/// `String::push` appends one character.
pub assume_specification[ String::push ](s: &mut String, ch: char)
    ensures
        final(s)@ == old(s)@.push(ch),
;

/// `String::push_str` appends the whole of another text.
pub assume_specification[ String::push_str ](s: &mut String, string: &str)
    ensures
        final(s)@ == old(s)@ + string@,
;

/// The characters of every text in a list.
pub open spec fn texts(list: Seq<String>) -> Seq<Seq<char>> {
    list.map_values(|t: String| t@)
}

pub open spec fn chars_list(list: Seq<Vec<char>>) -> Seq<Seq<char>> {
    list.map_values(|t: Vec<char>| t@)
}

/// Dropping the last element of a longer prefix gives the shorter one.
pub proof fn lemma_prefix_step<A>(s: Seq<A>, i: int)
    requires
        0 <= i < s.len(),
    ensures
        s.take(i + 1).drop_last() == s.take(i),
        s.take(i + 1).last() == s[i],
        s.take(i + 1).len() == i + 1,
{
    assert(s.take(i + 1).drop_last() =~= s.take(i));
}

/// The characters of a text, one by one.
pub fn chars_of(text: &str) -> (chars: Vec<char>)
    ensures
        chars@ == text@,
{
    let mut out: Vec<char> = Vec::new();
    for c in it: text.chars()
        invariant
            it.seq() == text@,
            out@ == text@.take(it.index() as int),
    {
        out.push(c);
    }
    out
}

/// A text made of the given characters.
pub fn text_of(chars: &[char]) -> (text: String)
    ensures
        text@ == chars@,
{
    let mut out: String = String::new();
    let mut i: usize = 0;
    while i < chars.len()
        invariant
            i <= chars.len(),
            out@ == chars@.take(i as int),
        decreases chars.len() - i,
    {
        out.push(chars[i]);
        i += 1;
        proof {
            lemma_prefix_step(chars@, i - 1);
        }
    }
    assert(chars@.take(i as int) == chars@);
    out
}


// ---------------------------------------------------------------- characters

/// The Unicode `White_Space` property.
pub open spec fn whitespace(c: char) -> bool {
    ||| '\t' <= c <= '\r'
    ||| c == ' '
    ||| c == '\u{85}'
    ||| c == '\u{a0}'
    ||| c == '\u{1680}'
    ||| '\u{2000}' <= c <= '\u{200a}'
    ||| c == '\u{2028}'
    ||| c == '\u{2029}'
    ||| c == '\u{202f}'
    ||| c == '\u{205f}'
    ||| c == '\u{3000}'
}

pub fn is_whitespace(c: char) -> (r: bool)
    ensures
        r == whitespace(c),
{
    ('\t' <= c && c <= '\r') || c == ' ' || c == '\u{85}' || c == '\u{a0}' || c == '\u{1680}' || (
    '\u{2000}' <= c && c <= '\u{200a}') || c == '\u{2028}' || c == '\u{2029}' || c == '\u{202f}'
        || c == '\u{205f}' || c == '\u{3000}'
}

/// What `char::is_alphanumeric` answers: the Unicode `Alphabetic` property or
/// one of the numeric general categories.
pub uninterp spec fn alphanumeric(c: char) -> bool;

/// `char::is_alphanumeric`. Its answer depends on the character alone.
#[verifier::external_body]
pub(crate) fn is_alphanumeric(c: char) -> (r: bool)
    ensures
        r == alphanumeric(c),
{
    c.is_alphanumeric()
}

/// The characters `char::to_lowercase` yields for one character.
pub uninterp spec fn lowercase_char(c: char) -> Seq<char>;

/// `char::to_lowercase`. What it yields depends on the character alone.
#[verifier::external_body]
pub(crate) fn to_lowercase_char(c: char) -> (r: Vec<char>)
    ensures
        r@ == lowercase_char(c),
{
    c.to_lowercase().collect()
}

/// What `str::to_lowercase` makes of a text.
pub uninterp spec fn lowercase(text: Seq<char>) -> Seq<char>;

/// `str::to_lowercase`. What it makes depends on the text alone, not on a locale.
#[verifier::external_body]
pub(crate) fn to_lowercase(text: &str) -> (r: String)
    ensures
        r@ == lowercase(text@),
{
    text.to_lowercase()
}

/// The ASCII lower-case form of a character; any other character is itself.
pub open spec fn ascii_lowercase_char(c: char) -> char {
    if 'A' <= c <= 'Z' {
        ((c as u32) + 32) as char
    } else {
        c
    }
}

pub open spec fn ascii_lowercase(s: Seq<char>) -> Seq<char> {
    s.map_values(|c: char| ascii_lowercase_char(c))
}

/// Equal but for the case of ASCII letters.
pub open spec fn equal_ignoring_ascii_case(a: Seq<char>, b: Seq<char>) -> bool {
    ascii_lowercase(a) == ascii_lowercase(b)
}

pub fn to_ascii_lowercase_char(c: char) -> (r: char)
    ensures
        r == ascii_lowercase_char(c),
{
    if 'A' <= c && c <= 'Z' {
        let code: u8 = c as u8;
        (code + 32) as char
    } else {
        c
    }
}

/// The ASCII upper-case form of a character; any other character is itself.
pub open spec fn ascii_uppercase_char(c: char) -> char {
    if 'a' <= c <= 'z' {
        ((c as u32) - 32) as char
    } else {
        c
    }
}

pub fn to_ascii_uppercase_char(c: char) -> (r: char)
    ensures
        r == ascii_uppercase_char(c),
{
    if 'a' <= c && c <= 'z' {
        let code: u8 = c as u8;
        (code - 32) as char
    } else {
        c
    }
}

pub open spec fn ascii_alphanumeric(c: char) -> bool {
    '0' <= c <= '9' || 'a' <= c <= 'z' || 'A' <= c <= 'Z'
}

pub fn is_ascii_alphanumeric(c: char) -> (r: bool)
    ensures
        r == ascii_alphanumeric(c),
{
    ('0' <= c && c <= '9') || ('a' <= c && c <= 'z') || ('A' <= c && c <= 'Z')
}

pub fn eq_ignore_ascii_case(a: &[char], b: &[char]) -> (r: bool)
    ensures
        r == equal_ignoring_ascii_case(a@, b@),
{
    if a.len() != b.len() {
        assert(ascii_lowercase(a@).len() != ascii_lowercase(b@).len());
        return false;
    }
    let mut i: usize = 0;
    while i < a.len()
        invariant
            i <= a.len(),
            a.len() == b.len(),
            forall|j: int|
                0 <= j < i ==> ascii_lowercase_char(#[trigger] a@[j]) == ascii_lowercase_char(b@[j]),
        decreases a.len() - i,
    {
        if to_ascii_lowercase_char(a[i]) != to_ascii_lowercase_char(b[i]) {
            assert(ascii_lowercase(a@)[i as int] != ascii_lowercase(b@)[i as int]);
            return false;
        }
        i += 1;
    }
    assert(ascii_lowercase(a@) =~= ascii_lowercase(b@));
    true
}

// ------------------------------------------------------------------ equality

/// Where a name first stands in a list, from the `i`th on, whatever its case.
pub open spec fn place_ignoring_case(list: Seq<Seq<char>>, name: Seq<char>, i: int) -> Option<int>
    decreases list.len() - i,
{
    if i < 0 || i >= list.len() {
        None
    } else if equal_ignoring_ascii_case(list[i], name) {
        Some(i)
    } else {
        place_ignoring_case(list, name, i + 1)
    }
}

pub fn equal(a: &[char], b: &[char]) -> (r: bool)
    ensures
        r == (a@ == b@),
{
    if a.len() != b.len() {
        return false;
    }
    let mut i: usize = 0;
    while i < a.len()
        invariant
            i <= a.len(),
            a.len() == b.len(),
            forall|j: int| 0 <= j < i ==> a@[j] == b@[j],
        decreases a.len() - i,
    {
        if a[i] != b[i] {
            return false;
        }
        i += 1;
    }
    assert(a@ =~= b@);
    true
}

/// Whether two texts are the same.
pub fn same_text(a: &str, b: &str) -> (r: bool)
    ensures
        r == (a@ == b@),
{
    equal(chars_of(a).as_slice(), chars_of(b).as_slice())
}

// ------------------------------------------------------------------- finding

pub open spec fn occurs_at(hay: Seq<char>, needle: Seq<char>, i: int) -> bool {
    &&& 0 <= i
    &&& i + needle.len() <= hay.len()
    &&& hay.subrange(i, i + needle.len()) == needle
}

pub open spec fn contains(hay: Seq<char>, needle: Seq<char>) -> bool {
    exists|i: int| occurs_at(hay, needle, i)
}

pub open spec fn starts_with(s: Seq<char>, prefix: Seq<char>) -> bool {
    occurs_at(s, prefix, 0)
}

pub open spec fn ends_with(s: Seq<char>, suffix: Seq<char>) -> bool {
    occurs_at(s, suffix, s.len() - suffix.len())
}

pub fn find_at(hay: &[char], needle: &[char], i: usize) -> (r: bool)
    ensures
        r == occurs_at(hay@, needle@, i as int),
{
    if i > hay.len() || needle.len() > hay.len() - i {
        return false;
    }
    let mut k: usize = 0;
    while k < needle.len()
        invariant
            k <= needle.len(),
            i + needle.len() <= hay.len(),
            forall|j: int| 0 <= j < k ==> hay@[i + j] == #[trigger] needle@[j],
        decreases needle.len() - k,
    {
        if hay[i + k] != needle[k] {
            assert(hay@.subrange(i as int, i + needle@.len())[k as int] != needle@[k as int]);
            return false;
        }
        k += 1;
    }
    assert(hay@.subrange(i as int, i + needle@.len()) =~= needle@);
    true
}

pub fn has(hay: &[char], needle: &[char]) -> (r: bool)
    ensures
        r == contains(hay@, needle@),
{
    if needle.len() > hay.len() {
        return false;
    }
    let last: usize = hay.len() - needle.len();
    let mut i: usize = 0;
    while i <= last
        invariant
            last == hay.len() - needle.len(),
            i <= last + 1,
            forall|j: int| 0 <= j < i ==> !occurs_at(hay@, needle@, j),
        decreases last + 1 - i,
    {
        if find_at(hay, needle, i) {
            return true;
        }
        if i == last {
            return false;
        }
        i += 1;
    }
    false
}

pub fn begins(s: &[char], prefix: &[char]) -> (r: bool)
    ensures
        r == starts_with(s@, prefix@),
{
    find_at(s, prefix, 0)
}

pub fn finishes(s: &[char], suffix: &[char]) -> (r: bool)
    ensures
        r == ends_with(s@, suffix@),
{
    if suffix.len() > s.len() {
        return false;
    }
    find_at(s, suffix, s.len() - suffix.len())
}

/// Where a text first occurs in another, from `at` on.
pub open spec fn first_at(hay: Seq<char>, needle: Seq<char>, at: int) -> Option<int>
    decreases hay.len() + 1 - at,
{
    if at < 0 || at > hay.len() {
        None
    } else if occurs_at(hay, needle, at) {
        Some(at)
    } else {
        first_at(hay, needle, at + 1)
    }
}

pub fn find(hay: &[char], needle: &[char]) -> (r: Option<usize>)
    ensures
        match first_at(hay@, needle@, 0) {
            Some(at) => r matches Some(k) && k == at && k + needle.len() <= hay.len(),
            None => r is None,
        },
{
    let mut at: usize = 0;
    while at < hay.len()
        invariant
            at <= hay.len(),
            first_at(hay@, needle@, 0) == first_at(hay@, needle@, at as int),
        decreases hay.len() - at,
    {
        if find_at(hay, needle, at) {
            return Some(at);
        }
        at += 1;
    }
    if find_at(hay, needle, at) {
        Some(at)
    } else {
        assert(first_at(hay@, needle@, at + 1) is None);
        None
    }
}

pub fn text_contains(hay: &str, needle: &str) -> (r: bool)
    ensures
        r == contains(hay@, needle@),
{
    has(chars_of(hay).as_slice(), chars_of(needle).as_slice())
}

pub fn text_starts_with(s: &str, prefix: &str) -> (r: bool)
    ensures
        r == starts_with(s@, prefix@),
{
    begins(chars_of(s).as_slice(), chars_of(prefix).as_slice())
}

pub fn text_ends_with(s: &str, suffix: &str) -> (r: bool)
    ensures
        r == ends_with(s@, suffix@),
{
    finishes(chars_of(s).as_slice(), chars_of(suffix).as_slice())
}

pub fn copy_range(s: &[char], from: usize, to: usize) -> (r: Vec<char>)
    requires
        from <= to <= s.len(),
    ensures
        r@ == s@.subrange(from as int, to as int),
{
    let mut out: Vec<char> = Vec::new();
    let mut i: usize = from;
    while i < to
        invariant
            from <= i <= to <= s.len(),
            out@ == s@.subrange(from as int, i as int),
        decreases to - i,
    {
        out.push(s[i]);
        i += 1;
        assert(s@.subrange(from as int, i as int).drop_last() =~= s@.subrange(
            from as int,
            i - 1,
        ));
    }
    out
}

// ------------------------------------------------------------------ trimming

/// What is left once every leading character that satisfies `drop` is gone.
pub open spec fn trim_front(s: Seq<char>, drop: spec_fn(char) -> bool) -> Seq<char>
    decreases s.len(),
{
    if s.len() > 0 && drop(s[0]) {
        trim_front(s.skip(1), drop)
    } else {
        s
    }
}

/// What is left once every trailing character that satisfies `drop` is gone.
pub open spec fn trim_back(s: Seq<char>, drop: spec_fn(char) -> bool) -> Seq<char>
    decreases s.len(),
{
    if s.len() > 0 && drop(s.last()) {
        trim_back(s.drop_last(), drop)
    } else {
        s
    }
}

pub open spec fn is_space() -> spec_fn(char) -> bool {
    |c: char| whitespace(c)
}

pub open spec fn is_char(wanted: char) -> spec_fn(char) -> bool {
    |c: char| c == wanted
}

/// A text without the white space at either end.
pub open spec fn trimmed(s: Seq<char>) -> Seq<char> {
    trim_back(trim_front(s, is_space()), is_space())
}

/// A text of nothing but white space, or of nothing at all.
pub open spec fn blank(s: Seq<char>) -> bool {
    trimmed(s).len() == 0
}

/// A text is blank exactly when every character in it is white space.
pub proof fn lemma_blank(s: Seq<char>)
    ensures
        blank(s) <==> forall|i: int| 0 <= i < s.len() ==> whitespace(#[trigger] s[i]),
{
    lemma_trim_front(s, is_space());
    let t = trim_front(s, is_space());
    lemma_trim_back(t, is_space());
    let k = s.len() - t.len();
    if blank(s) {
        assert forall|i: int| 0 <= i < s.len() implies whitespace(#[trigger] s[i]) by {
            if i >= k {
                assert(s[i] == t[i - k]);
                assert(is_space()(t[i - k]));
            } else {
                assert(is_space()(s[i]));
            }
        }
    } else {
        assert(t.len() > 0);
        assert(!is_space()(t[0]));
        assert(t[0] == s[k]);
    }
}

/// Trimming the front takes the longest leading run that satisfies `drop`.
pub proof fn lemma_trim_front(s: Seq<char>, drop: spec_fn(char) -> bool)
    ensures
        trim_front(s, drop).len() <= s.len(),
        trim_front(s, drop) == s.skip(s.len() - trim_front(s, drop).len()),
        trim_front(s, drop).len() > 0 ==> !drop(trim_front(s, drop)[0]),
        forall|i: int| 0 <= i < s.len() - trim_front(s, drop).len() ==> drop(#[trigger] s[i]),
    decreases s.len(),
{
    if s.len() > 0 && drop(s[0]) {
        lemma_trim_front(s.skip(1), drop);
        let k = s.len() - trim_front(s, drop).len();
        assert(s.skip(1).skip(k - 1) =~= s.skip(k));
        assert forall|i: int| 0 <= i < k implies drop(#[trigger] s[i]) by {
            if i > 0 {
                assert(s[i] == s.skip(1)[i - 1]);
            }
        }
    } else {
        assert(s.skip(0) =~= s);
    }
}

/// Trimming the back takes the longest trailing run that satisfies `drop`.
pub proof fn lemma_trim_back(s: Seq<char>, drop: spec_fn(char) -> bool)
    ensures
        trim_back(s, drop).len() <= s.len(),
        trim_back(s, drop) == s.take(trim_back(s, drop).len() as int),
        trim_back(s, drop).len() > 0 ==> !drop(trim_back(s, drop).last()),
        forall|i: int| trim_back(s, drop).len() <= i < s.len() ==> drop(#[trigger] s[i]),
    decreases s.len(),
{
    if s.len() > 0 && drop(s.last()) {
        lemma_trim_back(s.drop_last(), drop);
        let k = trim_back(s, drop).len() as int;
        assert(s.drop_last().take(k) =~= s.take(k));
        assert forall|i: int| k <= i < s.len() implies drop(#[trigger] s[i]) by {
            if i < s.len() - 1 {
                assert(s[i] == s.drop_last()[i]);
            }
        }
    } else {
        assert(s.take(s.len() as int) =~= s);
    }
}

pub fn trim(s: &[char]) -> (r: Vec<char>)
    ensures
        r@ == trimmed(s@),
{
    let mut from: usize = 0;
    assert(s@.skip(0) =~= s@);
    while from < s.len() && is_whitespace(s[from])
        invariant
            from <= s.len(),
            trim_front(s@, is_space()) == trim_front(s@.skip(from as int), is_space()),
        decreases s.len() - from,
    {
        assert(s@.skip(from as int).skip(1) =~= s@.skip(from + 1));
        from += 1;
    }
    let ghost front = s@.skip(from as int);
    assert(trim_front(s@, is_space()) == front);
    let mut to: usize = s.len();
    assert(front.take(to - from) =~= front);
    while to > from && is_whitespace(s[to - 1])
        invariant
            from <= to <= s.len(),
            front == s@.skip(from as int),
            trim_back(front, is_space()) == trim_back(front.take(to - from), is_space()),
        decreases to,
    {
        assert(front.take(to - from).drop_last() =~= front.take(to - from - 1));
        to -= 1;
    }
    assert(front.take(to - from) =~= s@.subrange(from as int, to as int));
    assert(trim_back(front, is_space()) == front.take(to - from));
    copy_range(s, from, to)
}

/// A text without the white space at either end.
pub fn trim_text(s: &str) -> (r: String)
    ensures
        r@ == trimmed(s@),
{
    text_of(trim(chars_of(s).as_slice()).as_slice())
}

pub fn is_blank(s: &str) -> (r: bool)
    ensures
        r == blank(s@),
{
    trim(chars_of(s).as_slice()).len() == 0
}

/// A text without the given character at its end, however often it stands there.
pub fn trim_end_char(s: &str, wanted: char) -> (r: String)
    ensures
        r@ == trim_back(s@, is_char(wanted)),
{
    let chars: Vec<char> = chars_of(s);
    let mut to: usize = chars.len();
    assert(chars@.take(to as int) =~= chars@);
    while to > 0 && chars[to - 1] == wanted
        invariant
            to <= chars.len(),
            trim_back(chars@, is_char(wanted)) == trim_back(chars@.take(to as int), is_char(wanted)),
        decreases to,
    {
        assert(chars@.take(to as int).drop_last() =~= chars@.take(to - 1));
        to -= 1;
    }
    assert(chars@.take(to as int) =~= chars@.subrange(0, to as int));
    text_of(copy_range(chars.as_slice(), 0, to).as_slice())
}

/// A text without the given character at its start, however often it stands there.
pub fn trim_start_char(s: &str, wanted: char) -> (r: String)
    ensures
        r@ == trim_front(s@, is_char(wanted)),
{
    let chars: Vec<char> = chars_of(s);
    let mut from: usize = 0;
    assert(chars@.skip(0) =~= chars@);
    while from < chars.len() && chars[from] == wanted
        invariant
            from <= chars.len(),
            trim_front(chars@, is_char(wanted)) == trim_front(
                chars@.skip(from as int),
                is_char(wanted),
            ),
        decreases chars.len() - from,
    {
        assert(chars@.skip(from as int).skip(1) =~= chars@.skip(from + 1));
        from += 1;
    }
    assert(chars@.skip(from as int) =~= chars@.subrange(from as int, chars@.len() as int));
    text_of(copy_range(chars.as_slice(), from, chars.len()).as_slice())
}

/// A text without the given prefix, however often it stands at the front.
pub open spec fn without_leading(s: Seq<char>, prefix: Seq<char>) -> Seq<char>
    decreases s.len(),
{
    if prefix.len() > 0 && starts_with(s, prefix) {
        without_leading(s.skip(prefix.len() as int), prefix)
    } else {
        s
    }
}

/// A text without the given suffix, however often it stands at the end.
pub open spec fn without_trailing(s: Seq<char>, suffix: Seq<char>) -> Seq<char>
    decreases s.len(),
{
    if suffix.len() > 0 && ends_with(s, suffix) {
        without_trailing(s.take(s.len() - suffix.len()), suffix)
    } else {
        s
    }
}

pub fn strip_leading(s: &[char], prefix: &[char]) -> (r: Vec<char>)
    ensures
        r@ == without_leading(s@, prefix@),
{
    let mut from: usize = 0;
    assert(s@.skip(0) =~= s@);
    while prefix.len() > 0 && find_at(s, prefix, from)
        invariant
            from <= s.len(),
            without_leading(s@, prefix@) == without_leading(s@.skip(from as int), prefix@),
        decreases s.len() - from,
    {
        let ghost rest = s@.skip(from as int);
        assert(rest.subrange(0, prefix@.len() as int) =~= s@.subrange(
            from as int,
            from + prefix@.len(),
        ));
        assert(rest.skip(prefix@.len() as int) =~= s@.skip(from + prefix@.len()));
        from += prefix.len();
    }
    let ghost rest = s@.skip(from as int);
    if prefix.len() > 0 && prefix.len() <= s.len() - from {
        assert(rest.subrange(0, prefix@.len() as int) =~= s@.subrange(
            from as int,
            from + prefix@.len(),
        ));
    }
    assert(rest =~= s@.subrange(from as int, s@.len() as int));
    copy_range(s, from, s.len())
}

pub fn strip_trailing(s: &[char], suffix: &[char]) -> (r: Vec<char>)
    ensures
        r@ == without_trailing(s@, suffix@),
{
    let mut to: usize = s.len();
    assert(s@.take(to as int) =~= s@);
    while suffix.len() > 0 && suffix.len() <= to && find_at(s, suffix, to - suffix.len())
        invariant
            to <= s.len(),
            without_trailing(s@, suffix@) == without_trailing(s@.take(to as int), suffix@),
        decreases to,
    {
        let ghost rest = s@.take(to as int);
        assert(rest.subrange(to - suffix@.len(), to as int) =~= s@.subrange(
            to - suffix@.len(),
            to as int,
        ));
        assert(rest.take(to - suffix@.len()) =~= s@.take(to - suffix@.len()));
        to -= suffix.len();
    }
    let ghost rest = s@.take(to as int);
    if suffix.len() > 0 && suffix.len() <= to {
        assert(rest.subrange(to - suffix@.len(), to as int) =~= s@.subrange(
            to - suffix@.len(),
            to as int,
        ));
    }
    assert(rest =~= s@.subrange(0, to as int));
    copy_range(s, 0, to)
}

// ----------------------------------------------------------------- splitting

/// The words completed so far, and the one still being read.
pub open spec fn fields(s: Seq<char>) -> (Seq<Seq<char>>, Seq<char>)
    decreases s.len(),
{
    if s.len() == 0 {
        (Seq::empty(), Seq::empty())
    } else {
        let (done, open) = fields(s.drop_last());
        if !whitespace(s.last()) {
            (done, open.push(s.last()))
        } else if open.len() == 0 {
            (done, open)
        } else {
            (done.push(open), Seq::empty())
        }
    }
}

/// The words of a text: its longest runs without white space, in order.
pub open spec fn split_whitespace(s: Seq<char>) -> Seq<Seq<char>> {
    let (done, open) = fields(s);
    if open.len() == 0 {
        done
    } else {
        done.push(open)
    }
}

/// A word as the splitting leaves it: something, with no white space in it.
pub open spec fn is_word(w: Seq<char>) -> bool {
    w.len() > 0 && forall|i: int| 0 <= i < w.len() ==> !whitespace(#[trigger] w[i])
}

pub proof fn lemma_fields(s: Seq<char>)
    ensures
        fields(s).0.len() + fields(s).1.len() <= s.len(),
        forall|i: int| 0 <= i < fields(s).0.len() ==> is_word(#[trigger] fields(s).0[i]),
        fields(s).1.len() > 0 ==> is_word(fields(s).1),
    decreases s.len(),
{
    if s.len() > 0 {
        lemma_fields(s.drop_last());
    }
}

/// Every word of a text is a word, and there are no more words than characters.
pub proof fn lemma_split_whitespace(s: Seq<char>)
    ensures
        split_whitespace(s).len() <= s.len(),
        forall|i: int| 0 <= i < split_whitespace(s).len() ==> is_word(#[trigger] split_whitespace(s)[i]),
{
    lemma_fields(s);
}

pub fn words_of(s: &[char]) -> (r: Vec<Vec<char>>)
    ensures
        chars_list(r@) == split_whitespace(s@),
{
    let mut done: Vec<Vec<char>> = Vec::new();
    let mut open: Vec<char> = Vec::new();
    let mut i: usize = 0;
    while i < s.len()
        invariant
            i <= s.len(),
            chars_list(done@) == fields(s@.take(i as int)).0,
            open@ == fields(s@.take(i as int)).1,
        decreases s.len() - i,
    {
        let c: char = s[i];
        proof {
            lemma_prefix_step(s@, i as int);
        }
        if !is_whitespace(c) {
            open.push(c);
        } else if open.len() > 0 {
            let ghost before = done@;
            done.push(open);
            assert(chars_list(done@) =~= chars_list(before).push(done@.last()@));
            open = Vec::new();
        }
        i += 1;
    }
    assert(s@.take(i as int) =~= s@);
    if open.len() > 0 {
        let ghost before = done@;
        done.push(open);
        assert(chars_list(done@) =~= chars_list(before).push(done@.last()@));
    }
    done
}

/// The pieces of a text between one separator and the next.
pub open spec fn split_on(s: Seq<char>, separator: char) -> Seq<Seq<char>>
    decreases s.len(),
{
    if s.len() == 0 {
        seq![Seq::empty()]
    } else {
        let before = split_on(s.drop_last(), separator);
        if s.last() == separator {
            before.push(Seq::empty())
        } else {
            before.drop_last().push(before.last().push(s.last()))
        }
    }
}

pub proof fn lemma_split_on_nonempty(s: Seq<char>, separator: char)
    ensures
        0 < split_on(s, separator).len() <= s.len() + 1,
    decreases s.len(),
{
    if s.len() > 0 {
        lemma_split_on_nonempty(s.drop_last(), separator);
    }
}

/// A piece without the separator only makes the last piece longer.
pub proof fn lemma_split_on_more(s: Seq<char>, piece: Seq<char>, separator: char)
    requires
        !piece.contains(separator),
    ensures
        split_on(s + piece, separator) == split_on(s, separator).drop_last().push(
            split_on(s, separator).last() + piece,
        ),
    decreases piece.len(),
{
    let pieces = split_on(s, separator);
    lemma_split_on_nonempty(s, separator);
    if piece.len() == 0 {
        assert(s + piece =~= s);
        assert(pieces.last() + piece =~= pieces.last());
        assert(pieces.drop_last().push(pieces.last()) =~= pieces);
    } else {
        let front = piece.drop_last();
        assert(piece.contains(piece[piece.len() - 1]));
        assert forall|c: char| front.contains(c) implies piece.contains(c) by {
            let k = choose|k: int| 0 <= k < front.len() && front[k] == c;
            assert(piece[k] == c);
        }
        lemma_split_on_more(s, front, separator);
        assert((s + piece).drop_last() =~= s + front);
        let before = pieces.drop_last().push(pieces.last() + front);
        assert(before.drop_last() =~= pieces.drop_last());
        assert((pieces.last() + front).push(piece.last()) =~= pieces.last() + piece);
    }
}

/// A separator and a piece without one are one piece more.
pub proof fn lemma_split_on_piece(s: Seq<char>, piece: Seq<char>, separator: char)
    requires
        !piece.contains(separator),
    ensures
        split_on(s + seq![separator] + piece, separator) == split_on(s, separator).push(piece),
{
    let longer = s + seq![separator];
    assert(longer.drop_last() =~= s);
    lemma_split_on_more(longer, piece, separator);
    assert(Seq::<char>::empty() + piece =~= piece);
    assert(split_on(s, separator).push(Seq::empty()).drop_last() =~= split_on(s, separator));
}

/// A separator parts a text: the pieces are those before it and those after it.
pub proof fn lemma_split_on_both(s: Seq<char>, t: Seq<char>, separator: char)
    ensures
        split_on(s + seq![separator] + t, separator) == split_on(s, separator) + split_on(
            t,
            separator,
        ),
    decreases t.len(),
{
    let whole = s + seq![separator] + t;
    let a = split_on(s, separator);
    if t.len() == 0 {
        assert(whole.drop_last() =~= s);
        assert(a.push(Seq::empty()) =~= a + split_on(t, separator));
    } else {
        let front = t.drop_last();
        lemma_split_on_both(s, front, separator);
        lemma_split_on_nonempty(front, separator);
        assert(whole.drop_last() =~= s + seq![separator] + front);
        let b = split_on(front, separator);
        assert((a + b).last() == b.last());
        if t.last() == separator {
            assert((a + b).push(Seq::empty()) =~= a + b.push(Seq::empty()));
        } else {
            assert((a + b).drop_last() =~= a + b.drop_last());
            assert((a + b.drop_last()).push(b.last().push(t.last())) =~= a + b.drop_last().push(
                b.last().push(t.last()),
            ));
        }
    }
}

/// A text without the separator is one piece.
pub proof fn lemma_split_on_one(piece: Seq<char>, separator: char)
    requires
        !piece.contains(separator),
    ensures
        split_on(piece, separator) == seq![piece],
{
    let none = Seq::<char>::empty();
    lemma_split_on_more(none, piece, separator);
    assert(none + piece =~= piece);
    assert(split_on(none, separator) == seq![none]);
    assert(seq![none].drop_last().push(none + piece) =~= seq![piece]);
}

pub fn split_at_char(s: &[char], separator: char) -> (r: Vec<Vec<char>>)
    ensures
        chars_list(r@) == split_on(s@, separator),
        r.len() > 0,
{
    let mut done: Vec<Vec<char>> = Vec::new();
    let mut open: Vec<char> = Vec::new();
    let mut i: usize = 0;
    assert(chars_list(done@).push(open@) =~= split_on(s@.take(0), separator));
    while i < s.len()
        invariant
            i <= s.len(),
            chars_list(done@).push(open@) == split_on(s@.take(i as int), separator),
        decreases s.len() - i,
    {
        let c: char = s[i];
        let ghost pieces = split_on(s@.take(i as int), separator);
        proof {
            lemma_prefix_step(s@, i as int);
            assert(pieces.last() == open@);
            assert(pieces.drop_last() =~= chars_list(done@));
        }
        if c == separator {
            let ghost before = done@;
            done.push(open);
            assert(chars_list(done@) =~= chars_list(before).push(done@.last()@));
            open = Vec::new();
        } else {
            open.push(c);
        }
        i += 1;
    }
    assert(s@.take(i as int) =~= s@);
    let ghost before = done@;
    done.push(open);
    assert(chars_list(done@) =~= chars_list(before).push(done@.last()@));
    done
}

/// The lines of a text: ended by a line feed, or by a carriage return and a line
/// feed, with the last one's ending optional.
pub open spec fn lines_of(s: Seq<char>) -> Seq<Seq<char>> {
    let pieces = split_on(s, '\n');
    let ended = pieces.drop_last().map_values(|p: Seq<char>| without_return(p));
    if pieces.last().len() == 0 {
        ended
    } else {
        ended.push(pieces.last())
    }
}

pub open spec fn without_return(p: Seq<char>) -> Seq<char> {
    if p.len() > 0 && p.last() == '\r' {
        p.drop_last()
    } else {
        p
    }
}

pub fn lines(s: &[char]) -> (r: Vec<Vec<char>>)
    ensures
        chars_list(r@) == lines_of(s@),
{
    let mut out: Vec<Vec<char>> = split_at_char(s, '\n');
    let ghost pieces = split_on(s@, '\n');
    let last: Vec<char> = match out.pop() {
        Some(last) => last,
        None => Vec::new(),
    };
    assert(last@ == pieces.last());
    assert(chars_list(out@) =~= pieces.drop_last());
    let mut ended: Vec<Vec<char>> = Vec::new();
    let mut i: usize = 0;
    while i < out.len()
        invariant
            i <= out.len(),
            chars_list(out@) == pieces.drop_last(),
            chars_list(ended@) == pieces.drop_last().take(i as int).map_values(
                |p: Seq<char>| without_return(p),
            ),
        decreases out.len() - i,
    {
        let line: &Vec<char> = &out[i];
        assert(line@ == pieces.drop_last()[i as int]);
        let to: usize = if line.len() > 0 && line[line.len() - 1] == '\r' {
            line.len() - 1
        } else {
            line.len()
        };
        let kept: Vec<char> = copy_range(line.as_slice(), 0, to);
        assert(kept@ =~= without_return(line@));
        let ghost before = chars_list(ended@);
        let ghost text = kept@;
        ended.push(kept);
        i += 1;
        proof {
            lemma_prefix_step(pieces.drop_last(), i - 1);
        }
        assert(chars_list(ended@) =~= before.push(text));
        assert(pieces.drop_last().take(i as int) =~= pieces.drop_last().take(i - 1).push(
            pieces.drop_last()[i - 1],
        ));
        assert(chars_list(ended@) =~= pieces.drop_last().take(i as int).map_values(
            |p: Seq<char>| without_return(p),
        ));
    }
    assert(pieces.drop_last().take(i as int) =~= pieces.drop_last());
    if last.len() > 0 {
        let ghost before = ended@;
        ended.push(last);
        assert(chars_list(ended@) =~= chars_list(before).push(last@));
    }
    ended
}

// ------------------------------------------------------------------- joining

/// Texts one after another, with a separator between each and the next.
pub open spec fn joined(parts: Seq<Seq<char>>, separator: Seq<char>) -> Seq<char>
    decreases parts.len(),
{
    if parts.len() == 0 {
        Seq::empty()
    } else if parts.len() == 1 {
        parts[0]
    } else {
        joined(parts.drop_last(), separator) + separator + parts.last()
    }
}

pub fn push_all(out: &mut Vec<char>, more: &[char])
    ensures
        final(out)@ == old(out)@ + more@,
{
    let mut i: usize = 0;
    assert(more@.take(0) =~= Seq::<char>::empty());
    assert(old(out)@ + more@.take(0) =~= old(out)@);
    while i < more.len()
        invariant
            i <= more.len(),
            out@ == old(out)@ + more@.take(i as int),
        decreases more.len() - i,
    {
        out.push(more[i]);
        i += 1;
        assert(more@.take(i as int) =~= more@.take(i - 1).push(more@[i - 1]));
        assert(out@ =~= old(out)@ + more@.take(i as int));
    }
    assert(more@.take(i as int) =~= more@);
}

pub fn join(parts: &[Vec<char>], separator: &[char]) -> (r: Vec<char>)
    ensures
        r@ == joined(chars_list(parts@), separator@),
{
    let mut out: Vec<char> = Vec::new();
    let mut i: usize = 0;
    let ghost all = chars_list(parts@);
    while i < parts.len()
        invariant
            i <= parts.len(),
            all == chars_list(parts@),
            out@ == joined(all.take(i as int), separator@),
        decreases parts.len() - i,
    {
        if i > 0 {
            push_all(&mut out, separator);
        }
        push_all(&mut out, parts[i].as_slice());
        i += 1;
        proof {
            lemma_prefix_step(all, i - 1);
            if i == 1 {
                assert(out@ =~= all[0]);
            } else {
                assert(out@ =~= joined(all.take(i - 1), separator@) + separator@ + all[i - 1]);
            }
        }
    }
    assert(all.take(i as int) =~= all);
    out
}

pub fn join_texts(parts: &[String], separator: &str) -> (r: String)
    ensures
        r@ == joined(texts(parts@), separator@),
{
    let mut out: String = String::new();
    let mut i: usize = 0;
    let ghost all = texts(parts@);
    while i < parts.len()
        invariant
            i <= parts.len(),
            all == texts(parts@),
            out@ == joined(all.take(i as int), separator@),
        decreases parts.len() - i,
    {
        if i > 0 {
            out.push_str(separator);
        }
        out.push_str(parts[i].as_str());
        i += 1;
        proof {
            lemma_prefix_step(all, i - 1);
            if i == 1 {
                assert(out@ =~= all[0]);
            } else {
                assert(out@ =~= joined(all.take(i - 1), separator@) + separator@ + all[i - 1]);
            }
        }
    }
    assert(all.take(i as int) =~= all);
    out
}

/// Text that a word was read from ends in that word.
pub proof fn lemma_fields_word(before: Seq<char>, word: Seq<char>)
    requires
        fields(before).1.len() == 0,
        forall|i: int| 0 <= i < word.len() ==> !whitespace(#[trigger] word[i]),
    ensures
        fields(before + word).0 == fields(before).0,
        fields(before + word).1 == word,
    decreases word.len(),
{
    if word.len() == 0 {
        assert(before + word =~= before);
        assert(fields(before).1 =~= word);
    } else {
        let front = word.drop_last();
        assert forall|i: int| 0 <= i < front.len() implies !whitespace(#[trigger] front[i]) by {
            assert(front[i] == word[i]);
        }
        lemma_fields_word(before, front);
        assert((before + word).drop_last() =~= before + front);
        assert((before + word).last() == word.last());
        assert(!whitespace(word[word.len() - 1]));
        assert(front.push(word.last()) =~= word);
    }
}

/// A space and a word after a text add that word to its words.
pub proof fn lemma_split_push(before: Seq<char>, word: Seq<char>)
    requires
        is_word(word),
    ensures
        split_whitespace(before + " "@ + word) == split_whitespace(before).push(word),
        split_whitespace(word) == seq![word],
{
    reveal_strlit(" ");
    let gap = before + " "@;
    assert(gap.drop_last() =~= before);
    assert(gap.last() == ' ');
    assert(fields(gap).1 =~= Seq::empty());
    assert(fields(gap).0 =~= split_whitespace(before));
    lemma_fields_word(gap, word);
    assert(gap + word =~= before + " "@ + word);
    lemma_fields_word(Seq::empty(), word);
    assert(Seq::<char>::empty() + word =~= word);
    assert(fields(word).0 =~= Seq::empty());
    assert(split_whitespace(word) =~= seq![word]);
}

/// Text that follows white space, or nothing, adds its own words to those
/// before it.
pub proof fn lemma_fields_append(before: Seq<char>, rest: Seq<char>)
    requires
        fields(before).1.len() == 0,
    ensures
        fields(before + rest).0 == fields(before).0 + fields(rest).0,
        fields(before + rest).1 == fields(rest).1,
    decreases rest.len(),
{
    if rest.len() == 0 {
        assert(before + rest =~= before);
        assert(fields(before).1 =~= fields(rest).1);
        assert(fields(before).0 + fields(rest).0 =~= fields(before).0);
    } else {
        lemma_fields_append(before, rest.drop_last());
        assert((before + rest).drop_last() =~= before + rest.drop_last());
        assert((before + rest).last() == rest.last());
        assert(fields(before + rest).0 =~= fields(before).0 + fields(rest).0);
    }
}

/// White space around a text is no part of its words.
pub proof fn lemma_split_trimmed(s: Seq<char>)
    ensures
        split_whitespace(trimmed(s)) == split_whitespace(s),
{
    lemma_split_trim_back(trim_front(s, is_space()));
    lemma_split_trim_front(s);
}

proof fn lemma_split_trim_back(s: Seq<char>)
    ensures
        split_whitespace(trim_back(s, is_space())) == split_whitespace(s),
    decreases s.len(),
{
    if s.len() > 0 && whitespace(s.last()) {
        lemma_split_trim_back(s.drop_last());
        assert(split_whitespace(s) =~= split_whitespace(s.drop_last()));
    }
}

proof fn lemma_split_trim_front(s: Seq<char>)
    ensures
        split_whitespace(trim_front(s, is_space())) == split_whitespace(s),
    decreases s.len(),
{
    if s.len() > 0 && whitespace(s[0]) {
        let rest = s.skip(1);
        lemma_split_trim_front(rest);
        let gap = seq![s[0]];
        reveal_with_fuel(fields, 2);
        assert(gap.drop_last() =~= Seq::empty());
        lemma_fields_append(gap, rest);
        assert(gap + rest =~= s);
        assert(fields(gap).0 + fields(rest).0 =~= fields(rest).0);
    }
}

/// Words joined by spaces are read back as those words.
pub proof fn lemma_split_joined(words: Seq<Seq<char>>)
    requires
        forall|i: int| 0 <= i < words.len() ==> is_word(#[trigger] words[i]),
    ensures
        split_whitespace(joined(words, " "@)) == words,
    decreases words.len(),
{
    if words.len() == 0 {
        assert(split_whitespace(joined(words, " "@)) =~= words);
    } else if words.len() == 1 {
        lemma_split_push(Seq::empty(), words[0]);
        assert(seq![words[0]] =~= words);
    } else {
        let front = words.drop_last();
        assert forall|i: int| 0 <= i < front.len() implies is_word(#[trigger] front[i]) by {
            assert(front[i] == words[i]);
        }
        lemma_split_joined(front);
        assert(is_word(words[words.len() - 1]));
        lemma_split_push(joined(front, " "@), words.last());
        assert(front.push(words.last()) =~= words);
    }
}

pub proof fn lemma_joined_push(parts: Seq<Seq<char>>, last: Seq<char>, separator: Seq<char>)
    ensures
        joined(parts.push(last), separator) == if parts.len() == 0 {
            last
        } else {
            joined(parts, separator) + separator + last
        },
{
    assert(parts.push(last).drop_last() =~= parts);
}

/// The pieces of a text, put together again with what parted them, are the text.
pub proof fn lemma_joined_pieces(s: Seq<char>, separator: char)
    ensures
        joined(split_on(s, separator), seq![separator]) == s,
    decreases s.len(),
{
    if s.len() == 0 {
        assert(joined(split_on(s, separator), seq![separator]) =~= s);
    } else {
        let front = s.drop_last();
        lemma_joined_pieces(front, separator);
        lemma_split_on_nonempty(front, separator);
        let before = split_on(front, separator);
        if s.last() == separator {
            lemma_joined_push(before, Seq::empty(), seq![separator]);
            assert(front + seq![separator] + Seq::empty() =~= s);
        } else {
            let c = s.last();
            let early = before.drop_last();
            assert(before =~= early.push(before.last()));
            if early.len() == 0 {
                assert(early.push(before.last().push(c)) =~= seq![before.last().push(c)]);
                assert(joined(before, seq![separator]) == before.last());
                assert(front.push(c) =~= s);
            } else {
                lemma_joined_push(early, before.last(), seq![separator]);
                lemma_joined_push(early, before.last().push(c), seq![separator]);
                let head = joined(early, seq![separator]) + seq![separator];
                assert(head + before.last() == front);
                assert(head + before.last().push(c) =~= (head + before.last()).push(c));
                assert(front.push(c) =~= s);
            }
        }
    }
}

/// One character, so many times over.
pub open spec fn repeated(c: char, times: nat) -> Seq<char> {
    Seq::new(times, |i: int| c)
}

pub fn push_repeated(out: &mut String, c: char, times: usize)
    ensures
        final(out)@ == old(out)@ + repeated(c, times as nat),
{
    let mut i: usize = 0;
    assert(old(out)@ + repeated(c, 0) =~= old(out)@);
    while i < times
        invariant
            i <= times,
            out@ == old(out)@ + repeated(c, i as nat),
        decreases times - i,
    {
        out.push(c);
        i += 1;
        assert(out@ =~= old(out)@ + repeated(c, i as nat));
    }
}

/// A text without one character, wherever it stands.
pub fn remove_char(s: &str, unwanted: char) -> (r: String)
    ensures
        r@ == s@.filter(|c: char| c != unwanted),
{
    let chars: Vec<char> = chars_of(s);
    let mut out: String = String::new();
    let mut i: usize = 0;
    let ghost keep = |c: char| c != unwanted;
    assert(chars@.take(0) =~= Seq::<char>::empty());
    proof {
        reveal(Seq::filter);
    }
    while i < chars.len()
        invariant
            i <= chars.len(),
            keep == (|c: char| c != unwanted),
            out@ == chars@.take(i as int).filter(keep),
        decreases chars.len() - i,
    {
        proof {
            lemma_prefix_step(chars@, i as int);
            reveal(Seq::filter);
        }
        if chars[i] != unwanted {
            out.push(chars[i]);
        }
        i += 1;
    }
    assert(chars@.take(i as int) =~= chars@);
    out
}

// ------------------------------------------------------------------- numbers

/// The character for one decimal digit.
pub open spec fn digit_char(d: nat) -> char {
    (48 + d) as char
}

/// A number in decimal, without leading zeros.
pub open spec fn decimal(n: nat) -> Seq<char>
    decreases n,
{
    if n < 10 {
        seq![digit_char(n)]
    } else {
        decimal(n / 10).push(digit_char(n % 10))
    }
}

pub fn push_decimal(out: &mut String, n: u64)
    ensures
        final(out)@ == old(out)@ + decimal(n as nat),
    decreases n,
{
    if n >= 10 {
        push_decimal(out, n / 10);
    }
    let d: u8 = (n % 10) as u8;
    out.push((48 + d) as char);
    assert(final(out)@ =~= old(out)@ + decimal(n as nat));
}

pub open spec fn is_digit(c: char) -> bool {
    '0' <= c <= '9'
}

pub open spec fn digit_value(c: char) -> int {
    (c as u32) - 48
}

/// The number a run of decimal digits stands for.
pub open spec fn digits_value(s: Seq<char>) -> int
    decreases s.len(),
{
    if s.len() == 0 {
        0
    } else {
        digits_value(s.drop_last()) * 10 + digit_value(s.last())
    }
}

pub open spec fn all_digits(s: Seq<char>) -> bool {
    forall|i: int| 0 <= i < s.len() ==> is_digit(#[trigger] s[i])
}

/// One or more decimal digits and nothing else.
pub open spec fn is_number(s: Seq<char>) -> bool {
    s.len() > 0 && all_digits(s)
}

pub fn read_digits(s: &[char]) -> (r: Option<u64>)
    ensures
        r is Some <==> is_number(s@) && digits_value(s@) <= u64::MAX,
        r matches Some(v) ==> v == digits_value(s@),
{
    if s.len() == 0 {
        return None;
    }
    let mut total: u64 = 0;
    let mut over: bool = false;
    let mut i: usize = 0;
    while i < s.len()
        invariant
            i <= s.len(),
            forall|j: int| 0 <= j < i ==> is_digit(#[trigger] s@[j]),
            !over ==> total == digits_value(s@.take(i as int)),
            over ==> digits_value(s@.take(i as int)) > u64::MAX,
        decreases s.len() - i,
    {
        let c: char = s[i];
        if c < '0' || c > '9' {
            return None;
        }
        proof {
            lemma_prefix_step(s@, i as int);
        }
        let d: u64 = (c as u8 - 48) as u64;
        if over {
        } else if total > (u64::MAX - d) / 10 {
            over = true;
        } else {
            total = total * 10 + d;
        }
        i += 1;
    }
    assert(s@.take(i as int) =~= s@);
    if over {
        None
    } else {
        Some(total)
    }
}

/// Digits stand for the number they were written for.
pub proof fn lemma_decimal(n: nat)
    ensures
        is_number(decimal(n)),
        digits_value(decimal(n)) == n,
        all_digits(decimal(n)),
    decreases n,
{
    let s = decimal(n);
    if n >= 10 {
        lemma_decimal(n / 10);
        assert(s.drop_last() =~= decimal(n / 10));
    } else {
        assert(s.drop_last() =~= Seq::empty());
        assert(digits_value(s.drop_last()) == 0);
    }
    assert(is_digit(digit_char(n % 10)));
    assert(digit_value(s.last()) == n % 10);
}

/// A text that neither begins nor ends with space is trimmed already.
pub proof fn lemma_trimmed_already(s: Seq<char>)
    requires
        s.len() > 0,
        !whitespace(s[0]),
        !whitespace(s.last()),
    ensures
        trimmed(s) == s,
{
}

/// A number that was written out is read back.
pub proof fn lemma_written_number(n: nat, greatest: int)
    requires
        n <= greatest,
    ensures
        unsigned_value(trimmed(decimal(n)), greatest) == Some(n as int),
{
    lemma_decimal(n);
    let s = decimal(n);
    assert(is_digit(s[0]) && is_digit(s.last()));
    lemma_trimmed_already(s);
}

/// The number an unsigned literal stands for: decimal digits, with or without
/// a plus sign before them, and no more than the given greatest value.
pub open spec fn unsigned_value(s: Seq<char>, greatest: int) -> Option<int> {
    let digits = if s.len() > 0 && s[0] == '+' {
        s.skip(1)
    } else {
        s
    };
    if is_number(digits) && digits_value(digits) <= greatest {
        Some(digits_value(digits))
    } else {
        None
    }
}

/// The number a signed literal stands for: decimal digits, with or without a
/// sign before them, within the range of an `i64`.
pub open spec fn signed_value(s: Seq<char>) -> Option<int> {
    if s.len() > 0 && s[0] == '-' {
        let digits = s.skip(1);
        if is_number(digits) && -digits_value(digits) >= i64::MIN {
            Some(-digits_value(digits))
        } else {
            None
        }
    } else {
        unsigned_value(s, i64::MAX as int)
    }
}

pub fn parse_u64(s: &[char]) -> (r: Option<u64>)
    ensures
        match unsigned_value(s@, u64::MAX as int) {
            Some(v) => r == Some(v as u64) && 0 <= v <= u64::MAX,
            None => r is None,
        },
{
    if s.len() > 0 && s[0] == '+' {
        let rest: Vec<char> = copy_range(s, 1, s.len());
        assert(rest@ =~= s@.skip(1));
        read_digits(rest.as_slice())
    } else {
        read_digits(s)
    }
}

pub fn parse_u32(s: &[char]) -> (r: Option<u32>)
    ensures
        match unsigned_value(s@, u32::MAX as int) {
            Some(v) => r == Some(v as u32) && 0 <= v <= u32::MAX,
            None => r is None,
        },
{
    match parse_u64(s) {
        Some(v) => if v <= u32::MAX as u64 {
            Some(v as u32)
        } else {
            None
        },
        None => None,
    }
}

pub fn parse_i64(s: &[char]) -> (r: Option<i64>)
    ensures
        match signed_value(s@) {
            Some(v) => r == Some(v as i64) && i64::MIN <= v <= i64::MAX,
            None => r is None,
        },
{
    if s.len() > 0 && s[0] == '-' {
        let rest: Vec<char> = copy_range(s, 1, s.len());
        assert(rest@ =~= s@.skip(1));
        match read_digits(rest.as_slice()) {
            Some(v) => if v <= i64::MAX as u64 {
                Some(-(v as i64))
            } else if v == i64::MAX as u64 + 1 {
                Some(i64::MIN)
            } else {
                None
            },
            None => None,
        }
    } else {
        match parse_u64(s) {
            Some(v) => if v <= i64::MAX as u64 {
                Some(v as i64)
            } else {
                None
            },
            None => None,
        }
    }
}

// ------------------------------------------------------------- lists of text

/// How many bytes a text takes in UTF-8.
pub open spec fn byte_len(s: Seq<char>) -> nat {
    vstd::utf8::encode_utf8(s).len()
}

pub fn count_bytes(s: &str) -> (r: usize)
    ensures
        r == byte_len(s@),
{
    s.as_bytes().len()
}

/// The same lists of characters, as texts.
pub fn to_texts(list: &[Vec<char>]) -> (r: Vec<String>)
    ensures
        texts(r@) == chars_list(list@),
{
    let mut out: Vec<String> = Vec::new();
    let mut i: usize = 0;
    while i < list.len()
        invariant
            i <= list.len(),
            texts(out@) == chars_list(list@).take(i as int),
        decreases list.len() - i,
    {
        push_text(&mut out, text_of(list[i].as_slice()));
        i += 1;
        assert(texts(out@) =~= chars_list(list@).take(i as int));
    }
    assert(chars_list(list@).take(i as int) =~= chars_list(list@));
    out
}

pub fn push_text(out: &mut Vec<String>, text: String)
    ensures
        final(out)@ == old(out)@.push(text),
        texts(final(out)@) == texts(old(out)@).push(text@),
{
    out.push(text);
    assert(texts(out@) =~= texts(old(out)@).push(text@));
}

pub fn split_text(s: &str, separator: char) -> (r: Vec<String>)
    ensures
        texts(r@) == split_on(s@, separator),
        r.len() > 0,
{
    let pieces: Vec<Vec<char>> = split_at_char(chars_of(s).as_slice(), separator);
    assert(chars_list(pieces@).len() == pieces@.len());
    let r: Vec<String> = to_texts(pieces.as_slice());
    assert(texts(r@).len() == r@.len());
    r
}

pub fn words_of_text(s: &str) -> (r: Vec<String>)
    ensures
        texts(r@) == split_whitespace(s@),
{
    to_texts(words_of(chars_of(s).as_slice()).as_slice())
}

pub fn copy_texts(list: &[String]) -> (r: Vec<String>)
    ensures
        texts(r@) == texts(list@),
{
    let mut out: Vec<String> = Vec::new();
    let mut i: usize = 0;
    while i < list.len()
        invariant
            i <= list.len(),
            texts(out@) == texts(list@).take(i as int),
        decreases list.len() - i,
    {
        push_text(&mut out, list[i].clone());
        i += 1;
        assert(texts(out@) =~= texts(list@).take(i as int));
    }
    assert(texts(list@).take(i as int) =~= texts(list@));
    out
}

// ------------------------------------------------------------------ ordering

/// Whether one text stands before another, by code point.
pub open spec fn precedes(a: Seq<char>, b: Seq<char>) -> bool
    decreases a.len(),
{
    if b.len() == 0 {
        false
    } else if a.len() == 0 {
        true
    } else if a[0] != b[0] {
        a[0] < b[0]
    } else {
        precedes(a.skip(1), b.skip(1))
    }
}

pub fn comes_before(a: &[char], b: &[char]) -> (r: bool)
    ensures
        r == precedes(a@, b@),
{
    let mut i: usize = 0;
    assert(a@.skip(0) =~= a@);
    assert(b@.skip(0) =~= b@);
    while i < a.len() && i < b.len()
        invariant
            i <= a.len(),
            i <= b.len(),
            precedes(a@, b@) == precedes(a@.skip(i as int), b@.skip(i as int)),
        decreases a.len() - i,
    {
        assert(a@.skip(i as int)[0] == a@[i as int]);
        assert(b@.skip(i as int)[0] == b@[i as int]);
        if a[i] != b[i] {
            return a[i] < b[i];
        }
        assert(a@.skip(i as int).skip(1) =~= a@.skip(i + 1));
        assert(b@.skip(i as int).skip(1) =~= b@.skip(i + 1));
        i += 1;
    }
    i < b.len()
}

pub proof fn lemma_precedes_transitive(a: Seq<char>, b: Seq<char>, c: Seq<char>)
    requires
        precedes(a, b),
        precedes(b, c),
    ensures
        precedes(a, c),
    decreases a.len(),
{
    if a.len() > 0 && b.len() > 0 && c.len() > 0 && a[0] == b[0] && b[0] == c[0] {
        lemma_precedes_transitive(a.skip(1), b.skip(1), c.skip(1));
    }
}

/// Of two different texts one stands before the other, and never both.
pub proof fn lemma_precedes_total(a: Seq<char>, b: Seq<char>)
    ensures
        a == b || precedes(a, b) || precedes(b, a),
        precedes(a, b) ==> a != b && !precedes(b, a),
    decreases a.len(),
{
    if a.len() > 0 && b.len() > 0 && a[0] == b[0] {
        lemma_precedes_total(a.skip(1), b.skip(1));
        if a.skip(1) == b.skip(1) {
            assert(a =~= b) by {
                assert forall|i: int| 0 <= i < a.len() implies a[i] == b[i] by {
                    if i > 0 {
                        assert(a[i] == a.skip(1)[i - 1]);
                        assert(b[i] == b.skip(1)[i - 1]);
                    }
                }
            }
        }
    } else if a.len() == 0 && b.len() == 0 {
        assert(a =~= b);
    }
}

/// What does not stand before a text that does not stand before another does not
/// stand before that other.
pub proof fn lemma_precedes_order(a: Seq<char>, b: Seq<char>, c: Seq<char>)
    requires
        !precedes(a, b),
        !precedes(b, c),
    ensures
        !precedes(a, c),
{
    lemma_precedes_total(a, b);
    lemma_precedes_total(b, c);
    lemma_precedes_total(a, c);
    if precedes(a, c) && a != b && b != c {
        lemma_precedes_transitive(c, b, a);
    }
}

} // verus!
