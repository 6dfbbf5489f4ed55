//! Finding the proxy a church's network requires.
//!
//! Browsers read the proxy configured in the system's settings, and the speech
//! bridge does not. It honours `HTTPS_PROXY`, so what is found here is handed
//! to it. An operator who has set the variable themselves is believed and left
//! alone: an explicit setting beats anything discovered.

use crate::text::{
    begins, blank, chars_list, chars_of, contains, copy_range, has, is_blank, lemma_split_on_one,
    lemma_split_on_piece, lemma_trimmed_already, lines, lines_of, same_text, split_at_char,
    split_on, split_whitespace, starts_with, text_contains, text_of, trim, trim_text, trimmed,
    whitespace, words_of,
};
use vstd::prelude::*;

verus! {

/// The variables that may name a proxy, the one that is believed first in front.
pub open spec fn variable_names() -> Seq<Seq<char>> {
    seq!["HTTPS_PROXY"@, "https_proxy"@, "ALL_PROXY"@, "all_proxy"@]
}

/// The variables that may name a proxy, the one that is believed first in front.
pub fn variables() -> (r: Vec<&'static str>)
    ensures
        r@.map_values(|name: &'static str| name@) == variable_names(),
{
    let names: Vec<&'static str> = vec!["HTTPS_PROXY", "https_proxy", "ALL_PROXY", "all_proxy"];
    assert(names@.map_values(|name: &'static str| name@) =~= variable_names());
    names
}

/// The first setting that is not blank, from the `i`th on.
pub open spec fn first_set(settings: Seq<Option<String>>, i: int) -> Option<Seq<char>>
    decreases settings.len() - i,
{
    if i < 0 || i >= settings.len() {
        None
    } else {
        match settings[i] {
            Some(value) if !blank(value@) => Some(trimmed(value@)),
            _ => first_set(settings, i + 1),
        }
    }
}

/// The proxy to use for outbound HTTPS, if there is one: the first setting of
/// the environment's that is not blank, or else what the system itself is
/// configured to use. The settings are those of the `variables`, in their order.
pub fn https_proxy(settings: &[Option<String>], system: Option<String>) -> (r: Option<String>)
    ensures
        match first_set(settings@, 0) {
            Some(value) => r matches Some(proxy) && proxy@ == value,
            None => r == system,
        },
{
    let mut i: usize = 0;
    while i < settings.len()
        invariant
            i <= settings.len(),
            first_set(settings@, 0) == first_set(settings@, i as int),
        decreases settings.len() - i,
    {
        if let Some(value) = &settings[i] {
            if !is_blank(value.as_str()) {
                return Some(trim_text(value.as_str()));
            }
        }
        i += 1;
    }
    system
}

// ------------------------------------------------------------------ registry

/// The first line that names a value, from the `i`th on.
pub open spec fn line_naming(
    lines: Seq<Seq<char>>,
    name: Seq<char>,
    i: int,
) -> Option<Seq<char>>
    decreases lines.len() - i,
{
    if i < 0 || i >= lines.len() {
        None
    } else if contains(lines[i], name) {
        Some(lines[i])
    } else {
        line_naming(lines, name, i + 1)
    }
}

/// A value as `reg query` prints it: the last word of the line that names it.
pub open spec fn value_in(text: Seq<char>, name: Seq<char>) -> Option<Seq<char>> {
    match line_naming(lines_of(text), name, 0) {
        Some(line) => {
            let words = split_whitespace(line);
            if words.len() == 0 {
                None
            } else {
                Some(words.last())
            }
        },
        None => None,
    }
}

/// A value as `reg query` prints it, e.g.
/// `    ProxyServer    REG_SZ    proxy.church.local:8080`.
pub fn registry_value(text: &str, name: &str) -> (r: Option<String>)
    ensures
        match value_in(text@, name@) {
            Some(value) => r matches Some(found) && found@ == value,
            None => r is None,
        },
{
    let all: Vec<Vec<char>> = lines(chars_of(text).as_slice());
    let wanted: Vec<char> = chars_of(name);
    let ghost listed = lines_of(text@);
    let mut i: usize = 0;
    while i < all.len()
        invariant
            i <= all.len(),
            wanted@ == name@,
            listed == lines_of(text@),
            chars_list(all@) == listed,
            line_naming(listed, name@, 0) == line_naming(listed, name@, i as int),
        decreases all.len() - i,
    {
        assert(chars_list(all@)[i as int] == all@[i as int]@);
        if has(all[i].as_slice(), wanted.as_slice()) {
            let words: Vec<Vec<char>> = words_of(all[i].as_slice());
            assert(chars_list(words@).len() == words@.len());
            if words.len() == 0 {
                return None;
            }
            assert(chars_list(words@).last() == words@.last()@);
            return Some(text_of(words[words.len() - 1].as_slice()));
        }
        i += 1;
    }
    assert(chars_list(all@).len() == all@.len());
    None
}

/// The first part that begins with a prefix, without it, from the `i`th on.
pub open spec fn entry_for(
    parts: Seq<Seq<char>>,
    prefix: Seq<char>,
    i: int,
) -> Option<Seq<char>>
    decreases parts.len() - i,
{
    if i < 0 || i >= parts.len() {
        None
    } else if starts_with(trimmed(parts[i]), prefix) {
        Some(trimmed(parts[i]).skip(prefix.len() as int))
    } else {
        entry_for(parts, prefix, i + 1)
    }
}

/// The address to use of a server setting, which is one address for everything
/// or a list by protocol: the https entry wins where there is one.
pub open spec fn chosen(server: Seq<char>) -> Seq<char> {
    let parts = split_on(server, ';');
    match entry_for(parts, "https="@, 0) {
        Some(address) => address,
        None => match entry_for(parts, "http="@, 0) {
            Some(address) => address,
            None => trimmed(server),
        },
    }
}

/// The proxy that the system's settings name, given the two values that name
/// it. Configured but switched off is no proxy.
pub open spec fn system_proxy(
    enable: Option<Seq<char>>,
    server: Option<Seq<char>>,
) -> Option<Seq<char>> {
    match (enable, server) {
        (Some(enable), Some(server)) => if enable != "0x1"@ || blank(server) || chosen(server).len()
            == 0 {
            None
        } else if contains(chosen(server), "://"@) {
            Some(chosen(server))
        } else {
            Some("http://"@ + chosen(server))
        },
        _ => None,
    }
}

fn entry(parts: &[Vec<char>], prefix: &str) -> (r: Option<Vec<char>>)
    ensures
        match entry_for(chars_list(parts@), prefix@, 0) {
            Some(address) => r matches Some(found) && found@ == address,
            None => r is None,
        },
{
    let wanted: Vec<char> = chars_of(prefix);
    let ghost listed = chars_list(parts@);
    let mut i: usize = 0;
    while i < parts.len()
        invariant
            i <= parts.len(),
            wanted@ == prefix@,
            listed == chars_list(parts@),
            entry_for(listed, prefix@, 0) == entry_for(listed, prefix@, i as int),
        decreases parts.len() - i,
    {
        let part: Vec<char> = trim(parts[i].as_slice());
        assert(listed[i as int] == parts@[i as int]@);
        if begins(part.as_slice(), wanted.as_slice()) {
            let rest: Vec<char> = copy_range(part.as_slice(), wanted.len(), part.len());
            assert(rest@ =~= part@.skip(wanted@.len() as int));
            return Some(rest);
        }
        i += 1;
    }
    None
}

/// What Windows itself is configured to use, given what `reg query` printed for
/// `ProxyEnable` and for `ProxyServer`, where it printed anything.
pub fn windows_proxy(enable: Option<&str>, server: Option<&str>) -> (r: Option<String>)
    ensures
        match system_proxy(
            match enable {
                Some(text) => value_in(text@, "ProxyEnable"@),
                None => None,
            },
            match server {
                Some(text) => value_in(text@, "ProxyServer"@),
                None => None,
            },
        ) {
            Some(proxy) => r matches Some(found) && found@ == proxy,
            None => r is None,
        },
{
    let switch: String = match enable {
        Some(text) => match registry_value(text, "ProxyEnable") {
            Some(value) => value,
            None => return None,
        },
        None => return None,
    };
    let server: String = match server {
        Some(text) => match registry_value(text, "ProxyServer") {
            Some(value) => value,
            None => return None,
        },
        None => return None,
    };
    if !same_text(switch.as_str(), "0x1") || is_blank(server.as_str()) {
        return None;
    }
    let parts: Vec<Vec<char>> = split_at_char(chars_of(server.as_str()).as_slice(), ';');
    let address: Vec<char> = match entry(parts.as_slice(), "https=") {
        Some(address) => address,
        None => match entry(parts.as_slice(), "http=") {
            Some(address) => address,
            None => trim(chars_of(server.as_str()).as_slice()),
        },
    };
    if address.len() == 0 {
        return None;
    }
    let address: String = text_of(address.as_slice());
    if text_contains(address.as_str(), "://") {
        Some(address)
    } else {
        let mut url: String = "http://".to_owned();
        url.push_str(address.as_str());
        Some(url)
    }
}

/// An explicit setting beats anything discovered, and a blank one is no
/// setting.
pub proof fn law_an_explicit_setting_wins(settings: Seq<Option<String>>, i: int)
    requires
        0 <= i < settings.len(),
        settings[i] matches Some(value) && !blank(value@),
        forall|k: int|
            0 <= k < i ==> (#[trigger] settings[k] matches Some(value) ==> blank(value@)),
    ensures
        first_set(settings, 0) == Some(trimmed(settings[i]->0@)),
{
    lemma_first_set(settings, i, 0);
}

proof fn lemma_first_set(settings: Seq<Option<String>>, i: int, j: int)
    requires
        0 <= j <= i < settings.len(),
        settings[i] matches Some(value) && !blank(value@),
        forall|k: int|
            0 <= k < i ==> (#[trigger] settings[k] matches Some(value) ==> blank(value@)),
    ensures
        first_set(settings, j) == Some(trimmed(settings[i]->0@)),
    decreases i - j,
{
    if j < i {
        assert(settings[j] matches Some(value) ==> blank(value@));
        lemma_first_set(settings, i, j + 1);
    }
}

/// Whether a text is an address as it may stand in a list: not empty, no space
/// at either end, and no semicolon.
pub open spec fn is_entry(address: Seq<char>) -> bool {
    &&& address.len() > 0
    &&& !whitespace(address[0])
    &&& !whitespace(address.last())
    &&& !address.contains(';')
}

proof fn lemma_entry(prefix: Seq<char>, address: Seq<char>)
    requires
        is_entry(address),
        prefix.len() > 0,
        !whitespace(prefix[0]),
        !prefix.contains(';'),
    ensures
        trimmed(prefix + address) == prefix + address,
        starts_with(prefix + address, prefix),
        (prefix + address).skip(prefix.len() as int) == address,
        !(prefix + address).contains(';'),
{
    let whole = prefix + address;
    assert(whole[0] == prefix[0]);
    assert(whole.last() == address.last());
    lemma_trimmed_already(whole);
    assert(whole.subrange(0, prefix.len() as int) =~= prefix);
    assert(whole.skip(prefix.len() as int) =~= address);
    if whole.contains(';') {
        let k = choose|k: int| 0 <= k < whole.len() && whole[k] == ';';
        if k < prefix.len() {
            assert(prefix.contains(prefix[k]));
        } else {
            assert(address.contains(address[k - prefix.len()]));
        }
    }
}

/// Of a list by protocol the https entry is the one that is used, whichever way
/// round they stand; with no https entry it is the http one.
pub proof fn law_the_https_entry_wins(plain: Seq<char>, secure: Seq<char>)
    requires
        is_entry(plain),
        is_entry(secure),
    ensures
        chosen("http="@ + plain + seq![';'] + "https="@ + secure) == secure,
        chosen("https="@ + secure + seq![';'] + "http="@ + plain) == secure,
        chosen("http="@ + plain) == plain,
        chosen("https="@ + secure) == secure,
{
    reveal_strlit("http=");
    reveal_strlit("https=");
    let h = "http="@;
    let s = "https="@;
    assert(h[4] == '=' && s[4] == 's');
    assert(!h.contains(';') && !s.contains(';'));
    lemma_entry(h, plain);
    lemma_entry(s, secure);
    let a = h + plain;
    let b = s + secure;
    if starts_with(a, s) {
        assert(a.subrange(0, 6)[4] == a[4]);
    }
    if starts_with(b, h) {
        assert(b.subrange(0, 5)[4] == b[4]);
    }
    lemma_split_on_one(a, ';');
    lemma_split_on_one(b, ';');
    lemma_split_on_piece(a, b, ';');
    lemma_split_on_piece(b, a, ';');
    assert(a + seq![';'] + b =~= "http="@ + plain + seq![';'] + "https="@ + secure);
    assert(b + seq![';'] + a =~= "https="@ + secure + seq![';'] + "http="@ + plain);
    let ab = seq![a].push(b);
    let ba = seq![b].push(a);
    assert(ab[0] == a && ab[1] == b);
    assert(entry_for(ab, s, 1) == Some(secure));
    assert(entry_for(ab, s, 0) == Some(secure));
    assert(entry_for(ba, s, 0) == Some(secure));
    let only = seq![a];
    assert(only[0] == a);
    assert(entry_for(only, s, 1) is None);
    assert(entry_for(only, s, 0) is None);
    assert(entry_for(only, h, 0) == Some(plain));
    let last = seq![b];
    assert(last[0] == b);
    assert(entry_for(last, s, 0) == Some(secure));
}

/// A proxy that is switched on is used, over http where it names no scheme of its
/// own; one that is switched off is not.
pub proof fn law_a_proxy_is_used_when_switched_on(enable: Seq<char>, server: Seq<char>)
    requires
        is_entry(server),
        !starts_with(server, "http="@),
        !starts_with(server, "https="@),
    ensures
        system_proxy(Some(enable), Some(server)) == if enable != "0x1"@ {
            None::<Seq<char>>
        } else if contains(server, "://"@) {
            Some(server)
        } else {
            Some("http://"@ + server)
        },
{
    lemma_trimmed_already(server);
    lemma_split_on_one(server, ';');
    let only = seq![server];
    assert(only[0] == server);
    assert(entry_for(only, "https="@, 1) is None);
    assert(entry_for(only, "https="@, 0) is None);
    assert(entry_for(only, "http="@, 1) is None);
    assert(entry_for(only, "http="@, 0) is None);
}

/// A value is the last word of the first line that names it, wherever that line
/// stands.
pub proof fn law_a_value_is_the_last_word_of_its_line(
    text: Seq<char>,
    name: Seq<char>,
    i: int,
    words: Seq<Seq<char>>,
    value: Seq<char>,
)
    requires
        0 <= i < lines_of(text).len(),
        contains(lines_of(text)[i], name),
        forall|k: int| 0 <= k < i ==> !contains(#[trigger] lines_of(text)[k], name),
        split_whitespace(lines_of(text)[i]) == words.push(value),
    ensures
        value_in(text, name) == Some(value),
{
    lemma_line_naming(lines_of(text), name, i, 0);
    assert(words.push(value).last() == value);
}

proof fn lemma_line_naming(lines: Seq<Seq<char>>, name: Seq<char>, i: int, j: int)
    requires
        0 <= j <= i < lines.len(),
        contains(lines[i], name),
        forall|k: int| 0 <= k < i ==> !contains(#[trigger] lines[k], name),
    ensures
        line_naming(lines, name, j) == Some(lines[i]),
    decreases i - j,
{
    if j < i {
        assert(!contains(lines[j], name));
        lemma_line_naming(lines, name, i, j + 1);
    }
}

} // verus!
