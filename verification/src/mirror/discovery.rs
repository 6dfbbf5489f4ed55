//! Finding the desk on the network, and nothing more.
//!
//! An advertisement is public: anything on the network can read it, and nothing
//! in it is taken on faith.

use crate::order::{in_order, lemma_sorted, sort, sorted, views};
use crate::text::{
    ascii_alphanumeric, chars_of, comes_before, copy_range, is_ascii_alphanumeric, is_char,
    lemma_precedes_order, lemma_precedes_total, lemma_prefix_step, precedes, same_text, text_of,
    trim_back, trim_end_char,
};
use vstd::prelude::*;

verus! {

/// The service a desk is advertised as.
pub const SERVICE_TYPE: &'static str = "_castavox._tcp.local.";

/// How long a browse waits before giving up on an empty network, in seconds.
pub const BROWSE_TIMEOUT: u64 = 5;

/// The longest part of an id that an instance name carries.
pub const INSTANCE_ID_LENGTH: usize = 48;

/// An address a desk can be reached at.
#[derive(Debug, Clone, Copy, PartialEq, Eq, Structural)]
pub enum Address {
    V4(u32),
    V6(u128),
}

/// A desk somebody could mirror from.
#[derive(Debug, PartialEq, Eq)]
pub struct Peer {
    /// A stable identifier for this installation.
    pub id: String,
    /// What to call it on screen.
    pub name: String,
    /// "pulpitry" or "castavox".
    pub product: String,
    pub version: String,
    pub addresses: Vec<Address>,
    pub port: u16,
}

/// A desk as contracts speak of it.
pub struct Seen {
    pub id: Seq<char>,
    pub name: Seq<char>,
    pub product: Seq<char>,
    pub version: Seq<char>,
    pub addresses: Seq<Address>,
    pub port: u16,
}

impl View for Peer {
    type V = Seen;

    open spec fn view(&self) -> Seen {
        Seen {
            id: self.id@,
            name: self.name@,
            product: self.product@,
            version: self.version@,
            addresses: self.addresses@,
            port: self.port,
        }
    }
}

pub open spec fn seen(list: Seq<Peer>) -> Seq<Seen> {
    list.map_values(|p: Peer| p@)
}

/// What a browse reports.
#[derive(Debug, PartialEq, Eq)]
pub enum Discovery {
    Found(Peer),
    /// The full name of a service that was withdrawn or has expired.
    Lost(String),
}

/// The first IPv4 address, from the `i`th on.
pub open spec fn first_v4(addresses: Seq<Address>, i: int) -> Option<Address>
    decreases addresses.len() - i,
{
    if i < 0 || i >= addresses.len() {
        None
    } else if addresses[i] is V4 {
        Some(addresses[i])
    } else {
        first_v4(addresses, i + 1)
    }
}

/// Where to connect: the first IPv4 address, or the first of any kind.
pub open spec fn preferred(addresses: Seq<Address>) -> Option<Address> {
    match first_v4(addresses, 0) {
        Some(address) => Some(address),
        None => if addresses.len() > 0 {
            Some(addresses[0])
        } else {
            None
        },
    }
}

impl Peer {
    /// Where to connect, preferring IPv4.
    pub fn address(&self) -> (r: Option<Address>)
        ensures
            r == preferred(self.addresses@),
    {
        let mut i: usize = 0;
        while i < self.addresses.len()
            invariant
                i <= self.addresses.len(),
                first_v4(self.addresses@, 0) == first_v4(self.addresses@, i as int),
            decreases self.addresses.len() - i,
        {
            if let Address::V4(_) = self.addresses[i] {
                return Some(self.addresses[i]);
            }
            i += 1;
        }
        if self.addresses.len() > 0 {
            Some(self.addresses[0])
        } else {
            None
        }
    }
}

/// What a resolved service says of itself; a property it does not state is
/// empty.
pub struct Resolved {
    pub id: String,
    pub name: String,
    pub product: String,
    pub version: String,
    pub fullname: String,
    pub host: String,
    pub addresses: Vec<Address>,
    pub port: u16,
}

/// The desk a resolved service is. Without an id it is known by its full name,
/// without a name by its host.
pub fn peer_of(service: Resolved) -> (r: Peer)
    ensures
        r@ == (Seen {
            id: if service.id@.len() == 0 {
                service.fullname@
            } else {
                service.id@
            },
            name: if service.name@.len() == 0 {
                trim_back(service.host@, is_char('.'))
            } else {
                service.name@
            },
            product: service.product@,
            version: service.version@,
            addresses: service.addresses@,
            port: service.port,
        }),
{
    let id: String = if service.id.as_str().is_empty() {
        service.fullname
    } else {
        service.id
    };
    let name: String = if service.name.as_str().is_empty() {
        trim_end_char(service.host.as_str(), '.')
    } else {
        service.name
    };
    Peer {
        id,
        name,
        product: service.product,
        version: service.version,
        addresses: service.addresses,
        port: service.port,
    }
}

pub open spec fn is_seen(found: Seq<Seen>, id: Seq<char>) -> bool {
    exists|i: int| 0 <= i < found.len() && (#[trigger] found[i]).id == id
}

/// Notes a desk that was found. One seen twice appears once.
pub fn note(found: &mut Vec<Peer>, peer: Peer)
    ensures
        seen(final(found)@) == if is_seen(seen(old(found)@), peer.id@) {
            seen(old(found)@)
        } else {
            seen(old(found)@).push(peer@)
        },
{
    let ghost before = seen(found@);
    let mut i: usize = 0;
    while i < found.len()
        invariant
            i <= found.len(),
            found@ == old(found)@,
            before == seen(found@),
            forall|k: int| 0 <= k < i ==> (#[trigger] before[k]).id != peer.id@,
        decreases found.len() - i,
    {
        if same_text(found[i].id.as_str(), peer.id.as_str()) {
            assert(before[i as int].id == peer.id@);
            return;
        }
        i += 1;
    }
    found.push(peer);
    assert(seen(found@) =~= before.push(peer@));
}

/// Whether one desk's name precedes another's.
pub open spec fn name_before() -> spec_fn(Seen, Seen) -> bool {
    |a: Seen, b: Seen| precedes(a.name, b.name)
}

/// Desks in the order of their names, for a list somebody chooses from. Those
/// of one name keep theirs.
pub fn by_name(found: Vec<Peer>) -> (r: Vec<Peer>)
    ensures
        seen(r@) == sorted(seen(found@), name_before()),
{
    let ghost all = seen(found@);
    assert(views(found@) =~= all);
    let before = |a: &Peer, b: &Peer| -> (r: bool)
        ensures
            r == precedes(a@.name, b@.name),
        {
            comes_before(
                chars_of(a.name.as_str()).as_slice(),
                chars_of(b.name.as_str()).as_slice(),
            )
        };
    let ordered: Vec<Peer> = sort(found, before, Ghost(name_before()));
    assert(seen(ordered@) =~= views(ordered@));
    ordered
}

/// The list somebody chooses from is in the order of its names, and no desk is
/// lost from it.
pub proof fn law_desks_are_listed_by_name(list: Seq<Seen>)
    ensures
        in_order(sorted(list, name_before()), name_before()),
        sorted(list, name_before()).to_multiset() == list.to_multiset(),
{
    let before = name_before();
    assert forall|a: Seen, b: Seen| #[trigger] before(a, b) implies !before(b, a) by {
        lemma_precedes_total(a.name, b.name);
    }
    assert forall|a: Seen, b: Seen, c: Seen|
        !(#[trigger] before(a, b)) && !(#[trigger] before(b, c)) implies !before(a, c) by {
        lemma_precedes_order(a.name, b.name, c.name);
    }
    lemma_sorted(list, before);
}

/// What an instance label may hold.
pub open spec fn is_label_char(c: char) -> bool {
    ascii_alphanumeric(c) || c == '-'
}

/// The part of an id that fits a label.
pub open spec fn label_part(id: Seq<char>) -> Seq<char> {
    let kept = id.filter(|c: char| is_label_char(c));
    if kept.len() <= INSTANCE_ID_LENGTH {
        kept
    } else {
        kept.take(INSTANCE_ID_LENGTH as int)
    }
}

/// A DNS-SD instance label from an installation id.
pub open spec fn label_of(id: Seq<char>) -> Seq<char> {
    if label_part(id).len() == 0 {
        "castavox"@
    } else {
        "castavox-"@ + label_part(id)
    }
}

/// A DNS-SD instance label from an installation id: what is safe in it is kept
/// and the rest dropped.
pub fn instance_name(id: &str) -> (r: String)
    ensures
        r@ == label_of(id@),
{
    let chars: Vec<char> = chars_of(id);
    let ghost safe = |c: char| is_label_char(c);
    let mut kept: Vec<char> = Vec::new();
    let mut i: usize = 0;
    proof {
        reveal(Seq::filter);
    }
    assert(kept@ =~= chars@.take(0).filter(safe));
    while i < chars.len()
        invariant
            i <= chars.len(),
            safe == (|c: char| is_label_char(c)),
            kept@ == chars@.take(i as int).filter(safe),
        decreases chars.len() - i,
    {
        let c: char = chars[i];
        proof {
            lemma_prefix_step(chars@, i as int);
            reveal(Seq::filter);
        }
        if is_ascii_alphanumeric(c) || c == '-' {
            kept.push(c);
        }
        i += 1;
    }
    assert(chars@.take(i as int) =~= chars@);
    let shown: usize = if kept.len() <= INSTANCE_ID_LENGTH {
        kept.len()
    } else {
        INSTANCE_ID_LENGTH
    };
    let part: Vec<char> = copy_range(kept.as_slice(), 0, shown);
    assert(part@ =~= label_part(id@));
    if part.len() == 0 {
        "castavox".to_owned()
    } else {
        let mut out: String = "castavox-".to_owned();
        out.push_str(text_of(part.as_slice()).as_str());
        out
    }
}

/// Whatever the id is, the label holds nothing but letters, digits and hyphens,
/// is never empty, and fits a DNS label.
pub proof fn law_an_instance_name_is_a_label(id: Seq<char>)
    ensures
        0 < label_of(id).len() <= 63,
        forall|i: int| 0 <= i < label_of(id).len() ==> is_label_char(#[trigger] label_of(id)[i]),
{
    reveal_strlit("castavox");
    reveal_strlit("castavox-");
    let safe = |c: char| is_label_char(c);
    lemma_filtered(id, safe);
    let kept = id.filter(safe);
    assert forall|i: int| 0 <= i < label_of(id).len() implies is_label_char(
        #[trigger] label_of(id)[i],
    ) by {
        if label_part(id).len() > 0 && i >= 9 {
            assert(label_of(id)[i] == kept[i - 9]);
            assert(safe(kept[i - 9]));
        }
    }
}

proof fn lemma_filtered(s: Seq<char>, keep: spec_fn(char) -> bool)
    ensures
        forall|i: int| 0 <= i < s.filter(keep).len() ==> keep(#[trigger] s.filter(keep)[i]),
    decreases s.len(),
{
    reveal(Seq::filter);
    if s.len() > 0 {
        lemma_filtered(s.drop_last(), keep);
    }
}

/// A desk is reached at one of its own addresses: the first IPv4 one where it has
/// any, and otherwise the first.
pub proof fn law_an_ipv4_address_is_preferred(addresses: Seq<Address>)
    ensures
        addresses.len() == 0 ==> preferred(addresses) is None,
        addresses.len() > 0 ==> (preferred(addresses) matches Some(address) && exists|i: int|
            {
                &&& 0 <= i < addresses.len()
                &&& #[trigger] addresses[i] == address
                &&& address is V4 ==> forall|k: int| 0 <= k < i ==> addresses[k] !is V4
                &&& address !is V4 ==> i == 0 && forall|k: int|
                    0 <= k < addresses.len() ==> addresses[k] !is V4
            }),
{
    lemma_first_v4(addresses, 0);
    if addresses.len() > 0 && first_v4(addresses, 0) is None {
        assert(addresses[0] == preferred(addresses)->0);
    }
}

proof fn lemma_first_v4(addresses: Seq<Address>, i: int)
    requires
        0 <= i,
    ensures
        match first_v4(addresses, i) {
            Some(address) => exists|at: int|
                i <= at < addresses.len() && #[trigger] addresses[at] == address && address is V4
                    && forall|k: int| i <= k < at ==> addresses[k] !is V4,
            None => forall|k: int| i <= k < addresses.len() ==> addresses[k] !is V4,
        },
    decreases addresses.len() - i,
{
    if i < addresses.len() && addresses[i] !is V4 {
        lemma_first_v4(addresses, i + 1);
        if let Some(address) = first_v4(addresses, i + 1) {
            let at = choose|at: int|
                i + 1 <= at < addresses.len() && #[trigger] addresses[at] == address && address
                    is V4 && forall|k: int| i + 1 <= k < at ==> addresses[k] !is V4;
            assert(addresses[at] == address);
            assert forall|k: int| i <= k < at implies addresses[k] !is V4 by {}
        }
    } else if i < addresses.len() {
        assert(addresses[i] == first_v4(addresses, i)->0);
    }
}

proof fn lemma_all_kept(id: Seq<char>)
    requires
        forall|i: int| 0 <= i < id.len() ==> is_label_char(#[trigger] id[i]),
    ensures
        id.filter(|c: char| is_label_char(c)) == id,
    decreases id.len(),
{
    reveal(Seq::filter);
    if id.len() > 0 {
        let front = id.drop_last();
        assert forall|i: int| 0 <= i < front.len() implies is_label_char(#[trigger] front[i]) by {
            assert(front[i] == id[i]);
        }
        lemma_all_kept(front);
        assert(is_label_char(id[id.len() - 1]));
        assert(front.push(id.last()) =~= id);
    } else {
        assert(id.filter(|c: char| is_label_char(c)) =~= id);
    }
}

/// An id of letters, figures and hyphens is in the label as it is, as far as
/// forty-eight characters of it.
pub proof fn law_an_id_is_kept_in_its_label(id: Seq<char>)
    requires
        id.len() > 0,
        forall|i: int|
            0 <= i < id.len() ==> (('a' <= #[trigger] id[i] <= 'z') || ('A' <= id[i] <= 'Z') || (
            '0' <= id[i] <= '9') || id[i] == '-'),
    ensures
        id.len() <= 48 ==> label_of(id) == "castavox-"@ + id,
        id.len() > 48 ==> label_of(id) == "castavox-"@ + id.take(48),
{
    assert forall|i: int| 0 <= i < id.len() implies is_label_char(#[trigger] id[i]) by {}
    lemma_all_kept(id);
}

} // verus!
