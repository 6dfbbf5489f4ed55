//! Microphone capture: which device, and how it is asked to deliver.
//!
//! What is captured is streamed as mono 16 kHz 16-bit samples. Opening the
//! device and converting the samples is the platform's work; which device is
//! opened, and in which of its configurations, is decided here.

use crate::text::{lemma_prefix_step, same_text};
use vstd::prelude::*;

verus! {

/// The recogniser is fed 16 kHz, 16-bit, single-channel samples.
pub const TARGET_SAMPLE_RATE: u32 = 16_000;

#[derive(Debug, PartialEq, Eq)]
pub struct AudioDevice {
    /// The device's stable id, serialised. Safe to persist across restarts.
    pub id: String,
    pub name: String,
    pub is_default: bool,
}

/// An input device as the platform reports it.
#[derive(Debug, PartialEq, Eq)]
pub struct Found {
    /// Nothing where the platform will not say.
    pub id: Option<String>,
    pub name: String,
    /// Whether it can actually produce input.
    pub usable: bool,
}

/// A device as contracts speak of it.
pub struct Microphone {
    pub id: Seq<char>,
    pub name: Seq<char>,
    pub is_default: bool,
}

impl View for AudioDevice {
    type V = Microphone;

    open spec fn view(&self) -> Microphone {
        Microphone { id: self.id@, name: self.name@, is_default: self.is_default }
    }
}

pub open spec fn microphones(list: Seq<AudioDevice>) -> Seq<Microphone> {
    list.map_values(|d: AudioDevice| d@)
}

/// The devices to offer among those found: those with an id that can produce
/// input. Any other would only fail once the operator had selected it.
pub open spec fn offered(found: Seq<Found>, default_id: Option<Seq<char>>) -> Seq<Microphone>
    decreases found.len(),
{
    if found.len() == 0 {
        Seq::empty()
    } else {
        let before = offered(found.drop_last(), default_id);
        match found.last().id {
            Some(id) if found.last().usable => before.push(
                Microphone {
                    id: id@,
                    name: found.last().name@,
                    is_default: default_id == Some(id@),
                },
            ),
            _ => before,
        }
    }
}

/// The devices to offer among those found.
pub fn list_input_devices(found: &[Found], default_id: Option<&str>) -> (r: Vec<AudioDevice>)
    ensures
        microphones(r@) == offered(
            found@,
            match default_id {
                Some(id) => Some(id@),
                None => None,
            },
        ),
{
    let ghost default = match default_id {
        Some(id) => Some(id@),
        None => None,
    };
    let mut out: Vec<AudioDevice> = Vec::new();
    let mut i: usize = 0;
    assert(microphones(out@) =~= offered(found@.take(0), default));
    while i < found.len()
        invariant
            i <= found.len(),
            default == match default_id {
                Some(id) => Some(id@),
                None => None,
            },
            microphones(out@) == offered(found@.take(i as int), default),
        decreases found.len() - i,
    {
        proof {
            lemma_prefix_step(found@, i as int);
        }
        if found[i].usable {
            if let Some(id) = &found[i].id {
                let is_default: bool = match default_id {
                    Some(default) => same_text(default, id.as_str()),
                    None => false,
                };
                let ghost before = out@;
                out.push(AudioDevice { id: id.clone(), name: found[i].name.clone(), is_default });
                assert(microphones(out@) =~= microphones(before).push(out@.last()@));
            }
        }
        i += 1;
    }
    assert(found@.take(found@.len() as int) =~= found@);
    out
}

/// Which device to open.
#[derive(Debug, Clone, Copy, PartialEq, Eq, Structural)]
pub enum Choice {
    /// The one the operator saved.
    Saved,
    /// The system's default, because none was saved.
    Default,
    /// The system's default, because the saved one is gone.
    DefaultInstead,
}

/// Which device to open. `available` is whether the saved one is there: it may
/// have been unplugged between services, and falling back beats refusing to
/// start.
pub fn open_device(saved: Option<&str>, available: bool) -> (r: Choice)
    ensures
        r == match saved {
            Some(id) if id@.len() > 0 => if available {
                Choice::Saved
            } else {
                Choice::DefaultInstead
            },
            _ => Choice::Default,
        },
{
    match saved {
        Some(id) => {
            let none: bool = same_text(id, "");
            proof {
                reveal_strlit("");
                assert(""@ =~= Seq::<char>::empty());
                assert(none ==> id@.len() == 0);
                assert(id@.len() == 0 ==> id@ =~= ""@);
            }
            if none {
                Choice::Default
            } else if available {
                Choice::Saved
            } else {
                Choice::DefaultInstead
            }
        },
        None => Choice::Default,
    }
}

/// A configuration a device supports: a range of rates, and so many channels.
#[derive(Debug, Clone, Copy, PartialEq, Eq, Structural)]
pub struct ConfigRange {
    pub min_sample_rate: u32,
    pub max_sample_rate: u32,
    pub channels: u16,
}

/// Whether a configuration can deliver at the target rate.
pub open spec fn reaches_target(range: ConfigRange) -> bool {
    range.min_sample_rate <= TARGET_SAMPLE_RATE <= range.max_sample_rate
}

/// Whether a configuration is the one to pick: it reaches the target rate, none
/// that does has fewer channels, and none before it has as few.
pub open spec fn is_pick(ranges: Seq<ConfigRange>, at: int) -> bool {
    &&& 0 <= at < ranges.len()
    &&& reaches_target(ranges[at])
    &&& forall|i: int|
        0 <= i < ranges.len() && reaches_target(#[trigger] ranges[i]) ==> if i < at {
            ranges[i].channels > ranges[at].channels
        } else {
            ranges[i].channels >= ranges[at].channels
        }
}

/// Picks the configuration the device can deliver at 16 kHz, so that no
/// resampling is needed at all, with the fewest channels. Where there is none
/// the device's default is taken and resampled.
pub fn pick_config(ranges: &[ConfigRange]) -> (r: Option<usize>)
    ensures
        r matches Some(at) ==> is_pick(ranges@, at as int),
        r is None <==> forall|i: int|
            0 <= i < ranges@.len() ==> !reaches_target(#[trigger] ranges@[i]),
{
    let mut best: Option<usize> = None;
    let mut i: usize = 0;
    while i < ranges.len()
        invariant
            i <= ranges.len(),
            match best {
                Some(at) => at < i && reaches_target(ranges@[at as int]) && forall|k: int|
                    0 <= k < i && reaches_target(#[trigger] ranges@[k]) ==> if k < at {
                        ranges@[k].channels > ranges@[at as int].channels
                    } else {
                        ranges@[k].channels >= ranges@[at as int].channels
                    },
                None => forall|k: int| 0 <= k < i ==> !reaches_target(#[trigger] ranges@[k]),
            },
        decreases ranges.len() - i,
    {
        let range: ConfigRange = ranges[i];
        if range.min_sample_rate <= TARGET_SAMPLE_RATE && TARGET_SAMPLE_RATE
            <= range.max_sample_rate {
            let better: bool = match best {
                Some(at) => range.channels < ranges[at].channels,
                None => true,
            };
            if better {
                best = Some(i);
            }
        }
        i += 1;
    }
    best
}

/// There is never more than one configuration to pick.
pub proof fn law_the_pick_is_unique(ranges: Seq<ConfigRange>, a: int, b: int)
    requires
        is_pick(ranges, a),
        is_pick(ranges, b),
    ensures
        a == b,
{
    if a < b {
        assert(reaches_target(ranges[a]));
    } else if b < a {
        assert(reaches_target(ranges[b]));
    }
}

/// Every device that has an id and can produce input is offered, under its id and
/// its name, and marked where it is the system's default.
pub proof fn law_every_usable_device_is_offered(
    found: Seq<Found>,
    default_id: Option<Seq<char>>,
    i: int,
)
    requires
        0 <= i < found.len(),
        found[i].usable,
        found[i].id is Some,
    ensures
        offered(found, default_id).contains(
            (Microphone {
                id: found[i].id->0@,
                name: found[i].name@,
                is_default: default_id == Some(found[i].id->0@),
            }),
        ),
    decreases found.len(),
{
    let front = found.drop_last();
    let wanted = Microphone {
        id: found[i].id->0@,
        name: found[i].name@,
        is_default: default_id == Some(found[i].id->0@),
    };
    let all = offered(found, default_id);
    if i < front.len() {
        law_every_usable_device_is_offered(front, default_id, i);
        let before = offered(front, default_id);
        let k = choose|k: int| 0 <= k < before.len() && before[k] == wanted;
        assert(all[k] == wanted);
    } else {
        assert(all[all.len() - 1] == wanted);
    }
}

/// Nothing else is offered, and what is offered comes in the order it was found.
pub proof fn law_only_usable_devices_are_offered(
    found: Seq<Found>,
    default_id: Option<Seq<char>>,
    k: int,
)
    requires
        0 <= k < offered(found, default_id).len(),
    ensures
        exists|i: int|
            k <= i < found.len() && (#[trigger] found[i]).usable && (found[i].id matches Some(id)
                && offered(found, default_id)[k].id == id@) && offered(found, default_id)[k].name
                == found[i].name@,
    decreases found.len(),
{
    let front = found.drop_last();
    let before = offered(front, default_id);
    lemma_offered_len(front, default_id);
    if k < before.len() {
        law_only_usable_devices_are_offered(front, default_id, k);
        let i = choose|i: int|
            k <= i < front.len() && (#[trigger] front[i]).usable && (front[i].id matches Some(id)
                && before[k].id == id@) && before[k].name == front[i].name@;
        assert(found[i] == front[i]);
    } else {
        assert(found[found.len() - 1].usable);
    }
}

proof fn lemma_offered_len(found: Seq<Found>, default_id: Option<Seq<char>>)
    ensures
        offered(found, default_id).len() <= found.len(),
    decreases found.len(),
{
    if found.len() > 0 {
        lemma_offered_len(found.drop_last(), default_id);
    }
}

/// What is picked can be delivered at sixteen thousand samples a second, and
/// nothing that can has fewer channels.
pub proof fn law_the_pick_needs_no_resampling(ranges: Seq<ConfigRange>, at: int, i: int)
    requires
        is_pick(ranges, at),
        0 <= i < ranges.len(),
    ensures
        ranges[at].min_sample_rate <= 16_000 <= ranges[at].max_sample_rate,
        ranges[i].min_sample_rate <= 16_000 <= ranges[i].max_sample_rate ==> ranges[at].channels
            <= ranges[i].channels,
{
    if reaches_target(ranges[i]) {
    }
}

} // verus!
