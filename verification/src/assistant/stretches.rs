//! A long transcript cut into stretches that overlap.
//!
//! A teaching session does not divide at a word boundary. Each stretch is given
//! the tail of the one before, so that a point that straddles a cut is whole in
//! at least one of them.

use crate::text::{
    join_texts, joined, push_text, split_whitespace, texts, words_of_text,
};
use vstd::prelude::*;

verus! {

/// How far one stretch stands from the next: always at least a word.
pub open spec fn step_of(size: nat, overlap: nat) -> nat {
    if size > overlap {
        (size - overlap) as nat
    } else {
        1
    }
}

/// Where the stretches of so many words begin and end, from `start` on.
pub open spec fn ranges(count: nat, size: nat, step: nat, start: nat) -> Seq<(nat, nat)>
    decreases count + step - start,
{
    if start >= count || step == 0 {
        Seq::empty()
    } else if count - start <= size {
        seq![(start, count)]
    } else {
        seq![(start, start + size)] + ranges(count, size, step, start + step)
    }
}

/// Where the stretches of a text begin and end, in words.
pub open spec fn stretch_ranges(count: nat, size: nat, overlap: nat) -> Seq<(nat, nat)> {
    if count == 0 {
        Seq::empty()
    } else if count <= size {
        seq![(0, count)]
    } else {
        ranges(count, size, step_of(size, overlap), 0)
    }
}

pub open spec fn stretch(words: Seq<Seq<char>>, range: (nat, nat)) -> Seq<char> {
    joined(words.subrange(range.0 as int, range.1 as int), " "@)
}

/// Words as overlapping stretches.
pub open spec fn stretches(words: Seq<Seq<char>>, size: nat, overlap: nat) -> Seq<Seq<char>> {
    stretch_ranges(words.len(), size, overlap).map_values(|r: (nat, nat)| stretch(words, r))
}

/// A long transcript cut into overlapping stretches, each small enough to send;
/// one stretch, the whole text, when it already fits.
pub fn chunks(text: &str, size: usize, overlap: usize) -> (r: Vec<String>)
    ensures
        texts(r@) == stretches(split_whitespace(text@), size as nat, overlap as nat),
{
    let words: Vec<String> = words_of_text(text);
    let ghost said = texts(words@);
    assert(said.len() == words@.len());
    let mut out: Vec<String> = Vec::new();
    let ghost wanted = stretches(said, size as nat, overlap as nat);
    if words.len() == 0 {
        assert(texts(out@) =~= wanted);
        return out;
    }
    if words.len() <= size {
        assert(said.subrange(0, said.len() as int) =~= said);
        push_text(&mut out, join_texts(words.as_slice(), " "));
        assert(texts(out@) =~= wanted);
        return out;
    }
    let step: usize = if size > overlap {
        size - overlap
    } else {
        1
    };
    let ghost all = ranges(said.len(), size as nat, step as nat, 0);
    let ghost cut = |r: (nat, nat)| stretch(said, r);
    let mut start: usize = 0;
    assert(texts(out@) + all.map_values(cut) =~= wanted);
    while start < words.len()
        invariant
            said == texts(words@),
            said == split_whitespace(text@),
            said.len() == words.len(),
            wanted == stretches(said, size as nat, overlap as nat),
            size < words.len(),
            1 <= step,
            step <= size || step == 1,
            cut == (|r: (nat, nat)| stretch(said, r)),
            wanted == texts(out@) + ranges(
                said.len(),
                size as nat,
                step as nat,
                start as nat,
            ).map_values(cut),
        decreases words.len() - start,
    {
        let last: bool = words.len() - start <= size;
        let end: usize = if last {
            words.len()
        } else {
            start + size
        };
        let part: &[String] = vstd::slice::slice_subrange(words.as_slice(), start, end);
        assert(texts(part@) =~= said.subrange(start as int, end as int));
        let ghost before = texts(out@);
        let ghost rest = ranges(said.len(), size as nat, step as nat, start as nat);
        push_text(&mut out, join_texts(part, " "));
        if last {
            assert(rest.map_values(cut) =~= seq![stretch(said, (start as nat, end as nat))]);
            assert(texts(out@) =~= wanted);
            return out;
        }
        let ghost tail = ranges(said.len(), size as nat, step as nat, (start + step) as nat);
        assert(rest =~= seq![(start as nat, end as nat)] + tail);
        assert(rest.map_values(cut) =~= seq![stretch(said, (start as nat, end as nat))]
            + tail.map_values(cut));
        start += step;
        assert(texts(out@) + tail.map_values(cut) =~= wanted);
    }
    assert(ranges(said.len(), size as nat, step as nat, start as nat).map_values(cut)
        =~= Seq::empty());
    assert(texts(out@) =~= wanted);
    out
}

/// Whether some stretch holds a word.
pub open spec fn covered(list: Seq<(nat, nat)>, word: nat) -> bool {
    exists|i: int| 0 <= i < list.len() && (#[trigger] list[i]).0 <= word < list[i].1
}

proof fn lemma_ranges_cover(count: nat, size: nat, step: nat, start: nat, word: nat)
    requires
        1 <= step <= size,
        start <= word < count,
    ensures
        covered(ranges(count, size, step, start), word),
    decreases count - start,
{
    let all = ranges(count, size, step, start);
    assert(all[0].0 == start);
    if count - start <= size {
    } else if word < start + size {
        assert(all[0] == (start, start + size));
    } else {
        lemma_ranges_cover(count, size, step, start + step, word);
        let tail = ranges(count, size, step, start + step);
        let i = choose|i: int| 0 <= i < tail.len() && (#[trigger] tail[i]).0 <= word < tail[i].1;
        assert(all[i + 1] == tail[i]);
    }
}

/// Every word survives the cutting, whatever the overlap, as long as a stretch
/// may hold a word at all.
pub proof fn law_every_word_survives_the_cutting(count: nat, size: nat, overlap: nat, word: nat)
    requires
        word < count,
        size > 0,
    ensures
        covered(stretch_ranges(count, size, overlap), word),
{
    if count <= size {
        assert(stretch_ranges(count, size, overlap)[0] == (0nat, count));
    } else {
        lemma_ranges_cover(count, size, step_of(size, overlap), 0, word);
    }
}

proof fn lemma_ranges_step(count: nat, size: nat, step: nat, start: nat, i: int)
    requires
        step >= 1,
        0 <= i < ranges(count, size, step, start).len(),
    ensures
        ranges(count, size, step, start)[i].0 == start + i * step,
        ranges(count, size, step, start)[i].1 - ranges(count, size, step, start)[i].0 <= size,
        i + 1 < ranges(count, size, step, start).len() ==> ranges(
            count,
            size,
            step,
            start,
        )[i].1 == start + i * step + size,
        i + 1 == ranges(count, size, step, start).len() ==> size >= step ==> ranges(
            count,
            size,
            step,
            start,
        )[i].1 == count,
    decreases i,
{
    let all = ranges(count, size, step, start);
    assert(0 * step == 0) by (nonlinear_arith);
    if start < count {
        if count - start > size {
            let tail = ranges(count, size, step, start + step);
            assert(all =~= seq![(start, start + size)] + tail);
            if i > 0 {
                lemma_ranges_step(count, size, step, start + step, i - 1);
                assert(all[i] == tail[i - 1]);
                assert(start + step + (i - 1) * step == start + i * step) by (nonlinear_arith);
            } else if size >= step {
                assert(start + step < count);
                assert(tail.len() > 0);
            }
        }
    }
}

/// Each stretch begins with the end of the one before: as many words as were
/// asked for, when that leaves the stretch something of its own.
pub proof fn law_stretches_overlap(count: nat, size: nat, overlap: nat, i: int)
    requires
        overlap < size,
        0 <= i,
        i + 1 < stretch_ranges(count, size, overlap).len(),
    ensures
        stretch_ranges(count, size, overlap)[i].1 - stretch_ranges(count, size, overlap)[i + 1].0
            == overlap,
{
    let step = step_of(size, overlap);
    lemma_ranges_step(count, size, step, 0, i);
    lemma_ranges_step(count, size, step, 0, i + 1);
    assert((i + 1) * step == i * step + step) by (nonlinear_arith);
}

/// No stretch is longer than was asked for, and the last ends with the last
/// word.
pub proof fn law_stretches_fit_and_reach_the_end(count: nat, size: nat, overlap: nat, i: int)
    requires
        size > 0,
        0 <= i < stretch_ranges(count, size, overlap).len(),
    ensures
        stretch_ranges(count, size, overlap)[i].1 - stretch_ranges(count, size, overlap)[i].0
            <= size,
        i + 1 == stretch_ranges(count, size, overlap).len() ==> stretch_ranges(
            count,
            size,
            overlap,
        )[i].1 == count,
{
    if count > size {
        lemma_ranges_step(count, size, step_of(size, overlap), 0, i);
    }
}

} // verus!
