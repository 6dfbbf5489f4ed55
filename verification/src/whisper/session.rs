//! When a stretch of audio is handed to the model.
//!
//! One thread does nothing but listen and cut the audio into utterances;
//! decoding happens behind it. The two are allowed to drift apart, because
//! falling behind is recoverable and losing what was said is not. A settled
//! utterance is the transcript and is always decoded; a partial one is a
//! courtesy, and the first thing dropped.

use crate::audio::TARGET_SAMPLE_RATE;
use crate::text::{blank, decimal, is_blank, lemma_blank, push_decimal, same_text};
use vstd::prelude::*;

verus! {

/// Nothing shorter is worth decoding; it is a cough or a chair. In
/// milliseconds, as are the times below.
pub const MIN_UTTERANCE: u64 = 900;

/// Silence that ends an utterance.
pub const END_SILENCE: u64 = 650;

/// A speaker who never pauses still has to be transcribed eventually.
pub const MAX_UTTERANCE: u64 = 18_000;

/// How often the growing buffer is decoded before anything has been measured.
pub const INTERIM_EVERY: u64 = 2_200;

/// The slowest this ever goes.
pub const INTERIM_SLOWEST: u64 = 2_200;

/// The fastest. Below this the words on screen churn faster than anyone reads
/// them.
pub const INTERIM_FASTEST: u64 = 600;

/// One part decoding to two parts not: an interim never gets the majority of
/// the processor.
pub const INTERIM_DUTY: u64 = 3;

/// Settled utterances outstanding before the operator is told the machine is
/// losing.
pub const BEHIND_AFTER: usize = 3;

/// Audio that has to have been decoded before a machine's pace can be told.
pub const TELLING: usize = 60_000;

/// How many nanoseconds a millisecond is.
pub const NANOS: u64 = 1_000_000;

// --------------------------------------------------------------------- pacing

pub open spec fn pace(last_decode_ms: usize) -> u64 {
    if last_decode_ms == 0 {
        INTERIM_EVERY
    } else if last_decode_ms * INTERIM_DUTY <= INTERIM_FASTEST {
        INTERIM_FASTEST
    } else if last_decode_ms * INTERIM_DUTY >= INTERIM_SLOWEST {
        INTERIM_SLOWEST
    } else {
        (last_decode_ms * INTERIM_DUTY) as u64
    }
}

/// How long to wait before decoding the growing buffer again, from how long the
/// last such decode took on this machine: nothing measured yet is zero.
pub fn interim_pace(last_decode_ms: usize) -> (r: u64)
    ensures
        r == pace(last_decode_ms),
{
    if last_decode_ms == 0 {
        INTERIM_EVERY
    } else if last_decode_ms >= 1_000 {
        INTERIM_SLOWEST
    } else {
        let wait: u64 = last_decode_ms as u64 * INTERIM_DUTY;
        if wait <= INTERIM_FASTEST {
            INTERIM_FASTEST
        } else if wait >= INTERIM_SLOWEST {
            INTERIM_SLOWEST
        } else {
            wait
        }
    }
}

/// However fast or slow a machine is, the wait stays within its bounds.
pub proof fn law_the_pace_is_bounded(last_decode_ms: usize)
    ensures
        INTERIM_FASTEST <= pace(last_decode_ms) <= INTERIM_SLOWEST,
{
}

// -------------------------------------------------------------------- cutting

/// What was heard of a piece of audio. Times are in nanoseconds.
#[derive(Debug, Clone, Copy, PartialEq, Eq, Structural)]
pub struct Heard {
    /// How many samples it has.
    pub samples: usize,
    /// How long it lasts.
    pub span: u64,
    /// How long everything held back is, this piece included.
    pub held: u64,
    /// Whether it is louder than the room.
    pub speech: bool,
    /// How many settled utterances the decoder has finished since the last.
    pub finished: usize,
    /// How long ago the last interim was asked for.
    pub since_interim: u64,
    /// How long the last interim took to decode, in milliseconds.
    pub last_decode_ms: usize,
    /// Whether the decoder is at work.
    pub busy: bool,
}

/// Where a session of listening stands.
#[derive(Debug, Clone, Copy, PartialEq, Eq, Structural)]
pub struct Session {
    /// Whether anything has been said since the last cut.
    pub spoke: bool,
    /// How long it has been quiet, in nanoseconds.
    pub silence: u64,
    /// How many settled utterances the decoder still owes.
    pub waiting: usize,
    /// Whether the operator has been told of a backlog.
    pub warned: bool,
    /// Whether a larger model has been offered.
    pub offered_larger: bool,
}

/// What to do with what is held back.
#[derive(Debug, Clone, Copy, PartialEq, Eq, Structural)]
pub enum Cut {
    /// Keep listening.
    Keep,
    /// Decode it so far, for the screen, and keep it.
    Interim,
    /// It is an utterance: decode it and begin again. `behind` where the
    /// operator is to be told that the machine cannot keep up.
    Settle { behind: bool },
}

pub open spec fn fresh() -> Session {
    Session { spoke: false, silence: 0, waiting: 0, warned: false, offered_larger: false }
}

pub open spec fn still_waiting(waiting: usize, finished: usize) -> usize {
    if waiting > finished {
        (waiting - finished) as usize
    } else {
        0
    }
}

/// How long it has been quiet once a piece has been heard.
pub open spec fn quiet_for(session: Session, heard: Heard) -> u64 {
    if heard.speech {
        0
    } else if session.silence + heard.span > u64::MAX {
        u64::MAX
    } else {
        (session.silence + heard.span) as u64
    }
}

/// Whether what is held back is an utterance: something was said, it is long
/// enough, and a pause has closed it; or it has gone on for too long.
pub open spec fn is_utterance(session: Session, heard: Heard) -> bool {
    ||| (session.spoke || heard.speech) && heard.held >= MIN_UTTERANCE * NANOS && quiet_for(
        session,
        heard,
    ) >= END_SILENCE * NANOS
    ||| heard.held >= MAX_UTTERANCE * NANOS
}

/// Whether what is held back is worth showing already.
pub open spec fn is_worth_showing(session: Session, heard: Heard) -> bool {
    &&& session.spoke || heard.speech
    &&& heard.held >= MIN_UTTERANCE * NANOS
    &&& heard.since_interim >= pace(heard.last_decode_ms) * NANOS
    &&& !heard.busy
}

/// What becomes of a session when a piece of audio is heard.
pub open spec fn after_hearing(session: Session, heard: Heard) -> (Session, Cut) {
    let waiting = still_waiting(session.waiting, heard.finished);
    if heard.samples == 0 {
        (session, Cut::Keep)
    } else if is_utterance(session, heard) {
        let behind = waiting + 1 >= BEHIND_AFTER && !session.warned;
        (
            Session {
                spoke: false,
                silence: 0,
                waiting: (waiting + 1) as usize,
                warned: session.warned || behind,
                ..session
            },
            Cut::Settle { behind },
        )
    } else {
        (
            Session {
                spoke: session.spoke || heard.speech,
                silence: quiet_for(session, heard),
                waiting,
                ..session
            },
            if is_worth_showing(session, heard) {
                Cut::Interim
            } else {
                Cut::Keep
            },
        )
    }
}

impl Session {
    pub fn new() -> (r: Session)
        ensures
            r == fresh(),
    {
        Session { spoke: false, silence: 0, waiting: 0, warned: false, offered_larger: false }
    }

    /// Takes in a piece of audio, and says what to do with what is held back.
    pub fn hear(&mut self, heard: Heard) -> (r: Cut)
        requires
            old(self).waiting < usize::MAX,
        ensures
            (*final(self), r) == after_hearing(*old(self), heard),
    {
        if heard.samples == 0 {
            return Cut::Keep;
        }
        if self.waiting > heard.finished {
            self.waiting = self.waiting - heard.finished;
        } else {
            self.waiting = 0;
        }
        if heard.speech {
            self.silence = 0;
            self.spoke = true;
        } else if heard.span > u64::MAX - self.silence {
            self.silence = u64::MAX;
        } else {
            self.silence = self.silence + heard.span;
        }
        let ended: bool = self.spoke && heard.held >= MIN_UTTERANCE * NANOS && self.silence
            >= END_SILENCE * NANOS;
        if ended || heard.held >= MAX_UTTERANCE * NANOS {
            self.waiting = self.waiting + 1;
            let behind: bool = self.waiting >= BEHIND_AFTER && !self.warned;
            if behind {
                self.warned = true;
            }
            self.silence = 0;
            self.spoke = false;
            return Cut::Settle { behind };
        }
        if self.spoke && heard.held >= MIN_UTTERANCE * NANOS && heard.since_interim >= interim_pace(
            heard.last_decode_ms,
        ) * NANOS && !heard.busy {
            Cut::Interim
        } else {
            Cut::Keep
        }
    }

    /// Whether what is still held back when the operator stops is an utterance:
    /// the fact that a pause never arrived to close it does not make it
    /// disposable. `held` is how long it is, in nanoseconds.
    pub fn stop(&self, held: u64) -> (r: bool)
        ensures
            r == (self.spoke && held >= MIN_UTTERANCE * NANOS),
    {
        self.spoke && held >= MIN_UTTERANCE * NANOS
    }

    /// What to tell the operator of a machine with room to spare, which is said
    /// once a session. `larger` is the next model up, where there is one.
    pub fn offer_larger(&mut self, room_to_spare: bool, larger: Option<&str>) -> (r: Option<String>)
        ensures
            *final(self) == (Session {
                offered_larger: old(self).offered_larger || room_to_spare,
                ..*old(self)
            }),
            match larger {
                Some(file) if room_to_spare && !old(self).offered_larger => r matches Some(words)
                    && words@ == "This machine has room to spare. "@ + file@
                    + " would be more accurate and it can carry it -- fetch it under Settings before the next service."@,
                _ => r is None,
            },
    {
        if self.offered_larger || !room_to_spare {
            return None;
        }
        self.offered_larger = true;
        match larger {
            Some(file) => {
                let mut words: String = "This machine has room to spare. ".to_owned();
                words.push_str(file);
                words.push_str(
                    " would be more accurate and it can carry it -- fetch it under Settings before the next service.",
                );
                Some(words)
            },
            None => None,
        }
    }
}

/// A session after a run of pieces, and what was done with each.
pub open spec fn after_run(session: Session, pieces: Seq<Heard>) -> (Session, Seq<Cut>)
    decreases pieces.len(),
{
    if pieces.len() == 0 {
        (session, Seq::empty())
    } else {
        let (before, cuts) = after_run(session, pieces.drop_last());
        let (after, cut) = after_hearing(before, pieces.last());
        (after, cuts.push(cut))
    }
}

/// Whether any of some pieces holds speech. An empty piece holds nothing.
pub open spec fn any_speech(pieces: Seq<Heard>) -> bool {
    exists|i: int| 0 <= i < pieces.len() && (#[trigger] pieces[i]).samples > 0 && pieces[i].speech
}

/// How long it has been quiet at the end of some pieces: the pieces since the
/// last that holds speech, together.
pub open spec fn quiet_at_the_end(pieces: Seq<Heard>) -> nat
    decreases pieces.len(),
{
    if pieces.len() == 0 {
        0
    } else if pieces.last().samples == 0 {
        quiet_at_the_end(pieces.drop_last())
    } else if pieces.last().speech {
        0
    } else {
        quiet_at_the_end(pieces.drop_last()) + pieces.last().span as nat
    }
}

/// Whether no piece of a run ended an utterance.
pub open spec fn goes_on(cuts: Seq<Cut>) -> bool {
    forall|i: int| 0 <= i < cuts.len() ==> (#[trigger] cuts[i]) !is Settle
}

/// While an utterance goes on, the session knows whether anything has been said
/// in it, and how long it has been quiet since.
pub proof fn law_the_quiet_is_counted_from_the_last_speech(pieces: Seq<Heard>)
    requires
        goes_on(after_run(fresh(), pieces).1),
        quiet_at_the_end(pieces) <= u64::MAX,
    ensures
        after_run(fresh(), pieces).0.spoke == any_speech(pieces),
        after_run(fresh(), pieces).0.silence == quiet_at_the_end(pieces),
    decreases pieces.len(),
{
    if pieces.len() > 0 {
        let front = pieces.drop_last();
        let (before, cuts) = after_run(fresh(), front);
        let all = after_run(fresh(), pieces).1;
        assert(all.last() !is Settle) by {
            assert(all[all.len() - 1] !is Settle);
        }
        assert forall|i: int| 0 <= i < cuts.len() implies (#[trigger] cuts[i]) !is Settle by {
            assert(all[i] == cuts[i]);
        }
        let last = pieces.last();
        if last.samples > 0 && last.speech {
            assert(pieces[pieces.len() - 1].speech);
            lemma_spoke(before, last);
        } else {
            law_the_quiet_is_counted_from_the_last_speech(front);
            if any_speech(front) {
                let i = choose|i: int|
                    0 <= i < front.len() && (#[trigger] front[i]).samples > 0 && front[i].speech;
                assert(pieces[i] == front[i]);
            }
            if any_speech(pieces) {
                let i = choose|i: int|
                    0 <= i < pieces.len() && (#[trigger] pieces[i]).samples > 0 && pieces[i].speech;
                assert(front[i] == pieces[i]);
            }
        }
    }
}

proof fn lemma_spoke(session: Session, heard: Heard)
    requires
        heard.samples > 0,
        heard.speech,
        after_hearing(session, heard).1 !is Settle,
    ensures
        after_hearing(session, heard).0.spoke,
        after_hearing(session, heard).0.silence == 0,
{
}

/// Speech ends the quiet: after a piece with speech that does not end the
/// utterance nothing of the quiet before it is left, and something has been said.
pub proof fn law_speech_ends_the_quiet(session: Session, heard: Heard)
    requires
        heard.samples > 0,
        heard.speech,
        heard.held < 18_000_000_000,
    ensures
        after_hearing(session, heard).1 !is Settle,
        after_hearing(session, heard).0.silence == 0,
        after_hearing(session, heard).0.spoke,
{
}

/// An utterance ends exactly where it has lasted eighteen seconds; or where
/// something was said in it, it has lasted nine tenths of a second, and the
/// pieces since the last speech have together been quiet for 650 milliseconds.
/// A short breath does not end it, and neither do two.
pub proof fn law_an_utterance_ends_with_a_pause(pieces: Seq<Heard>, next: Heard)
    requires
        goes_on(after_run(fresh(), pieces).1),
        quiet_at_the_end(pieces.push(next)) <= u64::MAX,
        quiet_at_the_end(pieces) <= u64::MAX,
        next.samples > 0,
    ensures
        after_run(fresh(), pieces.push(next)).1.last() is Settle <==> next.held >= 18_000_000_000
            || (any_speech(pieces.push(next)) && next.held >= 900_000_000 && quiet_at_the_end(
            pieces.push(next),
        ) >= 650_000_000),
{
    law_the_quiet_is_counted_from_the_last_speech(pieces);
    let all = pieces.push(next);
    assert(all.drop_last() =~= pieces);
    assert(any_speech(all) == (any_speech(pieces) || next.speech)) by {
        if any_speech(pieces) {
            let i = choose|i: int|
                0 <= i < pieces.len() && (#[trigger] pieces[i]).samples > 0 && pieces[i].speech;
            assert(all[i] == pieces[i]);
        }
        assert(all[pieces.len() as int] == next);
        if any_speech(all) && !next.speech {
            let i = choose|i: int|
                0 <= i < all.len() && (#[trigger] all[i]).samples > 0 && all[i].speech;
            assert(pieces[i] == all[i]);
        }
    }
}

/// After an utterance has ended the session begins again: nothing has been said
/// and it has not been quiet, so that what follows is cut as from the start.
pub proof fn law_a_cut_begins_again(session: Session, heard: Heard, next: Heard)
    requires
        after_hearing(session, heard).1 is Settle,
        next.held < 18_000_000_000,
    ensures
        !after_hearing(session, heard).0.spoke,
        after_hearing(session, heard).0.silence == 0,
        !next.speech ==> after_hearing(after_hearing(session, heard).0, next).1 is Keep,
{
}

/// What the decoder owes is what was cut off and is not finished: each cut adds
/// one, each utterance finished takes one away, and it is never less than none.
/// The operator is told at the third, and once.
pub proof fn law_what_is_owed_is_counted(session: Session, heard: Heard)
    requires
        session.waiting < usize::MAX,
        heard.samples > 0,
    ensures
        ({
            let (after, cut) = after_hearing(session, heard);
            let left: int = if session.waiting >= heard.finished {
                session.waiting - heard.finished
            } else {
                0
            };
            &&& after.waiting == left + (if cut is Settle {
                1int
            } else {
                0int
            })
            &&& cut matches Cut::Settle { behind } ==> (behind <==> after.waiting >= 3
                && !session.warned)
            &&& after.warned <==> session.warned || cut == (Cut::Settle { behind: true })
            &&& after.offered_larger == session.offered_larger
        }),
{
}

/// What is held back is shown so far exactly where it has not ended, something
/// has been said in it, it has lasted nine tenths of a second, the decoder is
/// free, and the last time was long enough ago. A piece without a sample changes
/// nothing.
pub proof fn law_an_interim_is_worth_showing(session: Session, heard: Heard)
    ensures
        after_hearing(session, heard).1 is Interim <==> heard.samples > 0 && after_hearing(
            session,
            heard,
        ).1 !is Settle && (session.spoke || heard.speech) && heard.held >= 900_000_000
            && heard.since_interim >= pace(heard.last_decode_ms) * 1_000_000 && !heard.busy,
        heard.samples == 0 ==> after_hearing(session, heard) == (session, Cut::Keep),
{
}

/// The wait follows the machine: three times what the last decode took, as far as
/// that is neither under six tenths of a second nor over two and a fifth, which
/// is also the wait before anything has been measured.
pub proof fn law_the_pace_follows_the_machine(a: usize, b: usize)
    ensures
        pace(0) == 2_200,
        0 < a <= 200 ==> pace(a) == 600,
        200 <= a <= 733 ==> pace(a) == 3 * a,
        a >= 734 ==> pace(a) == 2_200,
        0 < a <= b ==> pace(a) <= pace(b),
{
}

/// What was said is always cut off for decoding in the end, and silence alone
/// never is before it has gone on for too long.
pub proof fn law_speech_is_cut_in_the_end(session: Session, heard: Heard)
    requires
        heard.samples > 0,
    ensures
        heard.held >= MAX_UTTERANCE * NANOS ==> after_hearing(session, heard).1 is Settle,
        after_hearing(session, heard).1 is Settle && heard.held < MAX_UTTERANCE * NANOS ==> (
        session.spoke || heard.speech) && heard.held >= MIN_UTTERANCE * NANOS && !(heard.speech),
{
}

/// The operator is told of a backlog once a session.
pub proof fn law_a_backlog_is_told_once(session: Session, heard: Heard)
    requires
        session.waiting < usize::MAX,
    ensures
        session.warned ==> after_hearing(session, heard).0.warned,
        session.warned ==> after_hearing(session, heard).1 != (Cut::Settle { behind: true }),
        after_hearing(session, heard).1 == (Cut::Settle { behind: true }) ==> after_hearing(
            session,
            heard,
        ).0.warned && after_hearing(session, heard).0.waiting >= BEHIND_AFTER,
{
}

/// No interim is asked for while the decoder is at work.
pub proof fn law_interims_give_way(session: Session, heard: Heard)
    requires
        heard.busy,
    ensures
        after_hearing(session, heard).1 !is Interim,
{
}

// --------------------------------------------------------------- falling behind

/// What to do about a backlog, and what to say of it.
#[derive(Debug, PartialEq, Eq)]
pub struct Remedy {
    pub note: String,
    /// The model to change to, where there is one on disk.
    pub switch_to: Option<String>,
}

/// What is said of a backlog of so many utterances, given the next model down
/// and whether it is on disk.
pub open spec fn backlog_words(smaller: Option<&str>, installed: bool, waiting: usize) -> Seq<char> {
    let behind = "Transcription is running behind: "@ + decimal(waiting as nat);
    match smaller {
        Some(file) => if installed {
            "Transcription was running behind, so it has switched to "@ + file@
                + ", which this machine can keep up with. Change it under Settings if you would rather have the larger one."@
        } else {
            behind + " utterances are still being decoded. "@ + file@
                + " would keep up, and is not downloaded yet -- fetch it under Settings before the next service."@
        },
        None => behind
            + " utterances are still being decoded, and this is already the smallest model. A subscription or an Azure key transcribes on our machines instead."@,
    }
}

/// What to do about a backlog: step down to a smaller model, but only to one
/// that is already on disk, and say so either way.
pub fn remedy(smaller: Option<&str>, installed: bool, waiting: usize) -> (r: Remedy)
    ensures
        r.note@ == backlog_words(smaller, installed, waiting),
        match smaller {
            Some(file) if installed => r.switch_to matches Some(to) && to@ == file@,
            _ => r.switch_to is None,
        },
{
    match smaller {
        Some(file) => if installed {
            let mut note: String =
                "Transcription was running behind, so it has switched to ".to_owned();
            note.push_str(file);
            note.push_str(
                ", which this machine can keep up with. Change it under Settings if you would rather have the larger one.",
            );
            Remedy { note, switch_to: Some(file.to_owned()) }
        } else {
            let mut note: String = "Transcription is running behind: ".to_owned();
            push_decimal(&mut note, waiting as u64);
            note.push_str(" utterances are still being decoded. ");
            note.push_str(file);
            note.push_str(
                " would keep up, and is not downloaded yet -- fetch it under Settings before the next service.",
            );
            Remedy { note, switch_to: None }
        },
        None => {
            let mut note: String = "Transcription is running behind: ".to_owned();
            push_decimal(&mut note, waiting as u64);
            note.push_str(
                " utterances are still being decoded, and this is already the smallest model. A subscription or an Azure key transcribes on our machines instead.",
            );
            Remedy { note, switch_to: None }
        },
    }
}

// ------------------------------------------------------------------- decoding

/// Whether a piece is to be decoded. Once listening has stopped, what was
/// settled is finished and what was partial is abandoned.
pub fn worth_decoding(stopped: bool, settled: bool) -> (r: bool)
    ensures
        r == (settled || !stopped),
{
    settled || !stopped
}

/// What to do once a piece has been decoded.
#[derive(Debug, Clone, Copy, PartialEq, Eq, Structural)]
pub struct Decoded {
    /// Count it towards what this machine sustains.
    pub record: bool,
    /// Keep how long it took, to pace the interims by.
    pub time: bool,
    /// Count it as an utterance that is no longer owed.
    pub count: bool,
    /// Report its words.
    pub report: bool,
}

/// What to do once a piece has been decoded. Only settled pieces that produced
/// words tell what the machine sustains, and only partial ones pace the
/// interims.
pub open spec fn after_decoding(settled: bool, text: Option<Seq<char>>) -> Decoded {
    Decoded {
        record: settled && (text matches Some(text) && !blank(text)),
        time: !settled,
        count: settled,
        report: text matches Some(text) && text.len() > 0,
    }
}

/// What to do once a piece has been decoded. `text` is nothing where that
/// failed.
pub fn decoded(settled: bool, text: Option<&str>) -> (r: Decoded)
    ensures
        r == after_decoding(
            settled,
            match text {
                Some(text) => Some(text@),
                None => None,
            },
        ),
{
    let words: bool = match text {
        Some(text) => !is_blank(text),
        None => false,
    };
    let report: bool = match text {
        Some(text) => {
            let empty: bool = same_text(text, "");
            proof {
                reveal_strlit("");
                assert(""@ =~= Seq::<char>::empty());
                assert(empty ==> text@.len() == 0);
                assert(text@.len() == 0 ==> text@ =~= ""@);
            }
            !empty
        },
        None => false,
    };
    Decoded { record: settled && words, time: !settled, count: settled, report }
}

/// A running record of real decodes, in milliseconds of work and of audio. It
/// tells what a machine did to somebody's actual speech, which no benchmark
/// can.
#[derive(Debug, Clone, Copy, PartialEq, Eq, Structural)]
pub struct Sustained {
    pub work_ms: usize,
    pub audio_ms: usize,
}

impl Default for Sustained {
    fn default() -> (r: Self)
        ensures
            r.work_ms == 0,
            r.audio_ms == 0,
    {
        Sustained { work_ms: 0, audio_ms: 0 }
    }
}

impl Sustained {
    /// Records one settled decode against the running total.
    pub fn record(&mut self, work_ms: usize, samples: usize)
        requires
            samples * 1000 <= usize::MAX,
        ensures
            final(self).work_ms == old(self).work_ms.wrapping_add(work_ms),
            final(self).audio_ms == old(self).audio_ms.wrapping_add(
                (samples * 1000 / TARGET_SAMPLE_RATE as int) as usize,
            ),
    {
        let audio_ms: usize = samples * 1000 / TARGET_SAMPLE_RATE as usize;
        self.work_ms = self.work_ms.wrapping_add(work_ms);
        self.audio_ms = self.audio_ms.wrapping_add(audio_ms);
    }

    /// The work and the audio so far, or nothing until a minute of audio has
    /// gone through: the first few utterances include a cold model and a cold
    /// cache.
    pub fn sustained(&self) -> (r: Option<(usize, usize)>)
        ensures
            r == if self.audio_ms < TELLING {
                None
            } else {
                Some((self.work_ms, self.audio_ms))
            },
    {
        if self.audio_ms < TELLING {
            None
        } else {
            Some((self.work_ms, self.audio_ms))
        }
    }
}

// --------------------------------------------------------------- changing model

/// What to do about the model that was asked for.
#[derive(Debug, PartialEq, Eq)]
pub enum ModelPlan {
    /// It is the one in use.
    InUse,
    /// It is on disk: load it.
    Load,
    /// It is not there: keep the one in use, and say so.
    KeepInstead { note: String },
    /// It is not there, and there is none in use.
    Refuse { words: String },
}

/// What to do about the model that was asked for, given the one in use and
/// whether the other is on disk.
pub fn plan_model(wanted: &str, in_use: Option<&str>, installed: bool) -> (r: ModelPlan)
    ensures
        match in_use {
            Some(file) => if file@ == wanted@ {
                r is InUse
            } else if installed {
                r is Load
            } else {
                r matches ModelPlan::KeepInstead { note } && note@ == wanted@
                    + " is not downloaded; still using "@ + file@ + "."@
            },
            None => if installed {
                r is Load
            } else {
                r matches ModelPlan::Refuse { words } && words@ == wanted@
                    + " has not been downloaded"@
            },
        },
{
    if let Some(file) = in_use {
        if same_text(file, wanted) {
            return ModelPlan::InUse;
        }
    }
    if installed {
        return ModelPlan::Load;
    }
    let mut words: String = wanted.to_owned();
    match in_use {
        Some(file) => {
            words.push_str(" is not downloaded; still using ");
            words.push_str(file);
            words.push_str(".");
            ModelPlan::KeepInstead { note: words }
        },
        None => {
            words.push_str(" has not been downloaded");
            ModelPlan::Refuse { words }
        },
    }
}

/// What came of loading a model: the file now in use and a note of it, or why
/// there is none. `error` is what went wrong, where anything did.
pub fn model_loaded(wanted: &str, in_use: Option<&str>, error: Option<&str>) -> (r: Result<
    (String, String),
    String,
>)
    ensures
        match (error, in_use) {
            (None, _) => r matches Ok(now) && now.0@ == wanted@ && now.1@ == "Using "@ + wanted@
                + "."@,
            (Some(error), Some(file)) => r matches Ok(now) && now.0@ == file@ && now.1@ == wanted@
                + " could not be loaded ("@ + error@ + "); still using "@ + file@ + "."@,
            (Some(error), None) => r matches Err(words) && words@ == "could not load "@ + wanted@
                + ": "@ + error@,
        },
{
    match error {
        None => {
            let mut note: String = "Using ".to_owned();
            note.push_str(wanted);
            note.push_str(".");
            Ok((wanted.to_owned(), note))
        },
        Some(error) => match in_use {
            Some(file) => {
                let mut note: String = wanted.to_owned();
                note.push_str(" could not be loaded (");
                note.push_str(error);
                note.push_str("); still using ");
                note.push_str(file);
                note.push_str(".");
                Ok((file.to_owned(), note))
            },
            None => {
                let mut words: String = "could not load ".to_owned();
                words.push_str(wanted);
                words.push_str(": ");
                words.push_str(error);
                Err(words)
            },
        },
    }
}

/// Words are reported whether they are settled or not. Only settled ones count
/// against what is owed, failed or not, and only they tell what the machine
/// sustains, where there are any; only partial ones set the pace.
pub proof fn law_only_settled_words_are_counted(text: Seq<char>)
    requires
        !blank(text),
    ensures
        after_decoding(true, Some(text)) == (Decoded {
            record: true,
            time: false,
            count: true,
            report: true,
        }),
        after_decoding(false, Some(text)) == (Decoded {
            record: false,
            time: true,
            count: false,
            report: true,
        }),
        after_decoding(true, None) == (Decoded {
            record: false,
            time: false,
            count: true,
            report: false,
        }),
        after_decoding(false, None) == (Decoded {
            record: false,
            time: true,
            count: false,
            report: false,
        }),
{
    lemma_blank(text);
}

} // verus!
