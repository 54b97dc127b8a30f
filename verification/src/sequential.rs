//! A simpler playing front end: all messages are read at once and played as they are stored.

use crate::message::{Error, MessageView, OwnedMessage, Timestamp};
use crate::play::{is_unpaced, signed_difference, PlayOptions, TryNext, Upcoming};
use crate::storage::StorageReader;
use crate::{message, play};
use vstd::arithmetic::div_mod;
use vstd::prelude::*;

verus! {

/// Plays the messages of a reading end in the order in which it gives them.
pub struct Player<R: StorageReader> {
    reader: R,
    options: PlayOptions,
    messages: Vec<OwnedMessage>,
    pos: usize,
    start: Option<u64>,
    first_ts: Option<u64>,
}

/// The state of a [`Player`].
#[verifier::ext_equal]
pub struct SequenceView {
    pub options: PlayOptions,
    pub messages: Seq<MessageView>,
    pub pos: nat,
    /// When playing began, on the wall clock.
    pub start: Option<u64>,
    /// The recorded time that belongs to `start`.
    pub first_ts: Option<u64>,
}

impl<R: StorageReader> View for Player<R> {
    type V = SequenceView;

    closed spec fn view(&self) -> SequenceView {
        SequenceView {
            options: self.options,
            messages: message::views(self.messages@),
            pos: self.pos as nat,
            start: self.start,
            first_ts: self.first_ts,
        }
    }
}

impl SequenceView {
    pub open spec fn sound(self) -> bool {
        self.pos <= self.messages.len()
    }

    /// The time of the first message; zero where there is none.
    pub open spec fn first_or_zero(self) -> u64 {
        if self.messages.len() > 0 {
            self.messages.first().stamp
        } else {
            0
        }
    }

    /// The clock set going, if it was not: the first message is due `now`.
    pub open spec fn timed(self, now: u64) -> SequenceView {
        if self.start is Some {
            self
        } else {
            SequenceView {
                start: Some(now),
                first_ts: Some(self.first_or_zero()),
                ..self
            }
        }
    }

    /// Back at the beginning.
    pub open spec fn restarted(self, now: u64) -> SequenceView {
        SequenceView { pos: 0, start: None, first_ts: None, ..self }.timed(now)
    }

    /// Whether there is nothing more to play.
    pub open spec fn at_end(self) -> bool {
        self.messages.len() == 0 || (self.pos >= self.messages.len() && !self.options.loop_)
    }

    /// Ready to play the next message.
    pub open spec fn poised(self, now: u64) -> SequenceView {
        if self.at_end() {
            self
        } else if self.pos >= self.messages.len() {
            self.restarted(now)
        } else {
            self.timed(now)
        }
    }

    /// When the next message is to be played.
    pub open spec fn upcoming(self) -> Upcoming {
        if self.at_end() {
            Upcoming::End
        } else if play::unpaced(self.options.rate) {
            Upcoming::Now
        } else {
            match (self.start, self.first_ts) {
                (Some(start), Some(first)) => Upcoming::Paced {
                    start,
                    delta: play::signed_diff(self.messages[self.pos as int].stamp, first) as i64,
                },
                _ => Upcoming::Now,
            }
        }
    }

    /// The next message taken.
    pub open spec fn advanced(self) -> SequenceView {
        SequenceView { pos: self.pos + 1, ..self }
    }

    /// What taking a message at the moment `now` gives.
    pub open spec fn given(self, now: u64) -> Option<MessageView> {
        let ready = self.poised(now);
        if ready.at_end() {
            None
        } else {
            Some(ready.messages[ready.pos as int])
        }
    }

    /// The state after taking a message at the moment `now`.
    pub open spec fn after(self, now: u64) -> SequenceView {
        if self.given(now) is Some {
            self.poised(now).advanced()
        } else {
            self.poised(now)
        }
    }

    /// The state after taking messages at the moments `clock`, one after the other.
    pub open spec fn after_all(self, clock: Seq<u64>) -> SequenceView
        decreases clock.len(),
    {
        if clock.len() == 0 {
            self
        } else {
            self.after_all(clock.drop_last()).after(clock.last())
        }
    }

    /// What the call number `k`, from zero on, gives, where messages are taken at the moments
    /// `clock`.
    pub open spec fn call(self, clock: Seq<u64>, k: int) -> Option<MessageView> {
        self.after_all(clock.take(k)).given(clock[k])
    }

    /// When playing began on the wall clock, and the recorded time that belongs to it, where
    /// time passes.
    pub open spec fn clock(self) -> Option<(u64, u64)> {
        if play::unpaced(self.options.rate) {
            None
        } else {
            match self.start {
                None => None,
                Some(s) => Some(
                    (
                        s,
                        match self.first_ts {
                            Some(f) => f,
                            None => 0,
                        },
                    ),
                ),
            }
        }
    }
}

impl<R: StorageReader> Player<R> {
    /// Reads all messages.
    pub fn open(reader: R, options: PlayOptions) -> (r: Result<Self, Error>)
        ensures
            match r {
                Ok(p) => p@.sound() && reader.whole_content() is Ok && p@ == (SequenceView {
                    options,
                    messages: reader.whole_content()->Ok_0,
                    pos: 0,
                    start: None,
                    first_ts: None,
                }),
                Err(e) => reader.whole_content() == Err::<Seq<MessageView>, Seq<char>>(e@),
            },
    {
        let mut reader: R = reader;
        let messages: Vec<OwnedMessage> = reader.read_all()?;
        Ok(Player { reader, options, messages, pos: 0, start: None, first_ts: None })
    }

    /// All messages.
    pub fn messages(&self) -> (r: &[OwnedMessage])
        ensures
            message::views(r@) == self@.messages,
    {
        self.messages.as_slice()
    }

    /// Sets the clock going, once.
    fn init_time(&mut self, now: u64)
        ensures
            final(self)@ == old(self)@.timed(now),
    {
        if self.start.is_none() {
            self.start = Some(now);
            self.first_ts = Some(
                if self.messages.len() > 0 {
                    self.messages[0].stamp.0
                } else {
                    0
                },
            );
        }
    }

    /// Goes back to the beginning.
    pub fn seek_to_start(&mut self, now: u64)
        ensures
            final(self)@ == old(self)@.restarted(now),
    {
        self.pos = 0;
        self.start = None;
        self.first_ts = None;
        self.init_time(now);
    }

    /// When message `i` is due.
    fn due_for(&self, i: usize) -> (r: Upcoming)
        requires
            i < self@.messages.len(),
            i == self@.pos,
        ensures
            r == self@.upcoming(),
    {
        if is_unpaced(self.options.rate) {
            return Upcoming::Now;
        }
        match (self.start, self.first_ts) {
            (Some(start), Some(first)) => Upcoming::Paced {
                start,
                delta: signed_difference(self.messages[i].stamp.0, first),
            },
            _ => Upcoming::Now,
        }
    }

    /// Makes ready to play the next message, and says when that is due.
    pub fn poll(&mut self, now: u64) -> (r: Upcoming)
        requires
            old(self)@.sound(),
        ensures
            final(self)@.sound(),
            final(self)@ == old(self)@.poised(now),
            r == old(self)@.poised(now).upcoming(),
    {
        if self.messages.len() == 0 {
            return Upcoming::End;
        }
        if self.pos >= self.messages.len() {
            if !self.options.loop_ {
                return Upcoming::End;
            }
            self.seek_to_start(now);
        } else {
            self.init_time(now);
        }
        self.due_for(self.pos)
    }

    fn take_next(&mut self) -> (m: OwnedMessage)
        requires
            old(self)@.pos < old(self)@.messages.len(),
        ensures
            m@ == old(self)@.messages[old(self)@.pos as int],
            final(self)@ == old(self)@.advanced(),
    {
        assert(self.pos < self.messages.len());
        let m: OwnedMessage = self.messages[self.pos].clone();
        self.pos = self.pos + 1;
        m
    }

    /// Takes the next message. To keep the pace, wait first for what [`Player::poll`] says.
    pub fn next_message(&mut self, now: u64) -> (r: Option<OwnedMessage>)
        requires
            old(self)@.sound(),
        ensures
            final(self)@.sound(),
            match r {
                Some(m) => old(self)@.given(now) == Some(m@),
                None => old(self)@.given(now) is None,
            },
            final(self)@ == old(self)@.after(now),
    {
        match self.poll(now) {
            Upcoming::End => None,
            _ => Some(self.take_next()),
        }
    }

    /// Takes the next message if it is due: where it is paced, `wait` nanoseconds of the wall
    /// clock after playing began.
    pub fn try_next(&mut self, now: u64, wait: u64) -> (r: TryNext)
        requires
            old(self)@.sound(),
        ensures
            final(self)@.sound(),
            ({
                let ready = old(self)@.poised(now);
                let early = ready.upcoming() matches Upcoming::Paced { start, delta } && now < start
                    + wait;
                match r {
                    TryNext::Ready(m) => !early && !ready.at_end() && m@
                        == ready.messages[ready.pos as int] && final(self)@ == ready.advanced(),
                    TryNext::NonBlocking => early && final(self)@ == ready,
                    TryNext::End => ready.at_end() && final(self)@ == ready,
                }
            }),
    {
        match self.poll(now) {
            Upcoming::End => {
                return TryNext::End;
            },
            Upcoming::Now => {},
            Upcoming::Paced { start, delta: _ } => {
                if (now as u128) < start as u128 + wait as u128 {
                    return TryNext::NonBlocking;
                }
            },
        }
        TryNext::Ready(self.take_next())
    }

    /// When playing began on the wall clock, and the recorded time that belongs to it, where
    /// time passes.
    pub fn clock(&self) -> (r: Option<(u64, u64)>)
        ensures
            r == self@.clock(),
    {
        if is_unpaced(self.options.rate) {
            return None;
        }
        match self.start {
            None => None,
            Some(s) => Some(
                (
                    s,
                    match self.first_ts {
                        Some(f) => f,
                        None => 0,
                    },
                ),
            ),
        }
    }

    /// The recorded time that it is now: `simulated` where time passes, else that of the first
    /// message; before a paced playing has begun it is zero.
    pub fn now(&self, simulated: u64) -> (r: Timestamp)
        ensures
            r.0 == (if self@.clock() is Some {
                simulated
            } else {
                match self@.first_ts {
                    Some(f) => f,
                    None => if play::unpaced(self@.options.rate) {
                        self@.first_or_zero()
                    } else {
                        0
                    },
                }
            }),
    {
        match self.clock() {
            Some(_) => Timestamp(simulated),
            None => match self.first_ts {
                Some(f) => Timestamp(f),
                None => if self.messages.len() > 0 && is_unpaced(self.options.rate) {
                    self.messages[0].stamp
                } else {
                    Timestamp(0)
                },
            },
        }
    }
}

/// Taking messages changes nothing but the position and the clock.
proof fn lemma_calls(v: SequenceView, clock: Seq<u64>)
    requires
        v.sound(),
    ensures
        ({
            let w = v.after_all(clock);
            w == (SequenceView {
                pos: play::moved(
                    v.pos as int,
                    v.messages.len() as int,
                    v.options.loop_,
                    clock.len() as int,
                ) as nat,
                start: w.start,
                first_ts: w.first_ts,
                ..v
            })
        }),
    decreases clock.len(),
{
    if clock.len() > 0 {
        let front = clock.drop_last();
        lemma_calls(v, front);
        if v.options.loop_ && v.messages.len() > 0 {
            play::lemma_turn(v.pos as int, v.messages.len() as int, front.len() as int);
        }
    }
}

/// Messages that are taken one after the other are the stored ones, from the playing position on;
/// behind the last one there is none, or, on a looped player, the first one again.
pub proof fn law_calls_give_the_stored_messages(v: SequenceView, clock: Seq<u64>, k: int)
    requires
        v.sound(),
        0 <= k < clock.len(),
    ensures
        v.call(clock, k) == (if v.pos + k < v.messages.len() {
            Some(v.messages[v.pos + k])
        } else if v.options.loop_ && v.messages.len() > 0 {
            Some(v.messages[(v.pos + k) % v.messages.len() as int])
        } else {
            None
        }),
{
    lemma_calls(v, clock.take(k));
    if v.options.loop_ && v.messages.len() > 0 {
        play::lemma_turn(v.pos as int, v.messages.len() as int, k);
        if v.pos + k < v.messages.len() {
            div_mod::lemma_small_mod((v.pos + k) as nat, v.messages.len());
        }
    }
}

} // verus!
