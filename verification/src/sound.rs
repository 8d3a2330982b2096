//! The record of what a program asked to be played, kept whether or not there is
//! a device to play it on.
use vstd::prelude::*;

verus! {

/// A note captured for offline rendering.
#[derive(Clone, Copy, PartialEq, Eq, Structural, Debug)]
pub struct Note {
    pub semitone: i32,
    pub dur_ms: i64,
    /// The virtual start time, as the bits of its number of seconds.
    pub at: u64,
}

/// What to do about a request to play.
#[derive(Clone, Copy, PartialEq, Eq, Structural, Debug)]
pub enum Play {
    /// Nothing reaches a device.
    Silent,
    /// Hand the buffer behind this handle to the mixer.
    Mix(usize),
}

pub struct SoundLog {
    pub plays: i64,
    /// The handle most recently played, or -1.
    pub last: i64,
    /// The music bed now playing, or -1.
    pub now: i64,
    /// How often a bed was started.
    pub starts: i64,
    pub notes: Vec<Note>,
    /// No device: requests are recorded and nothing is played.
    pub headless: bool,
}

/// A handle as the mixer's index, where there is a device.
pub open spec fn routed(headless: bool, handle: int) -> Play {
    if headless || handle < 0 {
        Play::Silent
    } else {
        Play::Mix(handle as usize)
    }
}

/// The record after a sound was asked for. A negative handle is no sound and is
/// not counted.
pub open spec fn played(s: SoundLog, handle: i64) -> SoundLog {
    if handle < 0 {
        s
    } else {
        SoundLog { plays: (s.plays + 1) as i64, last: handle, ..s }
    }
}

/// A percentage held to 0..=200.
pub fn volume_percent(percent: i64) -> (r: i64)
    ensures
        r == (if percent < 0 {
            0
        } else if percent > 200 {
            200
        } else {
            percent as int
        }),
{
    if percent < 0 {
        0
    } else if percent > 200 {
        200
    } else {
        percent
    }
}

impl SoundLog {
    pub fn new(headless: bool) -> (s: SoundLog)
        ensures
            s.plays == 0,
            s.last == -1,
            s.now == -1,
            s.starts == 0,
            s.notes@.len() == 0,
            s.headless == headless,
    {
        SoundLog { plays: 0, last: -1, now: -1, starts: 0, notes: Vec::new(), headless }
    }

    /// Play a cached sound. A negative handle is no sound and is not counted.
    pub fn play_sound_handle(&mut self, handle: i64) -> (r: Play)
        requires
            old(self).plays < i64::MAX,
            handle <= usize::MAX,
        ensures
            r == routed(old(self).headless, handle as int),
            *final(self) == played(*old(self), handle),
    {
        if handle < 0 {
            return Play::Silent;
        }
        self.plays = self.plays + 1;
        self.last = handle;
        if self.headless {
            return Play::Silent;
        }
        Play::Mix(handle as usize)
    }

    /// Start a music bed in place of any other.
    pub fn play_music(&mut self, handle: i64) -> (r: Play)
        requires
            old(self).starts < i64::MAX,
            handle <= usize::MAX,
        ensures
            r == routed(old(self).headless, handle as int),
            handle < 0 ==> *final(self) == *old(self),
            handle >= 0 ==> *final(self) == (SoundLog {
                now: handle,
                starts: (old(self).starts + 1) as i64,
                ..*old(self)
            }),
    {
        if handle < 0 {
            return Play::Silent;
        }
        self.now = handle;
        self.starts = self.starts + 1;
        if self.headless {
            return Play::Silent;
        }
        Play::Mix(handle as usize)
    }

    /// Stop the music bed.
    pub fn music_stop(&mut self)
        ensures
            *final(self) == (SoundLog { now: final(self).now, ..*old(self) }),
            final(self).now == -1,
    {
        self.now = -1;
    }

    /// Start the ambience bed. It is not part of the record.
    pub fn play_ambience(&self, handle: i64) -> (r: Play)
        requires
            handle <= usize::MAX,
        ensures
            r == routed(self.headless, handle as int),
    {
        if handle < 0 || self.headless {
            return Play::Silent;
        }
        Play::Mix(handle as usize)
    }

    /// Play one note: captured where there is no device. Returns whether it goes
    /// to the device.
    pub fn play_note(&mut self, semitone: i32, dur_ms: i64, at: u64) -> (device: bool)
        ensures
            device == !old(self).headless,
            *final(self) == (SoundLog { notes: final(self).notes, ..*old(self) }),
            final(self).notes@ == (if device {
                old(self).notes@
            } else {
                old(self).notes@.push(
                    Note {
                        semitone,
                        dur_ms: (if dur_ms > 0 {
                            dur_ms
                        } else {
                            0
                        }),
                        at,
                    },
                )
            }),
    {
        if !self.headless {
            return true;
        }
        let dur_ms: i64 = if dur_ms > 0 {
            dur_ms
        } else {
            0
        };
        self.notes.push(Note { semitone, dur_ms, at });
        false
    }

    /// Play a note without waiting for it. A looped one is never captured.
    pub fn play_sound(&mut self, semitone: i32, dur_ms: i64, looped: bool, at: u64) -> (device:
        bool)
        ensures
            device == !old(self).headless,
            *final(self) == (SoundLog { notes: final(self).notes, ..*old(self) }),
            final(self).notes@ == (if device || looped {
                old(self).notes@
            } else {
                old(self).notes@.push(
                    Note {
                        semitone,
                        dur_ms: (if dur_ms > 0 {
                            dur_ms
                        } else {
                            0
                        }),
                        at,
                    },
                )
            }),
    {
        if looped {
            return !self.headless;
        }
        self.play_note(semitone, dur_ms, at)
    }

    /// The music bed now playing, or -1.
    pub fn music_now(&self) -> (r: i64)
        ensures
            r == self.now,
    {
        self.now
    }

    pub fn music_starts(&self) -> (r: i64)
        ensures
            r == self.starts,
    {
        self.starts
    }

    pub fn audio_plays(&self) -> (r: i64)
        ensures
            r == self.plays,
    {
        self.plays
    }

    pub fn audio_last_sound(&self) -> (r: i64)
        ensures
            r == self.last,
    {
        self.last
    }
}

/// The record does not depend on whether there is a device: the same request
/// leaves the same counts either way.
pub proof fn law_the_record_is_the_same_headless(a: SoundLog, b: SoundLog, handle: i64)
    requires
        a.plays == b.plays,
        a.last == b.last,
    ensures
        played(a, handle).plays == played(b, handle).plays,
        played(a, handle).last == played(b, handle).last,
{
}

/// A silent build reports no plays: handles of sounds that did not load leave no
/// trace.
pub proof fn law_missing_sounds_are_not_counted(s: SoundLog, handle: i64)
    requires
        handle < 0,
    ensures
        played(s, handle) == s,
{
}

/// Every sound that loaded is counted once when it is asked for and is then the last one.
pub proof fn law_every_play_is_counted(s: SoundLog, handle: i64)
    requires
        handle >= 0,
        s.plays < i64::MAX,
    ensures
        played(s, handle).plays == s.plays + 1,
        played(s, handle).last == handle,
{
}

/// A sound goes to the mixer under its handle where there is a device and it loaded, and
/// is silent otherwise.
pub proof fn law_sounds_reach_the_mixer_under_their_handle(handle: int)
    requires
        handle <= usize::MAX,
    ensures
        handle >= 0 ==> (routed(false, handle) matches Play::Mix(i) && i == handle),
        handle < 0 ==> routed(false, handle) == Play::Silent,
        routed(true, handle) == Play::Silent,
{
}

} // verus!
