//! The decisions of loading a sound: which decoder a file goes to, which packets of
//! a stream count, and which samples make up a frame.
use crate::text::chars_of;
use vstd::prelude::*;

verus! {

/// What a stream hands over next.
#[derive(Clone, Copy, PartialEq, Eq, Structural, Debug)]
pub enum Event {
    /// A packet of this track.
    Packet(u32),
    /// The end, or a container that breaks off.
    End,
    /// The packet asked for, decoded at this rate.
    Decoded(u32),
    /// The packet asked for could not be decoded.
    Corrupt,
}

/// What to do about it.
#[derive(Clone, Copy, PartialEq, Eq, Structural, Debug)]
pub enum Action {
    /// Ask for the next packet.
    Next,
    /// Decode this packet.
    Decode,
    /// Fold the decoded samples into the sound, then ask for the next packet.
    Fold,
    /// Stop: the sound is what was folded so far, at this rate.
    Finish(u32),
    /// Stop: without a rate there is no sound.
    Fail,
}

/// A stream being decoded.
#[derive(Clone, Copy, PartialEq, Eq, Structural, Debug)]
pub struct Stream {
    /// The track that is listened to.
    pub track: u32,
    /// Samples per second, or 0 while it is unknown.
    pub rate: u32,
}

/// What becomes of the rate.
pub open spec fn rate_after(s: Stream, e: Event) -> u32 {
    match e {
        Event::Decoded(r) => if s.rate == 0 {
            r
        } else {
            s.rate
        },
        _ => s.rate,
    }
}

/// The answer to an event.
pub open spec fn answer(s: Stream, e: Event) -> Action {
    match e {
        Event::Packet(t) => if t == s.track {
            Action::Decode
        } else {
            Action::Next
        },
        Event::Decoded(_) => Action::Fold,
        Event::Corrupt => Action::Next,
        Event::End => if s.rate == 0 {
            Action::Fail
        } else {
            Action::Finish(s.rate)
        },
    }
}

impl Stream {
    /// Take an event and say what to do.
    pub fn on(&mut self, e: Event) -> (a: Action)
        ensures
            a == answer(*old(self), e),
            *final(self) == (Stream { rate: rate_after(*old(self), e), ..*old(self) }),
    {
        match e {
            Event::Packet(t) => if t == self.track {
                Action::Decode
            } else {
                Action::Next
            },
            Event::Decoded(r) => {
                if self.rate == 0 {
                    self.rate = r;
                }
                Action::Fold
            },
            Event::Corrupt => Action::Next,
            Event::End => if self.rate == 0 {
                Action::Fail
            } else {
                Action::Finish(self.rate)
            },
        }
    }
}

/// A stream's rate, once known, does not change.
pub proof fn law_the_first_rate_counts(s: Stream, e: Event)
    requires
        s.rate != 0,
    ensures
        rate_after(s, e) == s.rate,
{
}

/// A letter with its case dropped.
pub open spec fn lower(c: char) -> int {
    if 65 <= c as u32 && c as u32 <= 90 {
        c as u32 + 32
    } else {
        c as u32 as int
    }
}

/// Whether two words are the same but for the case of their letters.
pub open spec fn same_word(a: Seq<char>, b: Seq<char>) -> bool {
    a.len() == b.len() && forall|i: int| 0 <= i < a.len() ==> lower(#[trigger] a[i]) == lower(b[i])
}

fn to_lower(c: char) -> (r: u32)
    ensures
        r == lower(c),
{
    let u: u32 = c as u32;
    if 65 <= u && u <= 90 {
        u + 32
    } else {
        u
    }
}

fn is_word(a: &str, b: &str) -> (r: bool)
    ensures
        r == same_word(a@, b@),
{
    let x = chars_of(a);
    let y = chars_of(b);
    if x.len() != y.len() {
        return false;
    }
    let mut i: usize = 0;
    while i < x.len()
        invariant
            i <= x@.len() == y@.len(),
            x@ == a@,
            y@ == b@,
            forall|k: int| 0 <= k < i ==> lower(#[trigger] x@[k]) == lower(y@[k]),
        decreases x@.len() - i,
    {
        if to_lower(x[i]) != to_lower(y[i]) {
            assert(lower(a@[i as int]) != lower(b@[i as int]));
            return false;
        }
        i += 1;
    }
    true
}

/// Whether a file's extension sends it to the WAV decoder first.
pub fn is_wav(extension: Option<&str>) -> (r: bool)
    ensures
        r == (match extension {
            Some(e) => same_word(e@, "wav"@) || same_word(e@, "wave"@),
            None => false,
        }),
{
    match extension {
        Some(e) => is_word(e, "wav") || is_word(e, "wave"),
        None => false,
    }
}

/// How many frames interleaved samples make, the last one possibly short.
pub open spec fn frames(len: int, channels: int) -> int {
    if channels <= 1 {
        len
    } else {
        (len + channels - 1) / channels
    }
}

/// The samples of each frame: from one index up to another. Folding a stream to one
/// channel gives one sample per frame.
pub fn frame_ranges(len: usize, channels: usize) -> (r: Vec<(usize, usize)>)
    ensures
        r@.len() == frames(len as int, channels as int),
        forall|i: int|
            0 <= i < r@.len() ==> {
                let n = if channels <= 1 {
                    1
                } else {
                    channels as int
                };
                (#[trigger] r@[i]).0 == i * n && r@[i].1 == (if i * n + n < len {
                    i * n + n
                } else {
                    len as int
                }) && r@[i].0 < r@[i].1
            },
{
    let n: usize = if channels <= 1 {
        1
    } else {
        channels
    };
    let mut r: Vec<(usize, usize)> = Vec::new();
    let mut at: usize = 0;
    proof {
        assert(0 * n == 0) by (nonlinear_arith);
        assert(frames(0, n as int) == 0) by {
            vstd::arithmetic::div_mod::lemma_basic_div(n - 1, n as int);
        }
    }
    while at < len
        invariant
            n == (if channels <= 1 {
                1
            } else {
                channels as int
            }),
            n > 0,
            at < len ==> at == r@.len() * n,
            at <= len,
            at >= len ==> r@.len() == frames(len as int, channels as int),
            forall|i: int|
                0 <= i < r@.len() ==> (#[trigger] r@[i]).0 == i * n && r@[i].1 == (if i * n + n
                    < len {
                    i * n + n
                } else {
                    len as int
                }) && r@[i].0 < r@[i].1,
        decreases len - at,
    {
        let end: usize = if len - at > n {
            at + n
        } else {
            len
        };
        let ghost k = r@.len() as int;
        r.push((at, end));
        at = end;
        proof {
            assert((k + 1) * n == k * n + n) by (nonlinear_arith);
            if at >= len {
                let d = len as int;
                let m = n as int;
                assert(d + m - 1 == m * (k + 1) + (d - 1 - m * k)) by (nonlinear_arith);
                assert(m * k == k * m) by (nonlinear_arith);
                vstd::arithmetic::div_mod::lemma_fundamental_div_mod_converse(
                    d + m - 1,
                    m,
                    k + 1,
                    d - 1 - m * k,
                );
            }
        }
    }
    r
}

/// A packet is decoded exactly where it is of the track that is listened to, what was
/// decoded is folded in, and what cannot be decoded is passed over. The end is a failure
/// exactly where nothing was ever decoded at some rate.
pub proof fn law_every_event_has_its_answer(s: Stream, e: Event)
    ensures
        answer(s, e) == Action::Decode <==> e == Event::Packet(s.track),
        answer(s, e) == Action::Fold <==> e is Decoded,
        answer(s, e) == Action::Fail <==> e is End && s.rate == 0,
        answer(s, e) is Finish <==> e is End && s.rate != 0,
        e is End && s.rate != 0 ==> answer(s, e) == Action::Finish(s.rate),
        e is Corrupt ==> answer(s, e) == Action::Next,
        s.rate == 0 ==> rate_after(s, e) == (match e {
            Event::Decoded(r) => r,
            _ => 0,
        }),
{
}

/// Capital letters and small ones are the same letter; every other character is itself
/// alone.
pub proof fn law_case_is_dropped_from_letters_only(c: char, d: char)
    ensures
        'a' <= c <= 'z' && c as u32 == d as u32 + ('a' as u32 - 'A' as u32) ==> lower(c) == lower(
            d,
        ),
        lower(c) == lower(d) && !('A' <= c <= 'Z') && !('A' <= d <= 'Z') ==> c == d,
        lower(c) == lower(d) && !('a' <= c <= 'z') && !('A' <= c <= 'Z') ==> c == d,
{
}

/// Being the same word goes both ways and from word to word.
pub proof fn law_same_words_are_alike(a: Seq<char>, b: Seq<char>, c: Seq<char>)
    ensures
        same_word(a, a),
        same_word(a, b) ==> same_word(b, a),
        same_word(a, b) && same_word(b, c) ==> same_word(a, c),
        same_word(a, b) ==> a.len() == b.len(),
{
    if same_word(a, b) {
        assert forall|i: int| 0 <= i < b.len() implies lower(#[trigger] b[i]) == lower(a[i]) by {
            assert(lower(a[i]) == lower(b[i]));
        }
        if same_word(b, c) {
            assert forall|i: int| 0 <= i < a.len() implies lower(#[trigger] a[i]) == lower(
                c[i],
            ) by {
                assert(lower(b[i]) == lower(c[i]));
            }
        }
    }
}

/// There are as few frames as hold all samples, and each but the last is whole.
pub proof fn law_frames_hold_every_sample(len: int, channels: int)
    requires
        len >= 0,
        channels >= 1,
    ensures
        len <= frames(len, channels) * channels < len + channels,
        len == 0 ==> frames(len, channels) == 0,
        channels == 1 ==> frames(len, channels) == len,
{
    let f = (len + channels - 1) / channels;
    assert(f * channels <= len + channels - 1 < (f + 1) * channels) by (nonlinear_arith)
        requires
            f == (len + channels - 1) / channels,
            channels >= 1,
            len >= 0,
    ;
    assert((f + 1) * channels == f * channels + channels) by (nonlinear_arith);
    if channels > 1 && len == 0 {
        assert((channels - 1) / channels == 0) by (nonlinear_arith)
            requires
                channels > 1,
        ;
    }
}

} // verus!
