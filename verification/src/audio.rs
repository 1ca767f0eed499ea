//! The game's sounds: buffers of 44100 Hz stereo samples, and the sources
//! that play them, once or in a loop.

use vstd::prelude::*;
use vstd::string::StringExecFns;
use vstd::arithmetic::div_mod::{lemma_add_mod_noop_right, lemma_small_mod};
use std::sync::Arc;

verus! {

/// The sounds of the game, in the order of their buffers.
#[derive(Clone, Copy, Debug, PartialEq, Eq, Structural)]
pub enum Sound {
    Shoot,
    Kill,
    Death,
    AllKilled,
    Portal,
    Bounce,
    DepthBallAttack,
    DepthBallBirthDeath,
    Eraser,
    Attracted,
}

/// The position of a sound's buffer.
pub open spec fn sound_slot(s: Sound) -> nat {
    match s {
        Sound::Shoot => 0,
        Sound::Kill => 1,
        Sound::Death => 2,
        Sound::AllKilled => 3,
        Sound::Portal => 4,
        Sound::Bounce => 5,
        Sound::DepthBallAttack => 6,
        Sound::DepthBallBirthDeath => 7,
        Sound::Eraser => 8,
        Sound::Attracted => 9,
    }
}

impl Sound {
    /// The position of the sound's buffer.
    pub fn index(&self) -> (i: usize)
        ensures
            i == sound_slot(*self),
    {
        match *self {
            Sound::Shoot => 0,
            Sound::Kill => 1,
            Sound::Death => 2,
            Sound::AllKilled => 3,
            Sound::Portal => 4,
            Sound::Bounce => 5,
            Sound::DepthBallAttack => 6,
            Sound::DepthBallBirthDeath => 7,
            Sound::Eraser => 8,
            Sound::Attracted => 9,
        }
    }
}

/// The sample rate every sound must have.
pub const SAMPLE_RATE: u32 = 44100;

/// The number of channels every sound must have.
pub const CHANNELS: u16 = 2;

/// `Arc::clone`: another pointer to the same samples. The contract claims
/// what the standard library documents: the clone points to the same
/// allocation, so it holds the same samples.
#[verifier::external_body]
fn share(samples: &Arc<Vec<i16>>) -> (r: Arc<Vec<i16>>)
    ensures
        r@ == samples@,
{
    Arc::clone(samples)
}

/// The samples of a decoded sound, 44100 Hz stereo.
pub struct SoundBuffer {
    samples: Arc<Vec<i16>>,
}

impl SoundBuffer {
    pub closed spec fn samples(&self) -> Seq<i16> {
        self.samples@
    }

    /// The buffer of a decoded sound, refused unless the sound is 44100 Hz
    /// stereo.
    pub fn new(sample_rate: u32, channels: u16, samples: Vec<i16>) -> (r: Result<Self, String>)
        ensures
            match r {
                Ok(b) => sample_rate == SAMPLE_RATE && channels == CHANNELS && b.samples() == samples@,
                Err(e) => (sample_rate != SAMPLE_RATE && e@ == "invalid samples rate: must be 44100 Hz"@)
                    || (sample_rate == SAMPLE_RATE && channels != CHANNELS && e@
                    == "invalid channels: must be stereo"@),
            },
    {
        if sample_rate != SAMPLE_RATE {
            return Err(String::from_str("invalid samples rate: must be 44100 Hz"));
        }
        if channels != CHANNELS {
            return Err(String::from_str("invalid channels: must be stereo"));
        }
        Ok(SoundBuffer { samples: Arc::new(samples) })
    }

    /// A source that plays the buffer once, from its start.
    pub fn source(&self) -> (s: SoundSource)
        ensures
            s.samples() == self.samples(),
            s.cursor() == 0,
    {
        SoundSource { samples: share(&self.samples), cursor: 0 }
    }

    /// A source that plays the buffer in a loop, from its start.
    pub fn infinite_source(&self) -> (s: InfiniteSoundSource)
        ensures
            s.samples() == self.samples(),
            s.cursor() == 0,
    {
        let len = self.samples.len();
        InfiniteSoundSource { samples: share(&self.samples), cursor: 0, len }
    }
}

/// Plays a buffer once.
pub struct SoundSource {
    samples: Arc<Vec<i16>>,
    cursor: usize,
}

impl SoundSource {
    pub closed spec fn samples(&self) -> Seq<i16> {
        self.samples@
    }

    pub closed spec fn cursor(&self) -> int {
        self.cursor as int
    }

    /// The next sample, until the end of the buffer; nothing after.
    pub fn next(&mut self) -> (r: Option<i16>)
        requires
            old(self).cursor() < usize::MAX,
        ensures
            final(self).samples() == old(self).samples(),
            final(self).cursor() == old(self).cursor() + 1,
            r == (if old(self).cursor() < old(self).samples().len() {
                Some(old(self).samples()[old(self).cursor()])
            } else {
                None::<i16>
            }),
    {
        let sample = if self.cursor < self.samples.len() {
            Some(self.samples[self.cursor])
        } else {
            None
        };
        self.cursor = self.cursor + 1;
        sample
    }
}

/// The cursor of a looping source of `n` samples after `k` calls of
/// `next` from cursor `c`.
pub open spec fn advance(c: int, n: int, k: nat) -> int
    decreases k,
{
    if k == 0 {
        c
    } else {
        (advance(c, n, (k - 1) as nat) + 1) % n
    }
}

/// A looping source started at the first sample gives, at its `k`-th
/// call (from 0), the sample `k` modulo the number of samples: its cursor
/// is then `k % n`.
pub proof fn lemma_loop_cursor(n: int, k: nat)
    requires
        n > 0,
    ensures
        advance(0, n, k) == (k as int) % n,
    decreases k,
{
    if k == 0 {
        lemma_small_mod(0, n as nat);
    } else {
        lemma_loop_cursor(n, (k - 1) as nat);
        lemma_add_mod_noop_right(1, k - 1, n);
    }
}

/// Plays a buffer in a loop.
pub struct InfiniteSoundSource {
    samples: Arc<Vec<i16>>,
    cursor: usize,
    len: usize,
}

impl InfiniteSoundSource {
    #[verifier::type_invariant]
    closed spec fn inv(&self) -> bool {
        &&& self.len == self.samples@.len()
        &&& (self.len == 0 || self.cursor < self.len)
    }

    pub closed spec fn samples(&self) -> Seq<i16> {
        self.samples@
    }

    pub closed spec fn cursor(&self) -> int {
        self.cursor as int
    }

    /// The next sample; after the last one comes the first again. A source
    /// of an empty buffer has none to give.
    pub fn next(&mut self) -> (r: Option<i16>)
        requires
            old(self).samples().len() > 0,
        ensures
            final(self).samples() == old(self).samples(),
            0 <= old(self).cursor() < old(self).samples().len(),
            final(self).cursor() == (old(self).cursor() + 1) % (old(self).samples().len() as int),
            r == Some(old(self).samples()[old(self).cursor()]),
    {
        proof {
            use_type_invariant(&*self);
        }
        let sample = Some(self.samples[self.cursor]);
        self.cursor = (self.cursor + 1) % self.len;
        sample
    }
}

} // verus!
