//! The stream of intermediate pictures.

use crate::text::{append_decimal, append_padded, decimal, padded_decimal};
use vstd::prelude::*;

verus! {

/// Counts the pictures of a stream.
#[derive(Clone, Copy, Debug)]
pub struct StreamWriter {
    keep_frames: bool,
    every: usize,
    index: usize,
    accepted_seen: usize,
}

/// How far a stream has come.
pub struct Streaming {
    pub keep_frames: bool,
    pub every: nat,
    pub index: nat,
    pub seen: nat,
}

impl View for StreamWriter {
    type V = Streaming;

    closed spec fn view(&self) -> Streaming {
        Streaming {
            keep_frames: self.keep_frames,
            every: self.every as nat,
            index: self.index as nat,
            seen: self.accepted_seen as nat,
        }
    }
}

impl Streaming {
    /// Whether the next picture is written.
    pub open spec fn due(self) -> bool {
        (self.seen + 1) % self.every == 0
    }

    /// How far the stream has come with one more picture.
    pub open spec fn advanced(self) -> Streaming {
        Streaming {
            seen: self.seen + 1,
            index: if self.due() {
                self.index + 1
            } else {
                self.index
            },
            ..self
        }
    }

    /// How far the stream has come with `n` more pictures.
    pub open spec fn after(self, n: nat) -> Streaming
        decreases n,
    {
        if n == 0 {
            self
        } else {
            self.after((n - 1) as nat).advanced()
        }
    }
}

/// The name of a numbered picture.
pub open spec fn frame_name(index: nat) -> Seq<char> {
    "frames/"@ + padded_decimal(index, 6) + ".png"@
}

/// A picture that is written to the stream.
#[derive(Debug)]
pub struct StreamUpdate {
    pub index: usize,
    /// The name of the numbered picture.
    pub frame: String,
    /// Whether the numbered picture is kept.
    pub keep: bool,
}

/// What is told of a picture in the stream.
pub struct Facts {
    pub width: nat,
    pub height: nat,
    pub frames: nat,
    pub accepted: nat,
    pub updated_at_ms: nat,
}

/// The description of the latest picture in a stream.
pub open spec fn manifest_text(index: nat, frame: Option<Seq<char>>, facts: Facts) -> Seq<char> {
    "{\n  \"version\": 1,\n  \"index\": "@ + decimal(index)
        + ",\n  \"latest\": \"latest.png\",\n  \"frame\": "@ + (match frame {
        Some(name) => "\""@ + name + "\""@,
        None => "null"@,
    }) + ",\n  \"width\": "@ + decimal(facts.width) + ",\n  \"height\": "@ + decimal(facts.height)
        + ",\n  \"frames\": "@ + decimal(facts.frames) + ",\n  \"accepted\": "@ + decimal(
        facts.accepted,
    ) + ",\n  \"updated_at_ms\": "@ + decimal(facts.updated_at_ms) + "\n}\n"@
}

impl StreamWriter {
    #[verifier::type_invariant]
    spec fn counted(&self) -> bool {
        self.every > 0 && self.index as int == self.accepted_seen as int / self.every as int
    }

    pub fn new(keep_frames: bool, every: usize) -> (stream: StreamWriter)
        requires
            every > 0,
        ensures
            stream@ == (Streaming { keep_frames, every: every as nat, index: 0, seen: 0 }),
    {
        proof {
            vstd::arithmetic::div_mod::lemma_div_basics(every as int);
        }
        StreamWriter { keep_frames, every, index: 0, accepted_seen: 0 }
    }

    /// How many pictures were counted.
    pub fn seen(&self) -> (seen: usize)
        ensures
            seen == self@.seen,
    {
        self.accepted_seen
    }

    /// Counts a picture, and tells how it is written, if it is.
    pub fn next_update(&mut self) -> (update: Option<StreamUpdate>)
        requires
            old(self)@.seen < usize::MAX,
        ensures
            final(self)@ == old(self)@.advanced(),
            final(self)@.every > 0,
            final(self)@.index == final(self)@.seen / final(self)@.every,
            match update {
                None => !old(self)@.due(),
                Some(update) => {
                    &&& old(self)@.due()
                    &&& update.index == old(self)@.index + 1
                    &&& update.index == final(self)@.seen / final(self)@.every
                    &&& update.frame@ == frame_name(old(self)@.index + 1)
                    &&& update.keep == old(self)@.keep_frames
                },
            },
    {
        proof {
            use_type_invariant(&*self);
            lemma_written_share(self@);
            vstd::arithmetic::div_mod::lemma_div_is_ordered_by_denominator(
                self.accepted_seen as int,
                1,
                self.every as int,
            );
        }
        let seen: usize = self.accepted_seen + 1;
        let due: bool = seen % self.every == 0;
        let index: usize = if due {
            self.index + 1
        } else {
            self.index
        };
        *self =
        StreamWriter {
            keep_frames: self.keep_frames,
            every: self.every,
            index,
            accepted_seen: seen,
        };
        if !due {
            return None;
        }
        let mut frame = "frames/".to_owned();
        append_padded(&mut frame, self.index as u64, 6);
        frame.append(".png");
        Some(StreamUpdate { index: self.index, frame, keep: self.keep_frames })
    }
}

/// The description of the latest picture in a stream.
pub fn manifest(
    update: &StreamUpdate,
    width: u32,
    height: u32,
    frames: usize,
    accepted: usize,
    updated_at_ms: u128,
) -> (text: String)
    ensures
        text@ == manifest_text(
            update.index as nat,
            if update.keep {
                Some(update.frame@)
            } else {
                None
            },
            Facts {
                width: width as nat,
                height: height as nat,
                frames: frames as nat,
                accepted: accepted as nat,
                updated_at_ms: updated_at_ms as nat,
            },
        ),
{
    let mut text = "{\n  \"version\": 1,\n  \"index\": ".to_owned();
    append_decimal(&mut text, update.index as u128);
    text.append(",\n  \"latest\": \"latest.png\",\n  \"frame\": ");
    let mut frame = String::new();
    if update.keep {
        frame.append("\"");
        frame.append(update.frame.as_str());
        frame.append("\"");
        proof {
            assert(frame@ =~= "\""@ + update.frame@ + "\""@);
        }
    } else {
        frame.append("null");
        proof {
            assert(frame@ =~= "null"@);
        }
    }
    text.append(frame.as_str());
    text.append(",\n  \"width\": ");
    append_decimal(&mut text, width as u128);
    text.append(",\n  \"height\": ");
    append_decimal(&mut text, height as u128);
    text.append(",\n  \"frames\": ");
    append_decimal(&mut text, frames as u128);
    text.append(",\n  \"accepted\": ");
    append_decimal(&mut text, accepted as u128);
    text.append(",\n  \"updated_at_ms\": ");
    append_decimal(&mut text, updated_at_ms);
    text.append("\n}\n");
    text
}

/// Of the pictures counted, every one in `every` is written.
pub proof fn lemma_written_share(s: Streaming)
    requires
        s.every > 0,
        s.index == s.seen / s.every,
    ensures
        s.advanced().index == s.advanced().seen / s.every,
{
    let n = s.seen as int;
    let d = s.every as int;
    vstd::arithmetic::div_mod::lemma_fundamental_div_mod(n, d);
    vstd::arithmetic::div_mod::lemma_mod_bound(n, d);
    let q = n / d;
    let r = n % d;
    if r + 1 == d {
        assert(n + 1 == (q + 1) * d + 0) by (nonlinear_arith)
            requires
                n == d * q + r,
                r + 1 == d,
        ;
        vstd::arithmetic::div_mod::lemma_fundamental_div_mod_converse(n + 1, d, q + 1, 0);
    } else {
        assert(n + 1 == q * d + (r + 1)) by (nonlinear_arith)
            requires
                n == d * q + r,
        ;
        vstd::arithmetic::div_mod::lemma_fundamental_div_mod_converse(n + 1, d, q, r + 1);
    }
}

/// After `n` pictures of a new stream `n` are counted and one in `every` of them was written,
/// and the next is written if and only if it completes another `every`.
pub proof fn lemma_written(keep_frames: bool, every: nat, n: nat)
    requires
        every > 0,
    ensures
        ({
            let stream = (Streaming { keep_frames, every, index: 0, seen: 0 }).after(n);
            &&& stream.keep_frames == keep_frames
            &&& stream.every == every
            &&& stream.seen == n
            &&& stream.index == n / every
            &&& stream.due() <==> (n + 1) % every == 0
            &&& stream.due() ==> stream.index + 1 == (n + 1) / every
        }),
    decreases n,
{
    let blank = Streaming { keep_frames, every, index: 0, seen: 0 };
    if n == 0 {
        vstd::arithmetic::div_mod::lemma_div_basics(every as int);
    } else {
        lemma_written(keep_frames, every, (n - 1) as nat);
        lemma_written_share(blank.after((n - 1) as nat));
    }
    lemma_written_share(blank.after(n));
}

} // verus!
