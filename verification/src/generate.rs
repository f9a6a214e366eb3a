//! The decisions of greedy text generation.
//!
//! Printing and the clock stay outside: a loop asks [`Progress::next`] what to
//! do, hands the bytes of each token to [`StreamBuffer::push`] and prints what
//! comes back.

use vstd::prelude::*;
use vstd::utf8::*;

use crate::arith::Arith;
use crate::gguf::{Model, ModelView, ValueView};
use crate::nn::{linear, linear_is, rmsnorm, rmsnorm_is};
use crate::stats::{argmax, argmax_is};
use crate::text::{is_longest_utf8, lossy_text, utf8_lossy, utf8_split};
use crate::transformer::meta_u32_of;

verus! {

/// What to do next.
#[derive(Debug, Clone, Copy, PartialEq, Eq, Structural)]
pub enum Action {
    /// Print the token, and run it through the model at this position.
    Emit { token: usize, pos: usize },
    /// Stop: the model has predicted the end of the text.
    Eos,
    /// Stop: there is no position left in the context window.
    ContextFull { pos: usize },
    /// Stop: as many tokens as were asked for have been produced.
    LimitReached,
}

/// How far the generation has come.
#[derive(Debug, Clone, Copy, PartialEq, Eq, Structural)]
pub struct Progress {
    /// How many more tokens may be produced.
    pub remaining: usize,
    /// The position of the next token.
    pub pos: usize,
    /// How many tokens have been produced.
    pub produced: usize,
}

impl Progress {
    /// What to do with a predicted token.
    pub open spec fn action(self, token: usize, eos: usize, max_seq_len: usize) -> Action {
        if self.remaining == 0 {
            Action::LimitReached
        } else if token == eos {
            Action::Eos
        } else if self.pos >= max_seq_len {
            Action::ContextFull { pos: self.pos }
        } else {
            Action::Emit { token, pos: self.pos }
        }
    }

    /// After a prompt of `prompt` tokens, with `limit` tokens asked for.
    pub fn start(prompt: usize, limit: usize) -> (p: Self)
        ensures
            p == (Progress { remaining: limit, pos: prompt, produced: 0 }),
    {
        Progress { remaining: limit, pos: prompt, produced: 0 }
    }

    /// Decides what to do with a predicted token, and counts it if it is emitted.
    /// Tokens still to come and tokens produced always add up to the number asked
    /// for.
    pub fn next(&mut self, token: usize, eos: usize, max_seq_len: usize) -> (action: Action)
        requires
            old(self).produced + old(self).remaining <= usize::MAX,
        ensures
            action == old(self).action(token, eos, max_seq_len),
            action is Emit ==> *final(self) == (Progress {
                remaining: (old(self).remaining - 1) as usize,
                pos: (old(self).pos + 1) as usize,
                produced: (old(self).produced + 1) as usize,
            }),
            !(action is Emit) ==> *final(self) == *old(self),
            final(self).produced + final(self).remaining == old(self).produced + old(
                self,
            ).remaining,
            action is Emit ==> final(self).pos <= max_seq_len,
    {
        if self.remaining == 0 {
            return Action::LimitReached;
        }
        if token == eos {
            return Action::Eos;
        }
        if self.pos >= max_seq_len {
            return Action::ContextFull { pos: self.pos };
        }
        let pos: usize = self.pos;
        self.remaining = self.remaining - 1;
        self.pos = pos + 1;
        self.produced = self.produced + 1;
        Action::Emit { token, pos }
    }
}

/// The bytes of a stream of tokens that are no whole character yet.
pub struct StreamBuffer {
    pub bytes: Vec<u8>,
}

impl StreamBuffer {
    /// An empty buffer.
    pub fn new() -> (b: Self)
        ensures
            b.bytes@ == Seq::<u8>::empty(),
    {
        StreamBuffer { bytes: Vec::new() }
    }

    /// Adds the bytes of a token, and takes out the text that is complete: the
    /// longest prefix that is valid UTF-8. No byte is lost: what was there and
    /// what is added is what comes out and what is kept.
    pub fn push(&mut self, token: &[u8]) -> (text: String)
        ensures
            ({
                let all = old(self).bytes@ + token@;
                let n = all.len() - final(self).bytes@.len();
                &&& is_longest_utf8(all, n)
                &&& final(self).bytes@ == all.skip(n)
                &&& text@ == decode_utf8(all.take(n))
            }),
            encode_utf8(text@) + final(self).bytes@ == old(self).bytes@ + token@,
    {
        let ghost before = self.bytes@;
        for i in 0..token.len()
            invariant
                self.bytes@ == before + token@.take(i as int),
        {
            self.bytes.push(token[i]);
            assert(self.bytes@ =~= before + token@.take(i + 1));
        }
        assert(token@.take(token@.len() as int) =~= token@);
        let ghost all = self.bytes@;
        let (valid, rest) = utf8_split(self.bytes.as_slice());
        let n: usize = valid.len();
        let text = utf8_lossy(valid);
        let mut kept: Vec<u8> = Vec::new();
        for i in n..self.bytes.len()
            invariant
                n <= self.bytes@.len(),
                self.bytes@ == all,
                kept@ == all.subrange(n as int, i as int),
        {
            kept.push(self.bytes[i]);
            assert(kept@ =~= all.subrange(n as int, i + 1));
        }
        proof {
            assert(kept@ =~= all.skip(n as int));
            decode_utf8_encode_utf8(all.take(n as int));
            assert(all.take(n as int) + all.skip(n as int) =~= all);
        }
        self.bytes = kept;
        text
    }

    /// The text of what is left at the end, with a stand-in for bytes that are no
    /// whole character.
    pub fn finish(&self) -> (text: String)
        ensures
            text@ == lossy_text(self.bytes@),
            valid_utf8(self.bytes@) ==> text@ == decode_utf8(self.bytes@),
    {
        utf8_lossy(self.bytes.as_slice())
    }
}

/// The id of the token that ends a text: from the metadata, or 2.
pub open spec fn eos_token_of(model: ModelView) -> int {
    match meta_u32_of(model.metadata, "tokenizer.ggml.eos_token_id"@) {
        Some(id) => id as int,
        None => 2,
    }
}

/// The id of the token that ends a text.
pub fn eos_token(model: &Model<'_>) -> (id: usize)
    ensures
        id == eos_token_of(model@),
{
    match model.metadata.get("tokenizer.ggml.eos_token_id") {
        Some(v) => match v.as_u32() {
            Some(id) => id as usize,
            None => 2,
        },
        None => 2,
    }
}

/// The id of the token that begins a text: from the metadata, or 1.
pub open spec fn bos_token_of(model: ModelView) -> int {
    match meta_u32_of(model.metadata, "tokenizer.ggml.bos_token_id"@) {
        Some(id) => id as int,
        None => 1,
    }
}

/// The id of the token that begins a text.
pub fn bos_token(model: &Model<'_>) -> (id: usize)
    ensures
        id == bos_token_of(model@),
{
    match model.metadata.get("tokenizer.ggml.bos_token_id") {
        Some(v) => match v.as_u32() {
            Some(id) => id as usize,
            None => 1,
        },
        None => 1,
    }
}

/// The weights that turn the output of the last block into a prediction.
pub struct OutputHead<A: Arith> {
    pub norm: Vec<A::Num>,
    pub w: Vec<A::Num>,
}

impl<A: Arith> OutputHead<A> {
    /// Predicts the next token greedily: the output of the last block is
    /// normalised and projected to one number per token of the vocabulary, and the
    /// greatest wins.
    pub fn predict(
        &self,
        x: &[A::Num],
        eps: A::Num,
        normed: &mut Vec<A::Num>,
        logits: &mut Vec<A::Num>,
    ) -> (token: usize)
        requires
            x@.len() == self.norm@.len(),
            old(normed)@.len() == x@.len(),
            self.w@.len() == x@.len() * old(logits)@.len(),
        ensures
            final(logits)@.len() == old(logits)@.len(),
            rmsnorm_is::<A>(x@, self.norm@, eps, final(normed)@),
            linear_is::<A>(final(normed)@, self.w@, final(logits)@),
            argmax_is::<A>(final(logits)@, token as int),
            old(logits)@.len() > 0 ==> token < old(logits)@.len(),
    {
        rmsnorm::<A>(x, self.norm.as_slice(), eps, normed.as_mut_slice());
        linear::<A>(normed.as_slice(), self.w.as_slice(), logits.as_mut_slice());
        argmax::<A>(logits.as_slice())
    }
}

/// Generation stops when enough tokens have been produced, else at the end of the
/// text, else where the context is full; otherwise the token is emitted at the
/// next position.
pub proof fn law_when_generation_stops(
    p: Progress,
    token: usize,
    eos: usize,
    max_seq_len: usize,
)
    ensures
        p.action(token, eos, max_seq_len) == Action::LimitReached <==> p.remaining == 0,
        p.action(token, eos, max_seq_len) == Action::Eos <==> p.remaining > 0 && token == eos,
        p.action(token, eos, max_seq_len) == (Action::ContextFull { pos: p.pos }) <==> p.remaining
            > 0 && token != eos && p.pos >= max_seq_len,
        p.action(token, eos, max_seq_len) == (Action::Emit { token, pos: p.pos }) <==> p.remaining
            > 0 && token != eos && p.pos < max_seq_len,
{
}

/// The tokens that begin and end a text are those that the metadata names under their
/// keys, and 1 and 2 where it names none.
pub proof fn law_special_tokens(model: ModelView, id: u32)
    ensures
        model.metadata.contains_pair(
            "tokenizer.ggml.eos_token_id"@,
            ValueView::U32(id),
        ) ==> eos_token_of(model) == id,
        !model.metadata.contains_key("tokenizer.ggml.eos_token_id"@) ==> eos_token_of(model) == 2,
        model.metadata.contains_pair(
            "tokenizer.ggml.bos_token_id"@,
            ValueView::U32(id),
        ) ==> bos_token_of(model) == id,
        !model.metadata.contains_key("tokenizer.ggml.bos_token_id"@) ==> bos_token_of(model) == 1,
{
}

} // verus!
