//! Greedy text generation, seen from the token side: the prompt is encoded, the
//! model is shown the last context window each time, the token it picks is
//! appended, and the whole sequence is decoded at the end. Picking the token
//! (running the network) is the caller's part.
use vstd::prelude::*;
use crate::data::{CharTokenizer, TokenizerError, encodable, encoded, decodable, decoded};

verus! {

/// Why text could not be generated.
#[derive(Debug, Clone, Copy, PartialEq, Eq, Structural)]
pub enum SampleError {
    EmptyPrompt,
    Tokenizer(TokenizerError),
}

/// A prompt together with the text generated for it.
#[derive(Debug, Clone)]
pub struct GeneratedSample {
    pub prompt: String,
    pub text: String,
}

/// The samples generated at one evaluation step.
#[derive(Debug, Clone)]
pub struct SampleCheckpoint {
    pub step: usize,
    pub samples: Vec<GeneratedSample>,
}

/// A generation in progress.
pub struct Generation {
    tokens: Vec<u32>,
    remaining: usize,
    context_length: usize,
}

impl View for Generation {
    /// The tokens so far, how many are still to be generated, and the context length.
    type V = (Seq<u32>, nat, nat);

    closed spec fn view(&self) -> (Seq<u32>, nat, nat) {
        (self.tokens@, self.remaining as nat, self.context_length as nat)
    }
}

/// The window the model sees: the last `context_length` tokens, or all of them
/// when there are fewer.
pub open spec fn context_window(tokens: Seq<u32>, context_length: nat) -> Seq<u32> {
    if tokens.len() <= context_length {
        tokens
    } else {
        tokens.skip(tokens.len() - context_length)
    }
}

impl Generation {
    /// Starts generating `new_tokens` tokens after a non-empty prompt.
    pub fn start(tokenizer: &CharTokenizer, prompt: &str, new_tokens: usize, context_length: usize)
        -> (res: Result<Generation, SampleError>)
        ensures
            prompt@.len() == 0 ==> res == Err::<Generation, SampleError>(SampleError::EmptyPrompt),
            prompt@.len() > 0 && !encodable(tokenizer@.1, prompt@) ==> exists|i: int|
                0 <= i < prompt@.len() && !tokenizer@.1.contains_key(prompt@[i] as u32)
                    && encodable(tokenizer@.1, prompt@.take(i))
                    && res == Err::<Generation, SampleError>(
                    SampleError::Tokenizer(TokenizerError::UnknownCharacter(prompt@[i])),
                ),
            prompt@.len() > 0 && encodable(tokenizer@.1, prompt@) ==> (res matches Ok(g) && g@ == (
                encoded(tokenizer@.1, prompt@),
                new_tokens as nat,
                context_length as nat,
            )),
    {
        if prompt.is_empty() {
            return Err(SampleError::EmptyPrompt);
        }
        match tokenizer.encode(prompt) {
            Ok(tokens) => Ok(Generation { tokens, remaining: new_tokens, context_length }),
            Err(e) => Err(SampleError::Tokenizer(e)),
        }
    }

    /// Whether more tokens are to be generated.
    pub fn wants_token(&self) -> (res: bool)
        ensures
            res == (self@.1 > 0),
    {
        self.remaining > 0
    }

    /// The tokens the model is shown to pick the next one.
    pub fn window(&self) -> (res: Vec<u32>)
        ensures
            res@ == context_window(self@.0, self@.2),
    {
        let n = self.tokens.len();
        let start = if n > self.context_length {
            n - self.context_length
        } else {
            0
        };
        let mut res: Vec<u32> = Vec::new();
        let mut i: usize = start;
        while i < n
            invariant
                n == self@.0.len(),
                start <= i <= n,
                res@ == self@.0.subrange(start as int, i as int),
            decreases n - i,
        {
            res.push(self.tokens[i]);
            i = i + 1;
            assert(res@ =~= self@.0.subrange(start as int, i as int));
        }
        assert(res@ =~= context_window(self@.0, self@.2));
        res
    }

    /// Appends the token the model picked.
    pub fn accept(&mut self, next: u32)
        requires
            old(self)@.1 > 0,
        ensures
            final(self)@ == (old(self)@.0.push(next), (old(self)@.1 - 1) as nat, old(self)@.2),
    {
        self.tokens.push(next);
        self.remaining = self.remaining - 1;
    }

    /// The prompt and the generated continuation as text.
    pub fn finish(&self, tokenizer: &CharTokenizer) -> (res: Result<String, SampleError>)
        ensures
            decodable(tokenizer@.0, self@.0) ==> (res matches Ok(s) && s@ == decoded(tokenizer@.0, self@.0)),
            !decodable(tokenizer@.0, self@.0) ==> exists|i: int|
                0 <= i < self@.0.len() && (self@.0[i] as int) >= tokenizer@.0.len()
                    && decodable(tokenizer@.0, self@.0.take(i))
                    && res == Err::<String, SampleError>(
                    SampleError::Tokenizer(TokenizerError::UnknownTokenId(self@.0[i])),
                ),
    {
        match tokenizer.decode(self.tokens.as_slice()) {
            Ok(s) => Ok(s),
            Err(e) => Err(SampleError::Tokenizer(e)),
        }
    }
}

/// The window a model is shown is never longer than the context, and it is the
/// most recent part of the sequence; it is empty only when the sequence is.
pub proof fn lemma_context_window(tokens: Seq<u32>, context_length: nat)
    ensures
        context_window(tokens, context_length).len() <= context_length,
        context_window(tokens, context_length).is_suffix_of(tokens),
        context_length > 0 && tokens.len() > 0 ==> context_window(tokens, context_length).len() > 0,
{
    let w = context_window(tokens, context_length);
    assert(tokens.subrange(tokens.len() - w.len(), tokens.len() as int) =~= w);
}

} // verus!
