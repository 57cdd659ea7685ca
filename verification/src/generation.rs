use vstd::prelude::*;

verus! {

/// The decisions of the token-by-token generation loop. The prompt is fed
/// whole on the first forward pass (prefill); after that only the newest
/// token is fed (decode), the earlier ones being in the key/value cache.
/// The forward pass, the sampling and the caller's callback happen outside.
pub struct GenerationState {
    /// The prompt followed by every generated token.
    pub context: Vec<usize>,
    /// The tokens the next forward pass is fed.
    pub input_tokens: Vec<usize>,
    /// How many tokens of the context are the prompt.
    pub prompt_len: usize,
    /// How many tokens have been generated.
    pub steps: usize,
    /// The most tokens to generate.
    pub max_tokens: usize,
    /// Whether the callback asked to stop.
    pub stopped: bool,
}

impl GenerationState {
    /// The context begins with the prompt and then holds the `steps`
    /// generated tokens; before the first step the input is the prompt, after
    /// it the newest token alone.
    pub open spec fn wf(&self) -> bool {
        &&& self.steps <= self.max_tokens
        &&& self.context@.len() == self.prompt_len + self.steps
        &&& self.steps == 0 ==> self.input_tokens@ == self.context@
        &&& !self.stopped && self.steps > 0 ==> self.input_tokens@ == seq![self.context@.last()]
    }

    /// The tokens generated so far.
    pub open spec fn generated(&self) -> Seq<usize> {
        self.context@.subrange(self.prompt_len as int, self.context@.len() as int)
    }

    /// Whether the loop is over: the callback asked to stop or `max_tokens`
    /// tokens were generated.
    pub open spec fn spec_is_done(&self) -> bool {
        self.stopped || self.steps >= self.max_tokens
    }

    /// Starts a generation: nothing generated, the whole prompt as input.
    pub fn new(prompt_tokens: &[usize], max_tokens: usize) -> (g: Self)
        ensures
            g.wf(),
            g.context@ == prompt_tokens@,
            g.input_tokens@ == prompt_tokens@,
            g.prompt_len == prompt_tokens@.len(),
            g.steps == 0,
            g.max_tokens == max_tokens,
            !g.stopped,
    {
        let context = vstd::slice::slice_to_vec(prompt_tokens);
        let input_tokens = vstd::slice::slice_to_vec(prompt_tokens);
        GenerationState {
            context,
            input_tokens,
            prompt_len: prompt_tokens.len(),
            steps: 0,
            max_tokens,
            stopped: false,
        }
    }

    /// Whether the loop is over (see [`Self::spec_is_done`]).
    #[verifier::when_used_as_spec(spec_is_done)]
    pub fn is_done(&self) -> (done: bool)
        ensures
            done == self.spec_is_done(),
            done == (self.stopped || self.steps >= self.max_tokens),
    {
        self.stopped || self.steps >= self.max_tokens
    }

    /// The logits of the last fed token in a `[input_len, vocab_size]` logits
    /// matrix: `(input_len - 1) * vocab_size .. input_len * vocab_size`.
    pub fn last_logits_range(&self, vocab_size: usize) -> (r: (usize, usize))
        requires
            self.input_tokens@.len() > 0,
            self.input_tokens@.len() * vocab_size <= usize::MAX,
        ensures
            r.0 == (self.input_tokens@.len() - 1) * vocab_size,
            r.1 == r.0 + vocab_size,
    {
        let seq_len = self.input_tokens.len();
        proof {
            assert((seq_len - 1) * vocab_size + vocab_size == seq_len * vocab_size) by (nonlinear_arith);
        }
        let last_pos_start = (seq_len - 1) * vocab_size;
        (last_pos_start, last_pos_start + vocab_size)
    }

    /// Records the sampled token and whether the callback wants more: the
    /// token joins the context; if the callback wants more, it becomes the
    /// whole input of the next forward pass, otherwise the loop stops.
    pub fn record_token(&mut self, next_token: usize, keep_going: bool)
        requires
            old(self).wf(),
            !old(self).spec_is_done(),
        ensures
            final(self).wf(),
            final(self).context@ == old(self).context@.push(next_token),
            final(self).generated() == old(self).generated().push(next_token),
            final(self).steps == old(self).steps + 1,
            final(self).prompt_len == old(self).prompt_len,
            final(self).max_tokens == old(self).max_tokens,
            final(self).stopped == !keep_going,
            keep_going ==> final(self).input_tokens@ == seq![next_token],
            !keep_going ==> final(self).input_tokens@ == old(self).input_tokens@,
    {
        let ghost before = self.generated();
        self.context.push(next_token);
        self.steps = self.steps + 1;
        if keep_going {
            let mut next_input: Vec<usize> = Vec::new();
            next_input.push(next_token);
            self.input_tokens = next_input;
        } else {
            self.stopped = true;
        }
        proof {
            assert(self.generated() =~= before.push(next_token));
        }
    }
}


/// The loop ends only when the callback asks to stop or `max_tokens` tokens
/// have been generated: a state that was not stopped and has generated fewer
/// than `max_tokens` tokens is not done, whatever tokens it holds.
pub proof fn lemma_done_only_when_stopped_or_full(g: GenerationState)
    ensures
        g.spec_is_done() <==> (g.stopped || g.steps >= g.max_tokens),
        !g.stopped && g.steps < g.max_tokens ==> !g.spec_is_done(),
{
}

/// The tokens fed to the next forward pass are the last tokens of the
/// context: the whole prompt first, then the newest token alone.
pub proof fn lemma_input_is_context_suffix(g: GenerationState)
    requires
        g.wf(),
        !g.stopped,
    ensures
        g.input_tokens@.len() <= g.context@.len(),
        g.input_tokens@ == g.context@.subrange(
            g.context@.len() - g.input_tokens@.len(),
            g.context@.len() as int,
        ),
{
    if g.steps == 0 {
        assert(g.context@.subrange(0, g.context@.len() as int) =~= g.context@);
    } else {
        assert(g.context@.subrange(g.context@.len() - 1, g.context@.len() as int) =~= seq![g.context@.last()]);
    }
}

/// Decoding stays aligned with the key/value cache: if, before a forward
/// pass, the cache holds the context tokens that precede the input, then
/// after the pass has cached the input and the sampled token is recorded with
/// the loop going on, the cache again holds exactly the context tokens that
/// precede the new input. Fed tokens thus get their index in the context as
/// position.
pub proof fn lemma_cache_tracks_context(
    before: GenerationState,
    after: GenerationState,
    cached: int,
    next_token: usize,
)
    requires
        before.wf(),
        !before.stopped,
        cached == before.context@.len() - before.input_tokens@.len(),
        after.context@ == before.context@.push(next_token),
        after.input_tokens@ == seq![next_token],
    ensures
        cached + before.input_tokens@.len() == after.context@.len() - after.input_tokens@.len(),
        forall|i: int|
            0 <= i < before.input_tokens@.len() ==> #[trigger] before.input_tokens@[i] == before.context@[cached
                + i],
{
    lemma_input_is_context_suffix(before);
    assert forall|i: int| 0 <= i < before.input_tokens@.len() implies #[trigger] before.input_tokens@[i]
        == before.context@[cached + i] by {
        assert(before.input_tokens@[i] == before.context@.subrange(
            before.context@.len() - before.input_tokens@.len(),
            before.context@.len() as int,
        )[i]);
    }
}

} // verus!
