//! Greedy decoding as a state machine: the caller computes next-token logits
//! for the current tokens; the decoder picks the next token and decides when
//! to stop.
use crate::float_bits::{
    argmax_total, encodes_nan, lemma_total_key_monotone, scaled_value, total_key,
};
use crate::tokenizer::{
    decodable, decode_bytes, encode_ends, spec_decode, spec_encode, unescape_char, Tokenizer,
};
use crate::tools::{render_tool_prompt, tool_prompt};
use vstd::prelude::*;
use vstd::utf8::*;

verus! {

/// Token id that starts every prompt.
pub const BOS_ID: u32 = 2;

/// Token id that ends generation.
pub const EOS_ID: u32 = 1;

/// Whether `i` is the position of the last greatest element of `v` under
/// `f32::total_cmp` (what `Iterator::max_by` picks).
pub open spec fn is_last_max(v: Seq<u32>, i: int) -> bool {
    &&& 0 <= i < v.len()
    &&& forall|j: int| 0 <= j < v.len() ==> total_key(v[j]) <= total_key(v[i])
    &&& forall|j: int| i < j < v.len() ==> total_key(v[j]) < total_key(v[i])
}

/// The last maximum under `f32::total_cmp`, when it is a number, is at
/// least every other logit that is a number: greedy decoding picks the
/// greatest logit.
pub proof fn lemma_last_max_is_greatest(v: Seq<u32>, i: int)
    requires
        is_last_max(v, i),
        !encodes_nan(v[i]),
    ensures
        forall|j: int|
            0 <= j < v.len() && !encodes_nan(v[j]) ==> scaled_value(#[trigger] v[j])
                <= scaled_value(v[i]),
{
    assert forall|j: int| 0 <= j < v.len() && !encodes_nan(v[j]) implies scaled_value(
        #[trigger] v[j],
    ) <= scaled_value(v[i]) by {
        if scaled_value(v[j]) > scaled_value(v[i]) {
            lemma_total_key_monotone(v[i], v[j]);
        }
    }
}

/// The token sequence a tool-routing prompt starts from.
pub open spec fn prompt_tokens(
    t: crate::tokenizer::TokenizerView,
    tools_json: Seq<char>,
    query: Seq<char>,
) -> Seq<u32> {
    seq![BOS_ID] + spec_encode(t, tool_prompt(tools_json, query))
}

/// The position greedy decoding picks from a logits vector: its last
/// greatest element under `f32::total_cmp`.
pub open spec fn greedy_pick(v: Seq<u32>) -> int {
    choose|i: int| is_last_max(v, i)
}

/// What greedy decoding generates from `generated` with `remaining` tokens
/// of budget left, when each step's logits are `logits` of the prompt
/// followed by the tokens generated so far: append the picked position, as a
/// token id, until the end token is picked or the budget runs out.
pub open spec fn greedy_outcome(
    logits: spec_fn(Seq<u32>) -> Seq<u32>,
    prompt: Seq<u32>,
    generated: Seq<u32>,
    remaining: nat,
) -> Seq<u32>
    decreases remaining,
{
    if remaining == 0 {
        generated
    } else {
        let next = greedy_pick(logits(prompt + generated)) as u32;
        if next == EOS_ID {
            generated
        } else {
            greedy_outcome(logits, prompt, generated.push(next), (remaining - 1) as nat)
        }
    }
}

/// There is one last greatest element, so the pick is the only position
/// that `is_last_max` admits.
proof fn lemma_pick_unique(v: Seq<u32>, i: int)
    requires
        is_last_max(v, i),
    ensures
        greedy_pick(v) == i,
{
    let j = greedy_pick(v);
    assert(is_last_max(v, j));
    if j < i {
        assert(total_key(v[i]) < total_key(v[j]));
    } else if i < j {
        assert(total_key(v[j]) < total_key(v[i]));
    }
}

/// The outcome keeps what was generated before, adds at most the budget,
/// and adds no end token.
proof fn lemma_outcome_extends(
    logits: spec_fn(Seq<u32>) -> Seq<u32>,
    prompt: Seq<u32>,
    generated: Seq<u32>,
    remaining: nat,
)
    ensures
        ({
            let out = greedy_outcome(logits, prompt, generated, remaining);
            &&& generated.len() <= out.len() <= generated.len() + remaining
            &&& out.take(generated.len() as int) == generated
            &&& forall|i: int| generated.len() <= i < out.len() ==> out[i] != EOS_ID
        }),
    decreases remaining,
{
    if remaining > 0 {
        let next = greedy_pick(logits(prompt + generated)) as u32;
        if next != EOS_ID {
            let g = generated.push(next);
            lemma_outcome_extends(logits, prompt, g, (remaining - 1) as nat);
            let out = greedy_outcome(logits, prompt, generated, remaining);
            assert(out.take(g.len() as int).take(generated.len() as int) =~= out.take(
                generated.len() as int,
            ));
            assert(g.take(generated.len() as int) =~= generated);
            assert forall|i: int| generated.len() <= i < out.len() implies out[i] != EOS_ID by {
                if i == generated.len() {
                    assert(out.take(g.len() as int)[i] == g[i]);
                }
            }
        }
    }
    assert(generated.take(generated.len() as int) =~= generated);
}

/// Greedy decoding with a smaller budget generates a prefix of what it
/// generates with a larger one, from the same prompt and the same logits
/// for the same tokens; when it stops short of its budget (on the end
/// token) both generate the same. Neither holds the end token.
pub proof fn lemma_greedy_budget(
    logits: spec_fn(Seq<u32>) -> Seq<u32>,
    prompt: Seq<u32>,
    n: nat,
    m: nat,
)
    requires
        n <= m,
    ensures
        ({
            let short = greedy_outcome(logits, prompt, seq![], n);
            let long = greedy_outcome(logits, prompt, seq![], m);
            &&& short.len() <= n && long.len() <= m
            &&& short.len() <= long.len() && long.take(short.len() as int) == short
            &&& short.len() < n ==> short == long
            &&& forall|i: int| 0 <= i < long.len() ==> long[i] != EOS_ID
        }),
{
    lemma_budget_from(logits, prompt, seq![], n, m);
    lemma_outcome_extends(logits, prompt, seq![], n);
    lemma_outcome_extends(logits, prompt, seq![], m);
}

proof fn lemma_budget_from(
    logits: spec_fn(Seq<u32>) -> Seq<u32>,
    prompt: Seq<u32>,
    generated: Seq<u32>,
    n: nat,
    m: nat,
)
    requires
        n <= m,
    ensures
        ({
            let short = greedy_outcome(logits, prompt, generated, n);
            let long = greedy_outcome(logits, prompt, generated, m);
            &&& short.len() <= long.len() && long.take(short.len() as int) == short
            &&& short.len() < generated.len() + n ==> short == long
        }),
    decreases n,
{
    lemma_outcome_extends(logits, prompt, generated, n);
    lemma_outcome_extends(logits, prompt, generated, m);
    if n > 0 {
        let next = greedy_pick(logits(prompt + generated)) as u32;
        if next != EOS_ID {
            lemma_budget_from(
                logits,
                prompt,
                generated.push(next),
                (n - 1) as nat,
                (m - 1) as nat,
            );
        }
    }
}

/// Decoding state: the prompt, what was generated after it, how many more
/// tokens may be generated, and whether the end token was chosen.
pub struct GreedyDecoder {
    prompt: Vec<u32>,
    tokens: Vec<u32>,
    generated: Vec<u32>,
    remaining: usize,
    stopped: bool,
}

impl GreedyDecoder {
    pub closed spec fn prompt_view(&self) -> Seq<u32> {
        self.prompt@
    }

    pub closed spec fn generated_view(&self) -> Seq<u32> {
        self.generated@
    }

    pub closed spec fn tokens_view(&self) -> Seq<u32> {
        self.tokens@
    }

    pub closed spec fn remaining_view(&self) -> nat {
        self.remaining as nat
    }

    pub closed spec fn stopped_view(&self) -> bool {
        self.stopped
    }

    /// The model input is always the prompt followed by what was generated,
    /// and the end token is never part of the output.
    pub closed spec fn wf(&self) -> bool {
        &&& self.tokens@ == self.prompt@ + self.generated@
        &&& forall|i: int| 0 <= i < self.generated@.len() ==> self.generated@[i] != EOS_ID
    }

    /// What well-formedness promises: the model input is the prompt followed
    /// by the generated tokens, none of which is the end token.
    pub proof fn lemma_wf(&self)
        requires
            self.wf(),
        ensures
            self.tokens_view() == self.prompt_view() + self.generated_view(),
            forall|i: int|
                0 <= i < self.generated_view().len() ==> self.generated_view()[i] != EOS_ID,
    {
    }

    /// What this decoder ends up generating when each step is given the
    /// logits `logits` of its current tokens.
    pub open spec fn outcome(&self, logits: spec_fn(Seq<u32>) -> Seq<u32>) -> Seq<u32> {
        if self.stopped_view() {
            self.generated_view()
        } else {
            greedy_outcome(logits, self.prompt_view(), self.generated_view(), self.remaining_view())
        }
    }

    /// Whether decoding is over.
    pub open spec fn done(&self) -> bool {
        self.stopped_view() || self.remaining_view() == 0
    }

    /// Starts decoding a tool-routing prompt, allowing at most
    /// `max_new_tokens` new tokens.
    pub fn new(tokenizer: &Tokenizer, tools_json: &str, query: &str, max_new_tokens: usize) -> (r:
        GreedyDecoder)
        requires
            tokenizer.wf(),
            encode_ends(tokenizer@, tool_prompt(tools_json@, query@)),
        ensures
            r.wf(),
            r.prompt_view() == prompt_tokens(tokenizer@, tools_json@, query@),
            r.generated_view() == Seq::<u32>::empty(),
            r.remaining_view() == max_new_tokens,
            !r.stopped_view(),
            forall|logits: spec_fn(Seq<u32>) -> Seq<u32>|
                #[trigger] r.outcome(logits) == greedy_outcome(
                    logits,
                    prompt_tokens(tokenizer@, tools_json@, query@),
                    seq![],
                    max_new_tokens as nat,
                ),
    {
        let prompt_text = render_tool_prompt(tools_json, query);
        let mut prompt: Vec<u32> = Vec::new();
        prompt.push(BOS_ID);
        let mut encoded = tokenizer.encode(prompt_text.as_str());
        prompt.append(&mut encoded);
        let mut tokens: Vec<u32> = Vec::new();
        let mut i: usize = 0;
        while i < prompt.len()
            invariant
                i <= prompt@.len(),
                tokens@ == prompt@.take(i as int),
            decreases prompt@.len() - i,
        {
            tokens.push(prompt[i]);
            i = i + 1;
            assert(tokens@ =~= prompt@.take(i as int));
        }
        assert(prompt@.take(i as int) =~= prompt@);
        let r = GreedyDecoder {
            prompt,
            tokens,
            generated: Vec::new(),
            remaining: max_new_tokens,
            stopped: false,
        };
        assert(r.tokens@ =~= r.prompt@ + r.generated@);
        r
    }

    /// The tokens to compute the next logits for.
    pub fn tokens(&self) -> (r: &[u32])
        ensures
            r@ == self.tokens_view(),
            self.wf() ==> r@ == self.prompt_view() + self.generated_view(),
    {
        self.tokens.as_slice()
    }

    /// The tokens generated so far.
    pub fn generated(&self) -> (r: &[u32])
        ensures
            r@ == self.generated_view(),
    {
        self.generated.as_slice()
    }

    /// Whether decoding is over; once it is, the generated tokens are the
    /// outcome.
    pub fn is_done(&self) -> (r: bool)
        ensures
            r == self.done(),
            r ==> forall|f: spec_fn(Seq<u32>) -> Seq<u32>|
                #[trigger] self.outcome(f) == self.generated_view(),
    {
        self.stopped || self.remaining == 0
    }

    /// Takes the logits of the last position (as `f32` bit patterns) and
    /// picks the next token: the last maximum under `f32::total_cmp`. The end
    /// token stops decoding; any other token is appended.
    pub fn step(&mut self, logits: &[u32]) -> (next: u32)
        requires
            old(self).wf(),
            !old(self).done(),
            0 < logits@.len() <= 0x1_0000_0000,
        ensures
            final(self).wf(),
            is_last_max(logits@, next as int),
            final(self).prompt_view() == old(self).prompt_view(),
            final(self).remaining_view() == old(self).remaining_view() - 1,
            next == EOS_ID ==> final(self).stopped_view() && final(self).generated_view()
                == old(self).generated_view(),
            next != EOS_ID ==> !final(self).stopped_view() && final(self).generated_view()
                == old(self).generated_view().push(next),
            forall|f: spec_fn(Seq<u32>) -> Seq<u32>|
                f(old(self).tokens_view()) == logits@ ==> #[trigger] final(self).outcome(f)
                    == old(self).outcome(f),
    {
        let i = argmax_total(logits);
        let next = i as u32;
        proof {
            lemma_pick_unique(logits@, i as int);
        }
        self.remaining = self.remaining - 1;
        if next == EOS_ID {
            self.stopped = true;
        } else {
            self.tokens.push(next);
            self.generated.push(next);
            assert(self.tokens@ =~= self.prompt@ + self.generated@);
        }
        next
    }

    /// The decoded text of the generated tokens.
    pub fn output(&self, tokenizer: &Tokenizer) -> (r: String)
        requires
            tokenizer.wf(),
            decodable(tokenizer@, self.generated_view()),
        ensures
            r@ == spec_decode(tokenizer@, self.generated_view()),
            valid_utf8(decode_bytes(tokenizer@, self.generated_view())) ==> r@ == decode_utf8(
                decode_bytes(tokenizer@, self.generated_view()),
            ).map_values(|c: char| unescape_char(c)),
    {
        tokenizer.decode(self.generated.as_slice())
    }
}

} // verus!
