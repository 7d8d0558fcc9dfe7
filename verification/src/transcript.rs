//! The Fiat-Shamir transcript: a duplex sponge of width 16 and rate 8 over the
//! canonical Poseidon2 permutation.
//!
//! A transcript is held as plain field elements. Observing and sampling are
//! done by `p3-challenger`; what is left unstated of them is the permutation
//! itself, which goes by the name [`poseidon2_16`].

use crate::ext;
use crate::ext::Challenge;
use crate::field;
use crate::field::F;
use p3_baby_bear::{default_babybear_poseidon2_16, BabyBear};
use p3_challenger::{CanObserve, CanSample, DuplexChallenger};
use p3_field::{PrimeCharacteristicRing, PrimeField32};
use vstd::arithmetic::power2::*;
use vstd::prelude::*;

verus! {

/// Width of the sponge state.
pub const WIDTH: usize = 16;

/// What a transcript holds: the sponge state, the elements observed but not yet
/// absorbed, and the squeezed elements not yet handed out.
#[verifier::ext_equal]
pub ghost struct Sponge {
    pub state: Seq<int>,
    pub input: Seq<int>,
    pub output: Seq<int>,
}

/// The image of a state under the canonical width-16 Poseidon2 permutation over
/// BabyBear.
pub uninterp spec fn poseidon2_16(state: Seq<int>) -> Seq<int>;

impl Sponge {
    /// The sponge before anything was observed.
    pub open spec fn fresh() -> Sponge {
        Sponge { state: Seq::new(16, |i: int| 0int), input: Seq::empty(), output: Seq::empty() }
    }

    /// The state with its front overwritten by the input: what is permuted next.
    pub open spec fn overlaid(self) -> Seq<int> {
        Seq::new(
            16,
            |i: int|
                if i < self.input.len() {
                    self.input[i]
                } else {
                    self.state[i]
                },
        )
    }

    /// The sponge after a duplexing step that gave the state `permuted`: the
    /// input is spent, and the rate is there to be handed out.
    pub open spec fn duplexed(permuted: Seq<int>) -> Sponge {
        Sponge { state: permuted, input: Seq::empty(), output: permuted.subrange(0, 8) }
    }

    /// The sponge with `x` appended to the input and pending output dropped.
    pub open spec fn pending(self, x: int) -> Sponge {
        Sponge { state: self.state, input: self.input.push(x), output: Seq::empty() }
    }

    /// Observe `x`, where a duplexing step would give `permuted`: it happens
    /// once the input fills the rate.
    pub open spec fn observed_by(self, x: int, permuted: Seq<int>) -> Sponge {
        if self.input.len() == 7 {
            Sponge::duplexed(permuted)
        } else {
            self.pending(x)
        }
    }

    /// The sponge after observing `x`.
    pub open spec fn observed(self, x: int) -> Sponge {
        self.observed_by(x, poseidon2_16(self.pending(x).overlaid()))
    }

    /// The sponge that the next sample is taken from, where a duplexing step
    /// would give `permuted`: it happens if input is pending or no output is
    /// left.
    pub open spec fn ready_by(self, permuted: Seq<int>) -> Sponge {
        if self.input.len() > 0 || self.output.len() == 0 {
            Sponge::duplexed(permuted)
        } else {
            self
        }
    }

    /// The next sample, where a duplexing step would give `permuted`.
    pub open spec fn sample_by(self, permuted: Seq<int>) -> int {
        self.ready_by(permuted).output.last()
    }

    /// The sponge after one sample, where a duplexing step would give
    /// `permuted`.
    pub open spec fn sampled_by(self, permuted: Seq<int>) -> Sponge {
        Sponge {
            output: self.ready_by(permuted).output.drop_last(),
            ..self.ready_by(permuted)
        }
    }

    /// The next sample.
    pub open spec fn sample(self) -> int {
        self.sample_by(poseidon2_16(self.overlaid()))
    }

    /// The sponge after one sample.
    pub open spec fn sampled(self) -> Sponge {
        self.sampled_by(poseidon2_16(self.overlaid()))
    }

    /// The first `k` samples.
    pub open spec fn samples(self, k: nat) -> Seq<int>
        decreases k,
    {
        if k == 0 {
            Seq::empty()
        } else {
            seq![self.sample()] + self.sampled().samples((k - 1) as nat)
        }
    }

    /// The sponge after `k` samples.
    pub open spec fn after(self, k: nat) -> Sponge
        decreases k,
    {
        if k == 0 {
            self
        } else {
            self.sampled().after((k - 1) as nat)
        }
    }

    /// The sponge after observing all of `xs` in order.
    pub open spec fn observed_all(self, xs: Seq<int>) -> Sponge
        decreases xs.len(),
    {
        if xs.len() == 0 {
            self
        } else {
            self.observed_all(xs.drop_last()).observed(xs.last())
        }
    }

    /// The sizes and ranges that every reachable sponge has.
    pub open spec fn wf(self) -> bool {
        &&& self.state.len() == 16
        &&& self.input.len() < 8
        &&& self.output.len() <= 8
        &&& field::canonical(self.state)
        &&& field::canonical(self.input)
        &&& field::canonical(self.output)
    }

    /// The four samples that make up the next extension element, in order.
    pub open spec fn element(self) -> ext::Ext {
        ext::Ext {
            c0: self.sample(),
            c1: self.sampled().sample(),
            c2: self.sampled().sampled().sample(),
            c3: self.sampled().sampled().sampled().sample(),
        }
    }
}

/// The elements as integers.
pub open spec fn ints(xs: Seq<u32>) -> Seq<int> {
    xs.map_values(|x: u32| x as int)
}

/// The sponge made of a state and two buffers.
pub open spec fn sponge(state: Seq<u32>, input: Seq<u32>, output: Seq<u32>) -> Sponge {
    Sponge { state: ints(state), input: ints(input), output: ints(output) }
}

/// One more sample comes from the sponge that the earlier ones left.
pub proof fn lemma_samples_step(s: Sponge, k: nat)
    ensures
        s.samples(k + 1) == s.samples(k).push(s.after(k).sample()),
        s.after(k + 1) == s.after(k).sampled(),
        s.samples(k).len() == k,
    decreases k,
{
    if k == 0 {
        reveal_with_fuel(Sponge::samples, 2);
        reveal_with_fuel(Sponge::after, 2);
        assert(s.samples(1) =~= seq![s.sample()]);
    } else {
        lemma_samples_step(s.sampled(), (k - 1) as nat);
        assert(s.samples(k + 1) == seq![s.sample()] + s.sampled().samples(k));
        assert(s.samples(k) == seq![s.sample()] + s.sampled().samples((k - 1) as nat));
        assert(s.samples(k + 1) =~= s.samples(k).push(s.after(k).sample()));
    }
}

/// `DuplexChallenger::observe`, on a challenger over
/// `default_babybear_poseidon2_16` that holds the given state and buffers: it
/// drops the output, appends the element to the input and, once the input fills
/// the rate, duplexes. The elements that come out are canonical.
#[verifier::external_body]
fn raw_observe(state: &[u32], input: &[u32], output: &[u32], x: u32) -> (r: (
    Vec<u32>,
    Vec<u32>,
    Vec<u32>,
))
    requires
        sponge(state@, input@, output@).wf(),
        x < field::q(),
    ensures
        sponge(r.0@, r.1@, r.2@) == sponge(state@, input@, output@).observed_by(
            x as int,
            poseidon2_16(sponge(state@, input@, output@).pending(x as int).overlaid()),
        ),
        sponge(r.0@, r.1@, r.2@).wf(),
{
    let mut c = DuplexChallenger::<BabyBear, _, 16, 8>::new(default_babybear_poseidon2_16());
    c.sponge_state = core::array::from_fn(|i| BabyBear::from_u32(state[i]));
    c.input_buffer = input.iter().copied().map(BabyBear::from_u32).collect();
    c.output_buffer = output.iter().copied().map(BabyBear::from_u32).collect();
    c.observe(BabyBear::from_u32(x));
    (
        c.sponge_state.iter().map(|v| v.as_canonical_u32()).collect(),
        c.input_buffer.iter().map(|v| v.as_canonical_u32()).collect(),
        c.output_buffer.iter().map(|v| v.as_canonical_u32()).collect(),
    )
}

/// `DuplexChallenger::sample` of a base field element, on a challenger over
/// `default_babybear_poseidon2_16` that holds the given state and buffers: it
/// duplexes if input is pending or no output is left, and pops the last output
/// element. The elements that come out are canonical.
#[verifier::external_body]
fn raw_sample(state: &[u32], input: &[u32], output: &[u32]) -> (r: (
    Vec<u32>,
    Vec<u32>,
    Vec<u32>,
    u32,
))
    requires
        sponge(state@, input@, output@).wf(),
    ensures
        sponge(r.0@, r.1@, r.2@) == sponge(state@, input@, output@).sampled_by(
            poseidon2_16(sponge(state@, input@, output@).overlaid()),
        ),
        r.3 == sponge(state@, input@, output@).sample_by(
            poseidon2_16(sponge(state@, input@, output@).overlaid()),
        ),
        sponge(r.0@, r.1@, r.2@).wf(),
        r.3 < field::q(),
{
    let mut c = DuplexChallenger::<BabyBear, _, 16, 8>::new(default_babybear_poseidon2_16());
    c.sponge_state = core::array::from_fn(|i| BabyBear::from_u32(state[i]));
    c.input_buffer = input.iter().copied().map(BabyBear::from_u32).collect();
    c.output_buffer = output.iter().copied().map(BabyBear::from_u32).collect();
    let x: BabyBear = c.sample();
    (
        c.sponge_state.iter().map(|v| v.as_canonical_u32()).collect(),
        c.input_buffer.iter().map(|v| v.as_canonical_u32()).collect(),
        c.output_buffer.iter().map(|v| v.as_canonical_u32()).collect(),
        x.as_canonical_u32(),
    )
}

/// A Fiat-Shamir transcript.
#[derive(Debug)]
pub struct Transcript {
    state: Vec<u32>,
    input: Vec<u32>,
    output: Vec<u32>,
}

impl View for Transcript {
    type V = Sponge;

    closed spec fn view(&self) -> Sponge {
        sponge(self.state@, self.input@, self.output@)
    }
}

impl Transcript {
    #[verifier::type_invariant]
    spec fn inv(self) -> bool {
        self@.wf()
    }

    /// A transcript that has observed nothing.
    pub fn new() -> (r: Transcript)
        ensures
            r@ == Sponge::fresh(),
    {
        let mut state: Vec<u32> = Vec::new();
        let mut i: usize = 0;
        while i < WIDTH
            invariant
                i <= WIDTH,
                state@.len() == i,
                forall|k: int| 0 <= k < i ==> #[trigger] state@[k] == 0,
            decreases WIDTH - i,
        {
            state.push(0);
            i = i + 1;
        }
        let r = Transcript { state, input: Vec::new(), output: Vec::new() };
        assert(r@.state =~= Sponge::fresh().state);
        assert(r@ =~= Sponge::fresh());
        r
    }

    /// Bind one field element into the transcript.
    pub fn observe(&mut self, x: F)
        ensures
            final(self)@ == old(self)@.observed(x@),
    {
        proof {
            use_type_invariant(&*self);
            F::lemma_view_range(x);
        }
        let (state, input, output) = raw_observe(
            &self.state,
            &self.input,
            &self.output,
            x.as_canonical_u32(),
        );
        *self = Transcript { state, input, output };
    }

    /// Draw one field element.
    pub fn sample(&mut self) -> (r: F)
        ensures
            r@ == old(self)@.sample(),
            final(self)@ == old(self)@.sampled(),
    {
        proof {
            use_type_invariant(&*self);
        }
        let (state, input, output, x) = raw_sample(&self.state, &self.input, &self.output);
        *self = Transcript { state, input, output };
        F::from_u32(x)
    }

    /// Draw one element of the extension: four samples, lowest coefficient
    /// first.
    pub fn sample_algebra_element(&mut self) -> (r: Challenge)
        ensures
            r@ == old(self)@.element(),
            final(self)@ == old(self)@.after(4),
    {
        let c0 = self.sample();
        let c1 = self.sample();
        let c2 = self.sample();
        let c3 = self.sample();
        proof {
            reveal_with_fuel(Sponge::after, 5);
        }
        Challenge { c0, c1, c2, c3 }
    }

    /// Draw `bits` bits: the low bits of one sample.
    pub fn sample_bits(&mut self, bits: u32) -> (r: u32)
        requires
            bits < 31,
        ensures
            r == old(self)@.sample() % (pow2(bits as nat) as int),
            final(self)@ == old(self)@.sampled(),
    {
        let x = self.sample().as_canonical_u32();
        proof {
            vstd::bits::lemma_u32_pow2_no_overflow(bits as nat);
            vstd::bits::lemma_u32_shl_is_mul(1u32, bits);
            lemma_pow2_pos(bits as nat);
        }
        let modulus: u32 = 1u32 << bits;
        x % modulus
    }
}

} // verus!
