//! What a caller asks for: the security level and the size/time tradeoffs.

use crate::bits::Bits;
use std::marker::PhantomData;
use std::str::FromStr;
pub use crate::proof_of_work::HashId;
use vstd::prelude::*;
#[allow(unused_imports)]
use vstd::std_specs::cmp::PartialEqSpec;

verus! {

/// Default per-slot proof-of-work budget.
pub const DEFAULT_POW_BUDGET_BITS: u32 = 16;

/// A number of bits other than zero.
#[derive(Clone, Copy, Debug, PartialEq, Eq, Structural)]
pub struct NonZeroBits {
    bits: u32,
}

impl NonZeroBits {
    #[verifier::type_invariant]
    spec fn not_zero(self) -> bool {
        self.bits != 0
    }

    /// The number.
    pub closed spec fn spec_get(self) -> u32 {
        self.bits
    }

    /// These bits.
    pub closed spec fn spec_of(bits: u32) -> Self {
        NonZeroBits { bits }
    }

    /// These bits, unless they are zero.
    pub fn new(bits: u32) -> (r: Option<Self>)
        ensures
            r == (if bits == 0 {
                None
            } else {
                Some(NonZeroBits::spec_of(bits))
            }),
            r matches Some(b) ==> b.spec_get() == bits,
    {
        if bits == 0 {
            None
        } else {
            Some(NonZeroBits { bits })
        }
    }

    /// The number.
    pub fn get(self) -> (r: u32)
        ensures
            r == self.spec_get(),
            r != 0,
    {
        proof {
            use_type_invariant(&self);
        }
        self.bits
    }
}

/// Per-slot proof-of-work policy: how much work a slot may ask for, which is also
/// the credit that planning takes from the security target.
#[derive(Clone, Copy, Debug, PartialEq, Eq, Structural)]
pub enum PowBudget {
    Forbidden,
    PerSlot { bits: NonZeroBits },
}

impl PowBudget {
    /// The bits of work allowed per slot.
    pub open spec fn spec_bits(self) -> u32 {
        match self {
            PowBudget::Forbidden => 0,
            PowBudget::PerSlot { bits } => bits.spec_get(),
        }
    }

    /// Is work of no bits forbidden? So it is in every budget that is made.
    pub open spec fn wf(self) -> bool {
        self matches PowBudget::PerSlot { bits } ==> bits.spec_get() != 0
    }

    /// `Forbidden` for no bits, `PerSlot` otherwise.
    pub fn per_slot(bits: u32) -> (r: Self)
        ensures
            r == spec_per_slot(bits),
            r.wf(),
            r.spec_bits() == bits,
    {
        match NonZeroBits::new(bits) {
            Some(bits) => PowBudget::PerSlot { bits },
            None => PowBudget::Forbidden,
        }
    }

    /// The bits of work allowed per slot. The budget is that of its bits.
    pub fn bits(self) -> (r: u32)
        ensures
            r == self.spec_bits(),
            self.wf(),
            spec_per_slot(r) == self,
    {
        match self {
            PowBudget::Forbidden => 0,
            PowBudget::PerSlot { bits } => bits.get(),
        }
    }
}

/// The budget of the given bits per slot.
pub open spec fn spec_per_slot(bits: u32) -> PowBudget {
    if bits == 0 {
        PowBudget::Forbidden
    } else {
        PowBudget::PerSlot { bits: NonZeroBits::spec_of(bits) }
    }
}

/// The bits of a budget that was made of `bits` are `bits`, and every budget is that of
/// its bits.
pub proof fn law_budget_round_trip(bits: u32, budget: PowBudget)
    requires
        budget.wf(),
    ensures
        spec_per_slot(bits).spec_bits() == bits,
        spec_per_slot(bits).wf(),
        spec_per_slot(budget.spec_bits()) == budget,
{
}

/// A value tagged with what it counts.
#[derive(Debug)]
pub struct Tagged<T, Tag> {
    value: T,
    tag: PhantomData<Tag>,
}

impl<T: Copy, Tag> Clone for Tagged<T, Tag> {
    fn clone(&self) -> (r: Self)
        ensures
            r.spec_get() == self.spec_get(),
    {
        Tagged { value: self.value, tag: PhantomData }
    }
}

impl<T: Copy, Tag> Copy for Tagged<T, Tag> {

}

impl<T, Tag> Tagged<T, Tag> {
    /// The value.
    pub closed spec fn spec_get(&self) -> T {
        self.value
    }
}

impl<T: PartialEq, Tag> PartialEq for Tagged<T, Tag> {
    fn eq(&self, other: &Self) -> (r: bool) {
        self.value == other.value
    }
}

impl<T: PartialEq, Tag> vstd::std_specs::cmp::PartialEqSpecImpl for Tagged<T, Tag> {
    open spec fn obeys_eq_spec() -> bool {
        T::obeys_eq_spec()
    }

    open spec fn eq_spec(&self, other: &Self) -> bool {
        self.spec_get().eq_spec(&other.spec_get())
    }
}

impl<T: Eq, Tag> Eq for Tagged<T, Tag> {

}

impl<T: Copy, Tag> Tagged<T, Tag> {
    /// Tag a value.
    pub fn new(v: T) -> (r: Self)
        ensures
            r.spec_get() == v,
    {
        Tagged { value: v, tag: PhantomData }
    }

    /// The value.
    pub fn get(&self) -> (r: T)
        ensures
            r == self.spec_get(),
    {
        self.value
    }
}

/// Tag of a number of out-of-domain samples.
#[derive(Clone, Copy, Debug)]
pub struct OodSampleBudgetTag;

/// Tag of the message length of the masks' code.
#[derive(Clone, Copy, Debug)]
pub struct MaskCodeMessageLenTag;

/// Tag of a binary logarithm of an inverse rate.
#[derive(Clone, Copy, Debug)]
pub struct LogInvRateTag;

/// A number of out-of-domain samples.
pub type OodSampleBudget = Tagged<usize, OodSampleBudgetTag>;

impl Tagged<usize, OodSampleBudgetTag> {
    /// No samples.
    pub fn zero() -> (r: Self)
        ensures
            r.spec_get() == 0,
    {
        Tagged::new(0)
    }
}

/// The message length of the masks' code.
pub type MaskCodeMessageLen = Tagged<usize, MaskCodeMessageLenTag>;

/// A binary logarithm of an inverse rate.
pub type LogInvRate = Tagged<u32, LogInvRateTag>;

/// Standard or zero-knowledge.
#[derive(Clone, Copy, Debug, PartialEq, Eq, Structural)]
pub enum Mode {
    Standard,
    ZeroKnowledge,
}

/// The Reed-Solomon decoding regime: up to half the distance, up to the Johnson
/// bound, or, by conjecture, up to capacity.
#[derive(Clone, Copy, Debug, PartialEq, Eq, Structural)]
pub enum DecodingRegime {
    Unique,
    Johnson,
    Capacity,
}

/// Not the name of a decoding regime.
#[derive(Debug)]
pub struct ParseDecodingRegimeError {
    pub name: String,
}

impl DecodingRegime {
    /// The regime's name.
    pub open spec fn spec_name(self) -> Seq<char> {
        match self {
            DecodingRegime::Unique => "Unique"@,
            DecodingRegime::Johnson => "Johnson"@,
            DecodingRegime::Capacity => "Capacity"@,
        }
    }

    /// The regime's name.
    pub fn name(self) -> (r: &'static str)
        ensures
            r@ == self.spec_name(),
    {
        match self {
            DecodingRegime::Unique => "Unique",
            DecodingRegime::Johnson => "Johnson",
            DecodingRegime::Capacity => "Capacity",
        }
    }

    /// The regime of the given name; names are case-sensitive.
    pub fn parse_name(s: &str) -> (r: Result<Self, ParseDecodingRegimeError>)
        ensures
            r matches Ok(regime) ==> regime.spec_name() == s@,
            r matches Err(e) ==> e.name@ == s@ && forall|regime: DecodingRegime| #[trigger]
                regime.spec_name() != s@,
    {
        let given: String = s.to_owned();
        if given == "Unique".to_owned() {
            Ok(DecodingRegime::Unique)
        } else if given == "Johnson".to_owned() {
            Ok(DecodingRegime::Johnson)
        } else if given == "Capacity".to_owned() {
            Ok(DecodingRegime::Capacity)
        } else {
            Err(ParseDecodingRegimeError { name: given })
        }
    }
}

/// Regimes have different names, so parsing a regime's name gives back the regime.
pub proof fn law_regime_names_differ(a: DecodingRegime, b: DecodingRegime)
    requires
        a.spec_name() == b.spec_name(),
    ensures
        a == b,
{
    reveal_strlit("Unique");
    reveal_strlit("Johnson");
    reveal_strlit("Capacity");
    assert("Unique"@[0] == 'U');
    assert("Johnson"@[0] == 'J');
    assert("Capacity"@[0] == 'C');
}

impl FromStr for DecodingRegime {
    type Err = ParseDecodingRegimeError;

    fn from_str(s: &str) -> (r: Result<Self, ParseDecodingRegimeError>)
        ensures
            r matches Ok(regime) ==> regime.spec_name() == s@,
            r matches Err(e) ==> e.name@ == s@ && forall|regime: DecodingRegime| #[trigger]
                regime.spec_name() != s@,
            forall|regime: DecodingRegime| #[trigger]
                regime.spec_name() == s@ ==> (r matches Ok(found) && found == regime),
    {
        let r: Result<Self, ParseDecodingRegimeError> = DecodingRegime::parse_name(s);
        proof {
            assert forall|regime: DecodingRegime| #[trigger] regime.spec_name() == s@ implies (
            r matches Ok(found) && found == regime) by {
                if let Ok(found) = r {
                    law_regime_names_differ(found, regime);
                }
            }
        }
        r
    }
}

/// The security level asked for.
#[derive(Clone, Copy, Debug, PartialEq, Eq, Structural)]
pub struct SecuritySpec {
    pub mode: Mode,
    pub decoding_regime: DecodingRegime,
    pub target_security_bits: u32,
    pub pow_budget: PowBudget,
    pub hash_id: HashId,
}

impl SecuritySpec {
    /// A specification with the default choices: standard mode, the Johnson regime,
    /// the default work per slot, and BLAKE3.
    pub fn new(target_security_bits: u32) -> (r: Self)
        ensures
            r == (SecuritySpec {
                mode: Mode::Standard,
                decoding_regime: DecodingRegime::Johnson,
                target_security_bits,
                pow_budget: spec_per_slot(DEFAULT_POW_BUDGET_BITS),
                hash_id: HashId::spec_blake3(),
            }),
            r.pow_budget.spec_bits() == 16,
    {
        SecuritySpec {
            mode: Mode::Standard,
            decoding_regime: DecodingRegime::Johnson,
            target_security_bits,
            pow_budget: PowBudget::per_slot(DEFAULT_POW_BUDGET_BITS),
            hash_id: HashId::blake3(),
        }
    }

    /// The same with another mode.
    pub fn with_mode(self, mode: Mode) -> (r: Self)
        ensures
            r == (SecuritySpec { mode, ..self }),
    {
        SecuritySpec { mode, ..self }
    }

    /// The same with another decoding regime.
    pub fn with_decoding_regime(self, decoding_regime: DecodingRegime) -> (r: Self)
        ensures
            r == (SecuritySpec { decoding_regime, ..self }),
    {
        SecuritySpec { decoding_regime, ..self }
    }

    /// The same with another work budget.
    pub fn with_pow_budget(self, pow_budget: PowBudget) -> (r: Self)
        ensures
            r == (SecuritySpec { pow_budget, ..self }),
    {
        SecuritySpec { pow_budget, ..self }
    }

    /// The same with another hash function.
    pub fn with_hash(self, hash_id: HashId) -> (r: Self)
        ensures
            r == (SecuritySpec { hash_id, ..self }),
    {
        SecuritySpec { hash_id, ..self }
    }

    /// The level that the protocol itself must reach: the target less the credit for
    /// work, never below zero.
    pub open spec fn spec_protocol_target(&self) -> Bits {
        let pow = self.pow_budget.spec_bits();
        if self.target_security_bits >= pow {
            Bits::spec_whole((self.target_security_bits - pow) as u32)
        } else {
            Bits { micro: 0 }
        }
    }

    /// The level that the protocol itself must reach: the target less the credit for
    /// work, never below zero.
    pub fn protocol_security_target_bits(&self) -> (r: Bits)
        ensures
            r == self.spec_protocol_target(),
    {
        let pow: u32 = self.pow_budget.bits();
        Bits::whole(self.target_security_bits.saturating_sub(pow))
    }

    /// This specification as one in zero-knowledge mode, or `None`.
    pub fn as_zk(&self) -> (r: Option<ZkSpec<'_>>)
        ensures
            r is Some <==> self.mode is ZeroKnowledge,
            r matches Some(zk) ==> zk.spec_inner() == *self,
    {
        ZkSpec::try_new(self)
    }
}

/// A specification known to be in zero-knowledge mode.
#[derive(Clone, Copy, Debug)]
pub struct ZkSpec<'a> {
    inner: &'a SecuritySpec,
}

impl<'a> ZkSpec<'a> {
    /// The specification.
    pub closed spec fn spec_inner(&self) -> SecuritySpec {
        *self.inner
    }

    #[verifier::type_invariant]
    spec fn is_zk(&self) -> bool {
        self.inner.mode is ZeroKnowledge
    }

    /// `None` for a specification in standard mode.
    pub fn try_new(spec: &'a SecuritySpec) -> (r: Option<Self>)
        ensures
            r is Some <==> spec.mode is ZeroKnowledge,
            r matches Some(zk) ==> zk.spec_inner() == *spec,
    {
        match spec.mode {
            Mode::Standard => None,
            Mode::ZeroKnowledge => Some(ZkSpec { inner: spec }),
        }
    }

    /// The specification, which is in zero-knowledge mode.
    pub fn as_inner(self) -> (r: &'a SecuritySpec)
        ensures
            *r == self.spec_inner(),
            r.mode is ZeroKnowledge,
    {
        proof {
            use_type_invariant(&self);
        }
        self.inner
    }
}

/// How many variables every round folds.
#[derive(Clone, Copy, Debug, PartialEq, Eq, Structural)]
pub enum FoldingFactor {
    /// The same in all rounds.
    Constant(usize),
    /// `initial` in the first round, `rest` in the others.
    ConstantFromSecondRound { initial: usize, rest: usize },
}

impl FoldingFactor {
    /// The factor of a round.
    pub open spec fn spec_at_round(self, round: nat) -> usize {
        match self {
            FoldingFactor::Constant(f) => f,
            FoldingFactor::ConstantFromSecondRound { initial, rest } => if round == 0 {
                initial
            } else {
                rest
            },
        }
    }

    /// The factor of a round.
    pub fn at_round(&self, round: usize) -> (r: usize)
        ensures
            r == self.spec_at_round(round as nat),
    {
        match self {
            FoldingFactor::Constant(f) => *f,
            FoldingFactor::ConstantFromSecondRound { initial, rest } => if round == 0 {
                *initial
            } else {
                *rest
            },
        }
    }

    /// The smallest factor of any round.
    pub open spec fn spec_min(self) -> usize {
        if self.spec_at_round(0) < self.spec_at_round(1) {
            self.spec_at_round(0)
        } else {
            self.spec_at_round(1)
        }
    }

    /// The smallest factor of any round.
    pub fn min(&self) -> (r: usize)
        ensures
            r == self.spec_min(),
            forall|round: nat| r <= #[trigger] self.spec_at_round(round),
    {
        match self {
            FoldingFactor::Constant(f) => *f,
            FoldingFactor::ConstantFromSecondRound { initial, rest } => if *initial < *rest {
                *initial
            } else {
                *rest
            },
        }
    }
}

/// The bias of the adaptive planner between prover time and proof size, in
/// millionths; never above one.
#[derive(Clone, Copy, Debug, PartialEq, Eq, Structural)]
pub struct KneeWeight {
    micro: u32,
}

impl KneeWeight {
    /// The weight, in millionths.
    pub closed spec fn spec_micro(self) -> u32 {
        self.micro
    }

    /// A weight; values above one are taken as one.
    pub fn new(micro: u32) -> (r: Self)
        ensures
            r.spec_micro() == (if micro > 1_000_000 {
                1_000_000
            } else {
                micro
            }),
    {
        if micro > 1_000_000 {
            KneeWeight { micro: 1_000_000 }
        } else {
            KneeWeight { micro }
        }
    }

    /// The weight, in millionths.
    pub fn get(self) -> (r: u32)
        ensures
            r == self.spec_micro(),
    {
        self.micro
    }
}

impl Default for KneeWeight {
    /// Equal weight on both axes.
    fn default() -> (r: Self)
        ensures
            r.spec_micro() == 500_000,
    {
        KneeWeight { micro: 500_000 }
    }
}

/// How the inverse rate grows from round to round.
#[derive(Clone, Copy, Debug, PartialEq, Eq, Structural)]
pub enum RateSchedule {
    /// The logarithm grows by one less than the folding factor, without bound.
    Stepping,
    /// The same, up to a maximum.
    Capped { max_log_inv_rate: u32 },
    /// Chosen by a planner.
    Adaptive { knee_weight: KneeWeight },
}

/// The sum, or the largest number.
pub open spec fn saturated_sum(a: u32, b: u32) -> u32 {
    if a + b <= u32::MAX {
        (a + b) as u32
    } else {
        u32::MAX
    }
}

/// The growth of a round without a cap.
pub open spec fn stepped_rate(current: u32, folding_factor: u32) -> u32 {
    saturated_sum(
        current,
        (if folding_factor >= 1 {
            (folding_factor - 1) as u32
        } else {
            0
        }),
    )
}

impl RateSchedule {
    /// The next round's logarithmic inverse rate.
    pub open spec fn spec_step(self, current: u32, folding_factor: u32) -> u32 {
        let stepped = stepped_rate(current, folding_factor);
        match self {
            RateSchedule::Capped { max_log_inv_rate } => if stepped < max_log_inv_rate {
                stepped
            } else {
                max_log_inv_rate
            },
            _ => stepped,
        }
    }

    /// The next round's logarithmic inverse rate. The planner of the adaptive schedule
    /// replaces it later.
    pub fn step(self, current_log_inv_rate: u32, folding_factor: u32) -> (r: u32)
        ensures
            r == self.spec_step(current_log_inv_rate, folding_factor),
    {
        let stepped: u32 = current_log_inv_rate.saturating_add(folding_factor.saturating_sub(1));
        match self {
            RateSchedule::Capped { max_log_inv_rate } => if stepped < max_log_inv_rate {
                stepped
            } else {
                max_log_inv_rate
            },
            _ => stepped,
        }
    }

    /// Is a planner to choose the rates?
    pub fn is_adaptive(self) -> (r: bool)
        ensures
            r == self is Adaptive,
    {
        match self {
            RateSchedule::Adaptive { knee_weight } => true,
            _ => false,
        }
    }
}

/// Without a cap the rate never shrinks; with one it never exceeds it; a cap at the
/// current rate keeps it.
pub proof fn law_rate_steps(schedule: RateSchedule, current: u32, folding_factor: u32)
    ensures
        !(schedule is Capped) ==> schedule.spec_step(current, folding_factor) >= current,
        schedule matches RateSchedule::Capped { max_log_inv_rate } ==> {
            &&& schedule.spec_step(current, folding_factor) <= max_log_inv_rate
            &&& max_log_inv_rate == current ==> schedule.spec_step(current, folding_factor) == current
        },
{
}

/// The size and time tradeoffs asked for.
#[derive(Clone, Copy, Debug, PartialEq, Eq, Structural)]
pub struct TuningSpec {
    pub vector_size: usize,
    pub starting_log_inv_rate: u32,
    pub folding_factor: FoldingFactor,
    pub rate_schedule: RateSchedule,
}

/// What a sub-protocol of a round is built for.
#[derive(Clone, Copy, Debug, PartialEq, Eq, Structural)]
pub struct RoundContext {
    pub vector_size: usize,
    pub log_inv_rate: u32,
    pub folding_factor: u32,
}

} // verus!
