use vstd::prelude::*;

verus! {

/// The height of a block in the chain.
#[derive(Clone, Copy, Debug, PartialEq, Eq, Structural)]
pub struct Height(pub u64);

/// A consensus round: `Nil` (round -1, no round) or a defined round number.
/// Rounds are ordered by their number, `Nil` first.
#[derive(Clone, Copy, Debug, PartialEq, Eq, Structural)]
pub enum Round {
    Nil,
    Defined(u32),
}

impl Round {
    pub open spec fn spec_as_i64(&self) -> i64 {
        match *self {
            Round::Nil => -1i64,
            Round::Defined(r) => r as i64,
        }
    }

    /// The round as a signed number: -1 for `Nil`, `r` for round `r`.
    #[verifier::when_used_as_spec(spec_as_i64)]
    pub fn as_i64(&self) -> (n: i64)
        ensures
            n == self.spec_as_i64(),
    {
        match *self {
            Round::Nil => -1,
            Round::Defined(r) => r as i64,
        }
    }
}

/// The address of a validator.
#[derive(Clone, Copy, Debug, PartialEq, Eq)]
pub struct Address(pub [u8; 20]);

/// The first part of a streamed proposal: what the proposal is for and who made it.
#[derive(Clone, Copy, Debug, PartialEq, Eq)]
pub struct ProposalInit {
    pub height: Height,
    pub round: Round,
    pub pol_round: Round,
    pub proposer: Address,
}

/// A part of a streamed proposal that carries data.
#[derive(Clone, Copy, Debug, PartialEq, Eq)]
pub struct ProposalData {
    pub factor: u64,
}

/// The last part of a streamed proposal: the proposer's signature over it.
#[derive(Clone, Debug, PartialEq, Eq)]
pub struct ProposalFin {
    pub signature: Vec<u8>,
}

/// A part of a proposal, as it travels in a stream.
#[derive(Clone, Debug, PartialEq, Eq)]
pub enum ProposalPart {
    Init(ProposalInit),
    Data(ProposalData),
    Fin(ProposalFin),
}

impl ProposalPart {
    pub open spec fn spec_init(&self) -> Option<ProposalInit> {
        match *self {
            ProposalPart::Init(init) => Some(init),
            _ => None,
        }
    }

    /// The proposal's init part, when this is one.
    pub fn as_init(&self) -> (init: Option<&ProposalInit>)
        ensures
            match init {
                Some(i) => self.spec_init() == Some(*i),
                None => self.spec_init() is None,
            },
    {
        match self {
            ProposalPart::Init(init) => Some(init),
            _ => None,
        }
    }
}

} // verus!
