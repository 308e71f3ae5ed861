//! Which samples a read or take asks for.

use crate::dds::sampleinfo::{SampleInfo, SampleState};
use vstd::prelude::*;

verus! {

/// A choice of samples by their three states: a sample is asked for when
/// each of its states is in the mask for that state.
#[derive(Debug, Clone, Copy, PartialEq, Eq, Structural)]
pub struct ReadCondition {
    pub sample_state_mask: u8,
    pub view_state_mask: u8,
    pub instance_state_mask: u8,
}

impl ReadCondition {
    /// Whether a sample with the states of `info` is asked for.
    pub open spec fn spec_matches(&self, info: SampleInfo) -> bool {
        &&& self.sample_state_mask & info.sample_state.spec_bit() != 0
        &&& self.view_state_mask & info.view_state.spec_bit() != 0
        &&& self.instance_state_mask & info.instance_state.spec_bit() != 0
    }

    /// Every sample.
    pub open spec fn spec_any() -> ReadCondition {
        ReadCondition {
            sample_state_mask: 0b0011,
            view_state_mask: 0b0011,
            instance_state_mask: 0b0111,
        }
    }

    /// The samples that have not been read.
    pub open spec fn spec_not_read() -> ReadCondition {
        ReadCondition {
            sample_state_mask: 0b0010,
            view_state_mask: 0b0011,
            instance_state_mask: 0b0111,
        }
    }

    /// Every sample.
    #[verifier::when_used_as_spec(spec_any)]
    pub fn any() -> (c: ReadCondition)
        ensures
            c == Self::spec_any(),
    {
        ReadCondition {
            sample_state_mask: 0b0011,
            view_state_mask: 0b0011,
            instance_state_mask: 0b0111,
        }
    }

    /// The samples that have not been read.
    #[verifier::when_used_as_spec(spec_not_read)]
    pub fn not_read() -> (c: ReadCondition)
        ensures
            c == Self::spec_not_read(),
    {
        ReadCondition {
            sample_state_mask: 0b0010,
            view_state_mask: 0b0011,
            instance_state_mask: 0b0111,
        }
    }

    /// `any` asks for every sample.
    pub proof fn lemma_any_matches_all(info: SampleInfo)
        ensures
            Self::spec_any().spec_matches(info),
    {
        let s = info.sample_state.spec_bit();
        let v = info.view_state.spec_bit();
        let i = info.instance_state.spec_bit();
        assert((s == 1 || s == 2) ==> 0b0011u8 & s != 0) by (bit_vector);
        assert((v == 1 || v == 2) ==> 0b0011u8 & v != 0) by (bit_vector);
        assert((i == 1 || i == 2 || i == 4) ==> 0b0111u8 & i != 0) by (bit_vector);
    }

    /// `not_read` asks for exactly the samples that have not been read.
    pub proof fn lemma_not_read_matches(info: SampleInfo)
        ensures
            Self::spec_not_read().spec_matches(info) <==> info.sample_state == SampleState::NotRead,
    {
        let s = info.sample_state.spec_bit();
        let v = info.view_state.spec_bit();
        let i = info.instance_state.spec_bit();
        assert(0b0010u8 & 1u8 == 0) by (bit_vector);
        assert(0b0010u8 & 2u8 != 0) by (bit_vector);
        assert((v == 1 || v == 2) ==> 0b0011u8 & v != 0) by (bit_vector);
        assert((i == 1 || i == 2 || i == 4) ==> 0b0111u8 & i != 0) by (bit_vector);
    }
}

} // verus!
