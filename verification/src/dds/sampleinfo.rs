//! What a reader knows of a sample besides its value.

use crate::structure::guid::GUID;
use crate::structure::time::Timestamp;
use vstd::prelude::*;

verus! {

/// Whether the application has seen the sample.
#[derive(Debug, Clone, Copy, PartialEq, Eq, Structural)]
pub enum SampleState {
    Read,
    NotRead,
}

/// Whether the application has seen the sample's instance before.
#[derive(Debug, Clone, Copy, PartialEq, Eq, Structural)]
pub enum ViewState {
    New,
    NotNew,
}

/// Whether the sample's instance is alive.
#[allow(non_camel_case_types)]
#[derive(Debug, Clone, Copy, PartialEq, Eq, Structural)]
pub enum InstanceState {
    Alive,
    NotAlive_Disposed,
    NotAlive_NoWriters,
}

impl SampleState {
    /// The state's bit in a mask of sample states.
    pub open spec fn spec_bit(self) -> u8 {
        match self {
            SampleState::Read => 0b0001,
            SampleState::NotRead => 0b0010,
        }
    }

    /// The state's bit in a mask of sample states.
    #[verifier::when_used_as_spec(spec_bit)]
    pub fn bit(self) -> (b: u8)
        ensures
            b == self.spec_bit(),
    {
        match self {
            SampleState::Read => 0b0001,
            SampleState::NotRead => 0b0010,
        }
    }
}

impl ViewState {
    /// The state's bit in a mask of view states.
    pub open spec fn spec_bit(self) -> u8 {
        match self {
            ViewState::New => 0b0001,
            ViewState::NotNew => 0b0010,
        }
    }

    /// The state's bit in a mask of view states.
    #[verifier::when_used_as_spec(spec_bit)]
    pub fn bit(self) -> (b: u8)
        ensures
            b == self.spec_bit(),
    {
        match self {
            ViewState::New => 0b0001,
            ViewState::NotNew => 0b0010,
        }
    }
}

impl InstanceState {
    /// The state's bit in a mask of instance states.
    pub open spec fn spec_bit(self) -> u8 {
        match self {
            InstanceState::Alive => 0b0001,
            InstanceState::NotAlive_Disposed => 0b0010,
            InstanceState::NotAlive_NoWriters => 0b0100,
        }
    }

    /// The state's bit in a mask of instance states.
    #[verifier::when_used_as_spec(spec_bit)]
    pub fn bit(self) -> (b: u8)
        ensures
            b == self.spec_bit(),
    {
        match self {
            InstanceState::Alive => 0b0001,
            InstanceState::NotAlive_Disposed => 0b0010,
            InstanceState::NotAlive_NoWriters => 0b0100,
        }
    }
}

/// What a reader knows of a sample besides its value.
#[derive(Debug, Clone, Copy, PartialEq, Eq)]
pub struct SampleInfo {
    pub sample_state: SampleState,
    pub view_state: ViewState,
    pub instance_state: InstanceState,
    /// When the writer made the sample, where that is known.
    pub source_timestamp: Timestamp,
    /// The writer that made the sample.
    pub publication_handle: GUID,
}

impl SampleInfo {
    /// What is known of a sample that has just arrived from `writer_guid`: not
    /// read, of a new instance, alive.
    pub open spec fn spec_fresh(source_timestamp: Timestamp, writer_guid: GUID) -> SampleInfo {
        SampleInfo {
            sample_state: SampleState::NotRead,
            view_state: ViewState::New,
            instance_state: InstanceState::Alive,
            source_timestamp,
            publication_handle: writer_guid,
        }
    }

    /// What is known of a sample that has just arrived from `writer_guid`: not
    /// read, of a new instance, alive.
    #[verifier::when_used_as_spec(spec_fresh)]
    pub fn fresh(source_timestamp: Timestamp, writer_guid: GUID) -> (i: SampleInfo)
        ensures
            i == Self::spec_fresh(source_timestamp, writer_guid),
    {
        SampleInfo {
            sample_state: SampleState::NotRead,
            view_state: ViewState::New,
            instance_state: InstanceState::Alive,
            source_timestamp,
            publication_handle: writer_guid,
        }
    }
}

} // verus!
