//! A sample as the application receives it.

use crate::dds::sampleinfo::{InstanceState, SampleInfo};
use crate::dds::traits::{Key, Keyed};
use crate::structure::guid::GUID;
use crate::structure::time::Timestamp;
use vstd::prelude::*;

verus! {

/// A sample with what the reader knows of it. The value is the sample
/// itself, or only the key of its instance where the instance was disposed
/// of without a value.
pub struct DataSample<D: Keyed> {
    pub sample_info: SampleInfo,
    pub value: Result<D, D::K>,
}

impl<D: Keyed> DataSample<D> {
    /// The key of the sample's instance.
    pub open spec fn spec_key(&self) -> D::K {
        match self.value {
            Ok(d) => d.spec_key(),
            Err(k) => k,
        }
    }

    /// A sample of a living instance that has just arrived.
    pub fn new(source_timestamp: Timestamp, payload: D, writer_guid: GUID) -> (s: DataSample<D>)
        ensures
            s.sample_info == SampleInfo::spec_fresh(source_timestamp, writer_guid),
            s.value == Ok::<D, D::K>(payload),
    {
        DataSample { sample_info: SampleInfo::fresh(source_timestamp, writer_guid), value: Ok(payload) }
    }

    /// The news that the instance with the key `key` was disposed of.
    pub fn new_disposed(source_timestamp: Timestamp, key: D::K, writer_guid: GUID) -> (s:
        DataSample<D>)
        ensures
            s.sample_info == (SampleInfo {
                instance_state: InstanceState::NotAlive_Disposed,
                ..SampleInfo::spec_fresh(source_timestamp, writer_guid)
            }),
            s.value == Err::<D, D::K>(key),
    {
        let mut sample_info = SampleInfo::fresh(source_timestamp, writer_guid);
        sample_info.instance_state = InstanceState::NotAlive_Disposed;
        DataSample { sample_info, value: Err(key) }
    }

    /// The key of the sample's instance.
    pub fn get_key(&self) -> (k: D::K)
        ensures
            k == self.spec_key(),
    {
        match &self.value {
            Ok(d) => d.get_key(),
            Err(k) => k.clone_key(),
        }
    }

    /// The sample, where it has a value.
    pub fn get_value(&self) -> (v: Option<&D>)
        ensures
            match v {
                Some(d) => self.value == Ok::<D, D::K>(*d),
                None => self.value is Err,
            },
    {
        match &self.value {
            Ok(d) => Some(d),
            Err(_) => None,
        }
    }

    /// The sample, or the key that stands in its place.
    pub fn get_keyed_value(&self) -> (v: &Result<D, D::K>)
        ensures
            *v == self.value,
    {
        &self.value
    }

    /// Gives up the sample, or the key that stands in its place.
    pub fn into_value(self) -> (v: Result<D, D::K>)
        ensures
            v == self.value,
    {
        self.value
    }

    /// What the reader knows of the sample.
    pub fn sample_info(&self) -> (i: &SampleInfo)
        ensures
            *i == self.sample_info,
    {
        &self.sample_info
    }
}

} // verus!
