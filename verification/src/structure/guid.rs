//! Globally unique identifiers: twelve octets for the participant, four for
//! the endpoint within it.

use vstd::prelude::*;

verus! {

broadcast use vstd::array::group_array_axioms;

/// The twelve octets that identify a participant.
#[allow(non_snake_case)]
#[derive(Debug, Clone, Copy, Eq, Hash)]
pub struct GuidPrefix {
    pub entityKey: [u8; 12],
}

impl GuidPrefix {
    /// The prefix that names no participant: twelve zero octets.
    pub fn unknown() -> (p: GuidPrefix)
        ensures
            p.entityKey@ == Seq::new(12, |i: int| 0u8),
    {
        let p = GuidPrefix { entityKey: [0u8, 0, 0, 0, 0, 0, 0, 0, 0, 0, 0, 0] };
        assert(p.entityKey@ =~= Seq::new(12, |i: int| 0u8));
        p
    }

    /// The prefix made of the first twelve octets of `prefix`; octets that
    /// `prefix` lacks are zero.
    pub fn new(prefix: Vec<u8>) -> (p: GuidPrefix)
        ensures
            forall|i: int|
                0 <= i < 12 ==> p.entityKey@[i] == if i < prefix@.len() {
                    prefix@[i]
                } else {
                    0u8
                },
    {
        let mut key: [u8; 12] = [0u8, 0, 0, 0, 0, 0, 0, 0, 0, 0, 0, 0];
        let mut i: usize = 0;
        while i < 12 && i < prefix.len()
            invariant
                i <= 12,
                i <= prefix@.len(),
                forall|j: int| 0 <= j < i ==> key@[j] == prefix@[j],
                forall|j: int| i <= j < 12 ==> key@[j] == 0u8,
            decreases 12 - i,
        {
            key[i] = prefix[i];
            i += 1;
        }
        GuidPrefix { entityKey: key }
    }
}

impl PartialEq for GuidPrefix {
    fn eq(&self, other: &GuidPrefix) -> (r: bool) {
        let mut i: usize = 0;
        while i < 12
            invariant
                i <= 12,
                forall|j: int| 0 <= j < i ==> self.entityKey@[j] == other.entityKey@[j],
            decreases 12 - i,
        {
            if self.entityKey[i] != other.entityKey[i] {
                return false;
            }
            i += 1;
        }
        assert(self.entityKey =~= other.entityKey);
        true
    }
}

impl vstd::std_specs::cmp::PartialEqSpecImpl for GuidPrefix {
    open spec fn obeys_eq_spec() -> bool {
        true
    }

    open spec fn eq_spec(&self, other: &GuidPrefix) -> bool {
        *self == *other
    }
}

/// The four octets that identify an endpoint within its participant: three
/// of key and one of kind.
#[allow(non_snake_case)]
#[derive(Debug, Clone, Copy, PartialEq, Eq, Hash, Structural)]
pub struct EntityId {
    pub entityKey0: u8,
    pub entityKey1: u8,
    pub entityKey2: u8,
    pub entityKind: u8,
}

#[allow(non_snake_case)]
impl EntityId {
    /// The endpoint with the given key and kind octets.
    pub fn createCustomEntityID(entityKey: [u8; 3], entityKind: u8) -> (e: EntityId)
        ensures
            e.entityKey0 == entityKey@[0],
            e.entityKey1 == entityKey@[1],
            e.entityKey2 == entityKey@[2],
            e.entityKind == entityKind,
    {
        EntityId {
            entityKey0: entityKey[0],
            entityKey1: entityKey[1],
            entityKey2: entityKey[2],
            entityKind,
        }
    }

    /// The four octets in wire order.
    pub open spec fn octets(self) -> Seq<u8> {
        seq![self.entityKey0, self.entityKey1, self.entityKey2, self.entityKind]
    }

    /// The endpoint that is not known, or any endpoint.
    pub open spec fn spec_unknown() -> EntityId {
        EntityId { entityKey0: 0, entityKey1: 0, entityKey2: 0, entityKind: 0x0 }
    }

    /// The endpoint that is not known, or any endpoint.
    #[verifier::when_used_as_spec(spec_unknown)]
    pub fn unknown() -> (e: EntityId)
        ensures
            e == Self::spec_unknown(),
    {
        EntityId { entityKey0: 0, entityKey1: 0, entityKey2: 0, entityKind: 0x0 }
    }

    /// The participant itself.
    pub open spec fn spec_participant() -> EntityId {
        EntityId { entityKey0: 0, entityKey1: 0, entityKey2: 1, entityKind: 0xc1 }
    }

    /// The participant itself.
    #[verifier::when_used_as_spec(spec_participant)]
    pub fn participant() -> (e: EntityId)
        ensures
            e == Self::spec_participant(),
    {
        EntityId { entityKey0: 0, entityKey1: 0, entityKey2: 1, entityKind: 0xc1 }
    }

    /// The built-in writer that announces topics.
    pub open spec fn spec_sedp_builtin_topic_writer() -> EntityId {
        EntityId { entityKey0: 0, entityKey1: 0, entityKey2: 2, entityKind: 0xc2 }
    }

    /// The built-in writer that announces topics.
    #[verifier::when_used_as_spec(spec_sedp_builtin_topic_writer)]
    pub fn sedp_builtin_topic_writer() -> (e: EntityId)
        ensures
            e == Self::spec_sedp_builtin_topic_writer(),
    {
        EntityId { entityKey0: 0, entityKey1: 0, entityKey2: 2, entityKind: 0xc2 }
    }

    /// The built-in reader of announced topics.
    pub open spec fn spec_sedp_builtin_topic_reader() -> EntityId {
        EntityId { entityKey0: 0, entityKey1: 0, entityKey2: 2, entityKind: 0xc7 }
    }

    /// The built-in reader of announced topics.
    #[verifier::when_used_as_spec(spec_sedp_builtin_topic_reader)]
    pub fn sedp_builtin_topic_reader() -> (e: EntityId)
        ensures
            e == Self::spec_sedp_builtin_topic_reader(),
    {
        EntityId { entityKey0: 0, entityKey1: 0, entityKey2: 2, entityKind: 0xc7 }
    }

    /// The built-in writer that announces local writers.
    pub open spec fn spec_sedp_builtin_publications_writer() -> EntityId {
        EntityId { entityKey0: 0, entityKey1: 0, entityKey2: 3, entityKind: 0xc2 }
    }

    /// The built-in writer that announces local writers.
    #[verifier::when_used_as_spec(spec_sedp_builtin_publications_writer)]
    pub fn sedp_builtin_publications_writer() -> (e: EntityId)
        ensures
            e == Self::spec_sedp_builtin_publications_writer(),
    {
        EntityId { entityKey0: 0, entityKey1: 0, entityKey2: 3, entityKind: 0xc2 }
    }

    /// The built-in reader of announced writers.
    pub open spec fn spec_sedp_builtin_publications_reader() -> EntityId {
        EntityId { entityKey0: 0, entityKey1: 0, entityKey2: 3, entityKind: 0xc7 }
    }

    /// The built-in reader of announced writers.
    #[verifier::when_used_as_spec(spec_sedp_builtin_publications_reader)]
    pub fn sedp_builtin_publications_reader() -> (e: EntityId)
        ensures
            e == Self::spec_sedp_builtin_publications_reader(),
    {
        EntityId { entityKey0: 0, entityKey1: 0, entityKey2: 3, entityKind: 0xc7 }
    }

    /// The built-in writer that announces local readers.
    pub open spec fn spec_sedp_builtin_subscriptions_writer() -> EntityId {
        EntityId { entityKey0: 0, entityKey1: 0, entityKey2: 4, entityKind: 0xc2 }
    }

    /// The built-in writer that announces local readers.
    #[verifier::when_used_as_spec(spec_sedp_builtin_subscriptions_writer)]
    pub fn sedp_builtin_subscriptions_writer() -> (e: EntityId)
        ensures
            e == Self::spec_sedp_builtin_subscriptions_writer(),
    {
        EntityId { entityKey0: 0, entityKey1: 0, entityKey2: 4, entityKind: 0xc2 }
    }

    /// The built-in reader of announced readers.
    pub open spec fn spec_sedp_builtin_subscriptions_reader() -> EntityId {
        EntityId { entityKey0: 0, entityKey1: 0, entityKey2: 4, entityKind: 0xc7 }
    }

    /// The built-in reader of announced readers.
    #[verifier::when_used_as_spec(spec_sedp_builtin_subscriptions_reader)]
    pub fn sedp_builtin_subscriptions_reader() -> (e: EntityId)
        ensures
            e == Self::spec_sedp_builtin_subscriptions_reader(),
    {
        EntityId { entityKey0: 0, entityKey1: 0, entityKey2: 4, entityKind: 0xc7 }
    }

    /// The built-in writer that announces the participant.
    pub open spec fn spec_spdp_builtin_participant_writer() -> EntityId {
        EntityId { entityKey0: 0, entityKey1: 1, entityKey2: 0, entityKind: 0xc2 }
    }

    /// The built-in writer that announces the participant.
    #[verifier::when_used_as_spec(spec_spdp_builtin_participant_writer)]
    pub fn spdp_builtin_participant_writer() -> (e: EntityId)
        ensures
            e == Self::spec_spdp_builtin_participant_writer(),
    {
        EntityId { entityKey0: 0, entityKey1: 1, entityKey2: 0, entityKind: 0xc2 }
    }

    /// The built-in reader of announced participants.
    pub open spec fn spec_spdp_builtin_participant_reader() -> EntityId {
        EntityId { entityKey0: 0, entityKey1: 1, entityKey2: 0, entityKind: 0xc7 }
    }

    /// The built-in reader of announced participants.
    #[verifier::when_used_as_spec(spec_spdp_builtin_participant_reader)]
    pub fn spdp_builtin_participant_reader() -> (e: EntityId)
        ensures
            e == Self::spec_spdp_builtin_participant_reader(),
    {
        EntityId { entityKey0: 0, entityKey1: 1, entityKey2: 0, entityKind: 0xc7 }
    }

    /// The built-in writer of participant messages.
    pub open spec fn spec_p2p_builtin_participant_message_writer() -> EntityId {
        EntityId { entityKey0: 0, entityKey1: 2, entityKey2: 0, entityKind: 0xc2 }
    }

    /// The built-in writer of participant messages.
    #[verifier::when_used_as_spec(spec_p2p_builtin_participant_message_writer)]
    pub fn p2p_builtin_participant_message_writer() -> (e: EntityId)
        ensures
            e == Self::spec_p2p_builtin_participant_message_writer(),
    {
        EntityId { entityKey0: 0, entityKey1: 2, entityKey2: 0, entityKind: 0xc2 }
    }

    /// The built-in reader of participant messages.
    pub open spec fn spec_p2p_builtin_participant_message_reader() -> EntityId {
        EntityId { entityKey0: 0, entityKey1: 2, entityKey2: 0, entityKind: 0xc7 }
    }

    /// The built-in reader of participant messages.
    #[verifier::when_used_as_spec(spec_p2p_builtin_participant_message_reader)]
    pub fn p2p_builtin_participant_message_reader() -> (e: EntityId)
        ensures
            e == Self::spec_p2p_builtin_participant_message_reader(),
    {
        EntityId { entityKey0: 0, entityKey1: 2, entityKey2: 0, entityKind: 0xc7 }
    }
}

impl Default for EntityId {
    fn default() -> (e: EntityId)
        ensures
            e == EntityId::spec_unknown(),
    {
        EntityId::unknown()
    }
}

/// The sixteen octets that identify an endpoint anywhere.
#[allow(non_snake_case)]
#[derive(Debug, Clone, Copy, Eq, Hash)]
pub struct GUID {
    pub guidPrefix: GuidPrefix,
    pub entityId: EntityId,
}

impl GUID {
    /// The identifier that names nothing.
    pub fn new() -> (g: GUID)
        ensures
            g.guidPrefix.entityKey@ == Seq::new(12, |i: int| 0u8),
            g.entityId == EntityId::spec_unknown(),
    {
        GUID { guidPrefix: GuidPrefix::unknown(), entityId: EntityId::unknown() }
    }

    /// The endpoint `entity_id` of the participant `prefix`.
    pub fn new_with_prefix_and_id(prefix: GuidPrefix, entity_id: EntityId) -> (g: GUID)
        ensures
            g == (GUID { guidPrefix: prefix, entityId: entity_id }),
    {
        GUID { guidPrefix: prefix, entityId: entity_id }
    }
}

impl PartialEq for GUID {
    fn eq(&self, other: &GUID) -> (r: bool) {
        self.guidPrefix == other.guidPrefix && self.entityId == other.entityId
    }
}

impl vstd::std_specs::cmp::PartialEqSpecImpl for GUID {
    open spec fn obeys_eq_spec() -> bool {
        true
    }

    open spec fn eq_spec(&self, other: &GUID) -> bool {
        *self == *other
    }
}

} // verus!
