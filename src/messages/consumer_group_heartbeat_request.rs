//! The heartbeat that a consumer group member sends.
use vstd::prelude::*;

use crate::messages::{GroupId, TopicName};
use crate::protocol::tagged::{RawTaggedField, UnknownTaggedFields};
use crate::protocol::types::{self, CompactArray, CompactBytes, CompactString, Int16, Int32, Int8, StrBytes, Struct};
use crate::protocol::{add_size, decoded, field_decode, field_encode, lemma_field, lemma_skip_skip, Codec, DecodeError, EncodeError, Message, Uuid};

verus! {

/// A client-side assignor the member supports. Valid versions: 0.
#[derive(Debug, Clone, PartialEq)]
pub struct Assignor {
    /// The name of the assignor.
    ///
    /// On the wire at version 0.
    pub name: StrBytes,
    /// The minimum supported version for the metadata.
    ///
    /// On the wire at version 0.
    pub minimum_version: i16,
    /// The maximum supported version for the metadata.
    ///
    /// On the wire at version 0.
    pub maximum_version: i16,
    /// The reason of the metadata update.
    ///
    /// On the wire at version 0.
    pub reason: i8,
    /// The version of the metadata.
    ///
    /// On the wire at version 0.
    pub metadata_version: i16,
    /// The metadata.
    ///
    /// On the wire at version 0.
    pub metadata_bytes: Vec<u8>,
    /// Tagged fields that the schema does not know, kept to be written back.
    pub unknown_tagged_fields: Vec<RawTaggedField>,
}

/// The value of a [`Assignor`], field by field.
pub struct AssignorModel {
    pub name: Seq<u8>,
    pub minimum_version: i16,
    pub maximum_version: i16,
    pub reason: i8,
    pub metadata_version: i16,
    pub metadata_bytes: Seq<u8>,
    pub unknown_tagged_fields: Seq<(u32, Seq<u8>)>,
}

impl DeepView for Assignor {
    type V = AssignorModel;

    open spec fn deep_view(&self) -> AssignorModel {
        AssignorModel {
            name: self.name.deep_view(),
            minimum_version: self.minimum_version.deep_view(),
            maximum_version: self.maximum_version.deep_view(),
            reason: self.reason.deep_view(),
            metadata_version: self.metadata_version.deep_view(),
            metadata_bytes: self.metadata_bytes.deep_view(),
            unknown_tagged_fields: self.unknown_tagged_fields.deep_view(),
        }
    }
}

impl Assignor {
    /// The value of every field when nothing else is said.
    pub open spec fn default_model() -> AssignorModel {
        AssignorModel {
            name: Seq::<u8>::empty(),
            minimum_version: 0i16,
            maximum_version: 0i16,
            reason: 0i8,
            metadata_version: 0i16,
            metadata_bytes: Seq::<u8>::empty(),
            unknown_tagged_fields: Seq::<(u32, Seq<u8>)>::empty(),
        }
    }
}

impl Default for Assignor {
    fn default() -> (r: Assignor)
        ensures
            r.deep_view() == Assignor::default_model(),
    {
        let r = Assignor {
            name: StrBytes::default(),
            minimum_version: 0i16,
            maximum_version: 0i16,
            reason: 0i8,
            metadata_version: 0i16,
            metadata_bytes: Vec::new(),
            unknown_tagged_fields: Vec::new(),
        };
        assert(r.metadata_bytes.deep_view() =~= Seq::<u8>::empty());
        assert(r.unknown_tagged_fields.deep_view() =~= Seq::<(u32, Seq<u8>)>::empty());
        r
    }
}

impl Message for Assignor {
    open spec fn spec_valid(m: AssignorModel, version: i16) -> bool {
        &&& <CompactString as Codec<StrBytes>>::valid(&CompactString, m.name)
        &&& <Int16 as Codec<i16>>::valid(&Int16, m.minimum_version)
        &&& <Int16 as Codec<i16>>::valid(&Int16, m.maximum_version)
        &&& <Int8 as Codec<i8>>::valid(&Int8, m.reason)
        &&& <Int16 as Codec<i16>>::valid(&Int16, m.metadata_version)
        &&& <CompactBytes as Codec<Vec<u8>>>::valid(&CompactBytes, m.metadata_bytes)
        &&& <UnknownTaggedFields as Codec<Vec<RawTaggedField>>>::valid(&UnknownTaggedFields, m.unknown_tagged_fields)
    }

    open spec fn spec_encode(m: AssignorModel, version: i16) -> Seq<u8> {
        field_encode(true, <CompactString as Codec<StrBytes>>::spec_encode(&CompactString, m.name))
            + field_encode(true, <Int16 as Codec<i16>>::spec_encode(&Int16, m.minimum_version))
            + field_encode(true, <Int16 as Codec<i16>>::spec_encode(&Int16, m.maximum_version))
            + field_encode(true, <Int8 as Codec<i8>>::spec_encode(&Int8, m.reason))
            + field_encode(true, <Int16 as Codec<i16>>::spec_encode(&Int16, m.metadata_version))
            + field_encode(true, <CompactBytes as Codec<Vec<u8>>>::spec_encode(&CompactBytes, m.metadata_bytes))
            + field_encode(true, <UnknownTaggedFields as Codec<Vec<RawTaggedField>>>::spec_encode(&UnknownTaggedFields, m.unknown_tagged_fields))
    }

    open spec fn spec_decode(s: Seq<u8>, version: i16) -> Option<(AssignorModel, nat)> {
        match field_decode(true, <CompactString as Codec<StrBytes>>::spec_decode(&CompactString, s), Seq::<u8>::empty()) {
            Some((v0, n0)) => 
            match field_decode(true, <Int16 as Codec<i16>>::spec_decode(&Int16, s.skip((n0) as int)), 0i16) {
                Some((v1, n1)) => 
                match field_decode(true, <Int16 as Codec<i16>>::spec_decode(&Int16, s.skip((n0 + n1) as int)), 0i16) {
                    Some((v2, n2)) => 
                    match field_decode(true, <Int8 as Codec<i8>>::spec_decode(&Int8, s.skip((n0 + n1 + n2) as int)), 0i8) {
                        Some((v3, n3)) => 
                        match field_decode(true, <Int16 as Codec<i16>>::spec_decode(&Int16, s.skip((n0 + n1 + n2 + n3) as int)), 0i16) {
                            Some((v4, n4)) => 
                            match field_decode(true, <CompactBytes as Codec<Vec<u8>>>::spec_decode(&CompactBytes, s.skip((n0 + n1 + n2 + n3 + n4) as int)), Seq::<u8>::empty()) {
                                Some((v5, n5)) => 
                                match field_decode(true, <UnknownTaggedFields as Codec<Vec<RawTaggedField>>>::spec_decode(&UnknownTaggedFields, s.skip((n0 + n1 + n2 + n3 + n4 + n5) as int)), Seq::<(u32, Seq<u8>)>::empty()) {
                                    Some((v6, n6)) => 
                                    Some((AssignorModel { name: v0, minimum_version: v1, maximum_version: v2, reason: v3, metadata_version: v4, metadata_bytes: v5, unknown_tagged_fields: v6 }, (n0 + n1 + n2 + n3 + n4 + n5 + n6) as nat)),
                                    None => None,
                                },
                                None => None,
                            },
                            None => None,
                        },
                        None => None,
                    },
                    None => None,
                },
                None => None,
            },
            None => None,
        }
    }

    #[verifier::rlimit(100)]
    proof fn lemma_decode_encode(m: AssignorModel, version: i16, rest: Seq<u8>) {
        let e0 = field_encode(true, <CompactString as Codec<StrBytes>>::spec_encode(&CompactString, m.name));
        let e1 = field_encode(true, <Int16 as Codec<i16>>::spec_encode(&Int16, m.minimum_version));
        let e2 = field_encode(true, <Int16 as Codec<i16>>::spec_encode(&Int16, m.maximum_version));
        let e3 = field_encode(true, <Int8 as Codec<i8>>::spec_encode(&Int8, m.reason));
        let e4 = field_encode(true, <Int16 as Codec<i16>>::spec_encode(&Int16, m.metadata_version));
        let e5 = field_encode(true, <CompactBytes as Codec<Vec<u8>>>::spec_encode(&CompactBytes, m.metadata_bytes));
        let e6 = field_encode(true, <UnknownTaggedFields as Codec<Vec<RawTaggedField>>>::spec_encode(&UnknownTaggedFields, m.unknown_tagged_fields));
        let t7 = rest;
        let t6 = e6 + t7;
        let t5 = e5 + t6;
        let t4 = e4 + t5;
        let t3 = e3 + t4;
        let t2 = e2 + t3;
        let t1 = e1 + t2;
        let t0 = e0 + t1;
        let s = Self::spec_encode(m, version) + rest;
        assert(s =~= t0);
        assert(s.skip(0) =~= s);
        lemma_field::<StrBytes, CompactString>(CompactString, true, m.name, Seq::<u8>::empty(), t1);
        lemma_skip_skip(s, (0) as int, e0.len() as int);
        assert(s.skip((e0.len()) as int) == t1);
        lemma_field::<i16, Int16>(Int16, true, m.minimum_version, 0i16, t2);
        lemma_skip_skip(s, (e0.len()) as int, e1.len() as int);
        assert(s.skip((e0.len() + e1.len()) as int) == t2);
        lemma_field::<i16, Int16>(Int16, true, m.maximum_version, 0i16, t3);
        lemma_skip_skip(s, (e0.len() + e1.len()) as int, e2.len() as int);
        assert(s.skip((e0.len() + e1.len() + e2.len()) as int) == t3);
        lemma_field::<i8, Int8>(Int8, true, m.reason, 0i8, t4);
        lemma_skip_skip(s, (e0.len() + e1.len() + e2.len()) as int, e3.len() as int);
        assert(s.skip((e0.len() + e1.len() + e2.len() + e3.len()) as int) == t4);
        lemma_field::<i16, Int16>(Int16, true, m.metadata_version, 0i16, t5);
        lemma_skip_skip(s, (e0.len() + e1.len() + e2.len() + e3.len()) as int, e4.len() as int);
        assert(s.skip((e0.len() + e1.len() + e2.len() + e3.len() + e4.len()) as int) == t5);
        lemma_field::<Vec<u8>, CompactBytes>(CompactBytes, true, m.metadata_bytes, Seq::<u8>::empty(), t6);
        lemma_skip_skip(s, (e0.len() + e1.len() + e2.len() + e3.len() + e4.len()) as int, e5.len() as int);
        assert(s.skip((e0.len() + e1.len() + e2.len() + e3.len() + e4.len() + e5.len()) as int) == t6);
        lemma_field::<Vec<RawTaggedField>, UnknownTaggedFields>(UnknownTaggedFields, true, m.unknown_tagged_fields, Seq::<(u32, Seq<u8>)>::empty(), t7);
    }

    #[verifier::rlimit(100)]
    #[verifier::spinoff_prover]
    fn encode(&self, buf: &mut Vec<u8>, version: i16) -> (r: Result<(), EncodeError>) {
        let ghost m = self.deep_view();
        let ghost b0 = buf@;
        <CompactString as Codec<StrBytes>>::encode(&CompactString, buf, &self.name)?;
        let ghost b1 = buf@;
        assert(b1 =~= b0 + field_encode(true, <CompactString as Codec<StrBytes>>::spec_encode(&CompactString, m.name)));
        assert(b1 =~= b0 + (field_encode(true, <CompactString as Codec<StrBytes>>::spec_encode(&CompactString, m.name))));
        <Int16 as Codec<i16>>::encode(&Int16, buf, &self.minimum_version)?;
        let ghost b2 = buf@;
        assert(b2 =~= b1 + field_encode(true, <Int16 as Codec<i16>>::spec_encode(&Int16, m.minimum_version)));
        assert(b2 =~= b0 + (field_encode(true, <CompactString as Codec<StrBytes>>::spec_encode(&CompactString, m.name)) + field_encode(true, <Int16 as Codec<i16>>::spec_encode(&Int16, m.minimum_version))));
        <Int16 as Codec<i16>>::encode(&Int16, buf, &self.maximum_version)?;
        let ghost b3 = buf@;
        assert(b3 =~= b2 + field_encode(true, <Int16 as Codec<i16>>::spec_encode(&Int16, m.maximum_version)));
        assert(b3 =~= b0 + (field_encode(true, <CompactString as Codec<StrBytes>>::spec_encode(&CompactString, m.name)) + field_encode(true, <Int16 as Codec<i16>>::spec_encode(&Int16, m.minimum_version)) + field_encode(true, <Int16 as Codec<i16>>::spec_encode(&Int16, m.maximum_version))));
        <Int8 as Codec<i8>>::encode(&Int8, buf, &self.reason)?;
        let ghost b4 = buf@;
        assert(b4 =~= b3 + field_encode(true, <Int8 as Codec<i8>>::spec_encode(&Int8, m.reason)));
        assert(b4 =~= b0 + (field_encode(true, <CompactString as Codec<StrBytes>>::spec_encode(&CompactString, m.name)) + field_encode(true, <Int16 as Codec<i16>>::spec_encode(&Int16, m.minimum_version)) + field_encode(true, <Int16 as Codec<i16>>::spec_encode(&Int16, m.maximum_version)) + field_encode(true, <Int8 as Codec<i8>>::spec_encode(&Int8, m.reason))));
        <Int16 as Codec<i16>>::encode(&Int16, buf, &self.metadata_version)?;
        let ghost b5 = buf@;
        assert(b5 =~= b4 + field_encode(true, <Int16 as Codec<i16>>::spec_encode(&Int16, m.metadata_version)));
        assert(b5 =~= b0 + (field_encode(true, <CompactString as Codec<StrBytes>>::spec_encode(&CompactString, m.name)) + field_encode(true, <Int16 as Codec<i16>>::spec_encode(&Int16, m.minimum_version)) + field_encode(true, <Int16 as Codec<i16>>::spec_encode(&Int16, m.maximum_version)) + field_encode(true, <Int8 as Codec<i8>>::spec_encode(&Int8, m.reason)) + field_encode(true, <Int16 as Codec<i16>>::spec_encode(&Int16, m.metadata_version))));
        <CompactBytes as Codec<Vec<u8>>>::encode(&CompactBytes, buf, &self.metadata_bytes)?;
        let ghost b6 = buf@;
        assert(b6 =~= b5 + field_encode(true, <CompactBytes as Codec<Vec<u8>>>::spec_encode(&CompactBytes, m.metadata_bytes)));
        assert(b6 =~= b0 + (field_encode(true, <CompactString as Codec<StrBytes>>::spec_encode(&CompactString, m.name)) + field_encode(true, <Int16 as Codec<i16>>::spec_encode(&Int16, m.minimum_version)) + field_encode(true, <Int16 as Codec<i16>>::spec_encode(&Int16, m.maximum_version)) + field_encode(true, <Int8 as Codec<i8>>::spec_encode(&Int8, m.reason)) + field_encode(true, <Int16 as Codec<i16>>::spec_encode(&Int16, m.metadata_version)) + field_encode(true, <CompactBytes as Codec<Vec<u8>>>::spec_encode(&CompactBytes, m.metadata_bytes))));
        <UnknownTaggedFields as Codec<Vec<RawTaggedField>>>::encode(&UnknownTaggedFields, buf, &self.unknown_tagged_fields)?;
        let ghost b7 = buf@;
        assert(b7 =~= b6 + field_encode(true, <UnknownTaggedFields as Codec<Vec<RawTaggedField>>>::spec_encode(&UnknownTaggedFields, m.unknown_tagged_fields)));
        assert(b7 =~= b0 + (field_encode(true, <CompactString as Codec<StrBytes>>::spec_encode(&CompactString, m.name)) + field_encode(true, <Int16 as Codec<i16>>::spec_encode(&Int16, m.minimum_version)) + field_encode(true, <Int16 as Codec<i16>>::spec_encode(&Int16, m.maximum_version)) + field_encode(true, <Int8 as Codec<i8>>::spec_encode(&Int8, m.reason)) + field_encode(true, <Int16 as Codec<i16>>::spec_encode(&Int16, m.metadata_version)) + field_encode(true, <CompactBytes as Codec<Vec<u8>>>::spec_encode(&CompactBytes, m.metadata_bytes)) + field_encode(true, <UnknownTaggedFields as Codec<Vec<RawTaggedField>>>::spec_encode(&UnknownTaggedFields, m.unknown_tagged_fields))));
        assert(buf@ =~= old(buf)@ + Self::spec_encode(m, version));
        Ok(())
    }

    #[verifier::rlimit(100)]
    fn compute_size(&self, version: i16) -> (r: Result<usize, EncodeError>) {
        let ghost m = self.deep_view();
        let mut total: usize = 0;
        let n = <CompactString as Codec<StrBytes>>::compute_size(&CompactString, &self.name)?;
        total = add_size(total, n)?;
        assert(total == (field_encode(true, <CompactString as Codec<StrBytes>>::spec_encode(&CompactString, m.name))).len());
        let n = <Int16 as Codec<i16>>::compute_size(&Int16, &self.minimum_version)?;
        total = add_size(total, n)?;
        assert(total == (field_encode(true, <CompactString as Codec<StrBytes>>::spec_encode(&CompactString, m.name)) + field_encode(true, <Int16 as Codec<i16>>::spec_encode(&Int16, m.minimum_version))).len());
        let n = <Int16 as Codec<i16>>::compute_size(&Int16, &self.maximum_version)?;
        total = add_size(total, n)?;
        assert(total == (field_encode(true, <CompactString as Codec<StrBytes>>::spec_encode(&CompactString, m.name)) + field_encode(true, <Int16 as Codec<i16>>::spec_encode(&Int16, m.minimum_version)) + field_encode(true, <Int16 as Codec<i16>>::spec_encode(&Int16, m.maximum_version))).len());
        let n = <Int8 as Codec<i8>>::compute_size(&Int8, &self.reason)?;
        total = add_size(total, n)?;
        assert(total == (field_encode(true, <CompactString as Codec<StrBytes>>::spec_encode(&CompactString, m.name)) + field_encode(true, <Int16 as Codec<i16>>::spec_encode(&Int16, m.minimum_version)) + field_encode(true, <Int16 as Codec<i16>>::spec_encode(&Int16, m.maximum_version)) + field_encode(true, <Int8 as Codec<i8>>::spec_encode(&Int8, m.reason))).len());
        let n = <Int16 as Codec<i16>>::compute_size(&Int16, &self.metadata_version)?;
        total = add_size(total, n)?;
        assert(total == (field_encode(true, <CompactString as Codec<StrBytes>>::spec_encode(&CompactString, m.name)) + field_encode(true, <Int16 as Codec<i16>>::spec_encode(&Int16, m.minimum_version)) + field_encode(true, <Int16 as Codec<i16>>::spec_encode(&Int16, m.maximum_version)) + field_encode(true, <Int8 as Codec<i8>>::spec_encode(&Int8, m.reason)) + field_encode(true, <Int16 as Codec<i16>>::spec_encode(&Int16, m.metadata_version))).len());
        let n = <CompactBytes as Codec<Vec<u8>>>::compute_size(&CompactBytes, &self.metadata_bytes)?;
        total = add_size(total, n)?;
        assert(total == (field_encode(true, <CompactString as Codec<StrBytes>>::spec_encode(&CompactString, m.name)) + field_encode(true, <Int16 as Codec<i16>>::spec_encode(&Int16, m.minimum_version)) + field_encode(true, <Int16 as Codec<i16>>::spec_encode(&Int16, m.maximum_version)) + field_encode(true, <Int8 as Codec<i8>>::spec_encode(&Int8, m.reason)) + field_encode(true, <Int16 as Codec<i16>>::spec_encode(&Int16, m.metadata_version)) + field_encode(true, <CompactBytes as Codec<Vec<u8>>>::spec_encode(&CompactBytes, m.metadata_bytes))).len());
        let n = <UnknownTaggedFields as Codec<Vec<RawTaggedField>>>::compute_size(&UnknownTaggedFields, &self.unknown_tagged_fields)?;
        total = add_size(total, n)?;
        assert(total == (field_encode(true, <CompactString as Codec<StrBytes>>::spec_encode(&CompactString, m.name)) + field_encode(true, <Int16 as Codec<i16>>::spec_encode(&Int16, m.minimum_version)) + field_encode(true, <Int16 as Codec<i16>>::spec_encode(&Int16, m.maximum_version)) + field_encode(true, <Int8 as Codec<i8>>::spec_encode(&Int8, m.reason)) + field_encode(true, <Int16 as Codec<i16>>::spec_encode(&Int16, m.metadata_version)) + field_encode(true, <CompactBytes as Codec<Vec<u8>>>::spec_encode(&CompactBytes, m.metadata_bytes)) + field_encode(true, <UnknownTaggedFields as Codec<Vec<RawTaggedField>>>::spec_encode(&UnknownTaggedFields, m.unknown_tagged_fields))).len());
        Ok(total)
    }

    #[verifier::rlimit(100)]
    #[verifier::spinoff_prover]
    fn decode(buf: &[u8], pos: usize, version: i16) -> (r: Result<(Assignor, usize), DecodeError>) {
        let ghost s = buf@.skip(pos as int);
        let at0 = pos;
        assert(s.skip(0) =~= s);
        proof { lemma_skip_skip(buf@, pos as int, at0 - pos); }
        let (name, at1) = <CompactString as Codec<StrBytes>>::decode(&CompactString, buf, at0)?;
        assert(field_decode(true, <CompactString as Codec<StrBytes>>::spec_decode(&CompactString, s.skip(at0 - pos)), Seq::<u8>::empty()) == Some((name.deep_view(), (at1 - at0) as nat)));
        proof { lemma_skip_skip(buf@, pos as int, at1 - pos); }
        let (minimum_version, at2) = <Int16 as Codec<i16>>::decode(&Int16, buf, at1)?;
        assert(field_decode(true, <Int16 as Codec<i16>>::spec_decode(&Int16, s.skip(at1 - pos)), 0i16) == Some((minimum_version.deep_view(), (at2 - at1) as nat)));
        proof { lemma_skip_skip(buf@, pos as int, at2 - pos); }
        let (maximum_version, at3) = <Int16 as Codec<i16>>::decode(&Int16, buf, at2)?;
        assert(field_decode(true, <Int16 as Codec<i16>>::spec_decode(&Int16, s.skip(at2 - pos)), 0i16) == Some((maximum_version.deep_view(), (at3 - at2) as nat)));
        proof { lemma_skip_skip(buf@, pos as int, at3 - pos); }
        let (reason, at4) = <Int8 as Codec<i8>>::decode(&Int8, buf, at3)?;
        assert(field_decode(true, <Int8 as Codec<i8>>::spec_decode(&Int8, s.skip(at3 - pos)), 0i8) == Some((reason.deep_view(), (at4 - at3) as nat)));
        proof { lemma_skip_skip(buf@, pos as int, at4 - pos); }
        let (metadata_version, at5) = <Int16 as Codec<i16>>::decode(&Int16, buf, at4)?;
        assert(field_decode(true, <Int16 as Codec<i16>>::spec_decode(&Int16, s.skip(at4 - pos)), 0i16) == Some((metadata_version.deep_view(), (at5 - at4) as nat)));
        proof { lemma_skip_skip(buf@, pos as int, at5 - pos); }
        let (metadata_bytes, at6) = <CompactBytes as Codec<Vec<u8>>>::decode(&CompactBytes, buf, at5)?;
        assert(field_decode(true, <CompactBytes as Codec<Vec<u8>>>::spec_decode(&CompactBytes, s.skip(at5 - pos)), Seq::<u8>::empty()) == Some((metadata_bytes.deep_view(), (at6 - at5) as nat)));
        proof { lemma_skip_skip(buf@, pos as int, at6 - pos); }
        let (unknown_tagged_fields, at7) = <UnknownTaggedFields as Codec<Vec<RawTaggedField>>>::decode(&UnknownTaggedFields, buf, at6)?;
        assert(field_decode(true, <UnknownTaggedFields as Codec<Vec<RawTaggedField>>>::spec_decode(&UnknownTaggedFields, s.skip(at6 - pos)), Seq::<(u32, Seq<u8>)>::empty()) == Some((unknown_tagged_fields.deep_view(), (at7 - at6) as nat)));
        let r = Assignor { name, minimum_version, maximum_version, reason, metadata_version, metadata_bytes, unknown_tagged_fields };
        proof {
            Self::lemma_decoded(s, version, r.deep_view(), (at1 - at0) as nat, (at2 - at1) as nat, (at3 - at2) as nat, (at4 - at3) as nat, (at5 - at4) as nat, (at6 - at5) as nat, (at7 - at6) as nat);
        }
        Ok((r, at7))
    }
}

impl Assignor {
    /// The decoded fields, read one after the other, make up the message.
    proof fn lemma_decoded(s: Seq<u8>, version: i16, m: AssignorModel, n0: nat, n1: nat, n2: nat, n3: nat, n4: nat, n5: nat, n6: nat)
        requires
            field_decode(true, <CompactString as Codec<StrBytes>>::spec_decode(&CompactString, s.skip(0)), Seq::<u8>::empty()) == Some((m.name, n0)),
            field_decode(true, <Int16 as Codec<i16>>::spec_decode(&Int16, s.skip((n0) as int)), 0i16) == Some((m.minimum_version, n1)),
            field_decode(true, <Int16 as Codec<i16>>::spec_decode(&Int16, s.skip((n0 + n1) as int)), 0i16) == Some((m.maximum_version, n2)),
            field_decode(true, <Int8 as Codec<i8>>::spec_decode(&Int8, s.skip((n0 + n1 + n2) as int)), 0i8) == Some((m.reason, n3)),
            field_decode(true, <Int16 as Codec<i16>>::spec_decode(&Int16, s.skip((n0 + n1 + n2 + n3) as int)), 0i16) == Some((m.metadata_version, n4)),
            field_decode(true, <CompactBytes as Codec<Vec<u8>>>::spec_decode(&CompactBytes, s.skip((n0 + n1 + n2 + n3 + n4) as int)), Seq::<u8>::empty()) == Some((m.metadata_bytes, n5)),
            field_decode(true, <UnknownTaggedFields as Codec<Vec<RawTaggedField>>>::spec_decode(&UnknownTaggedFields, s.skip((n0 + n1 + n2 + n3 + n4 + n5) as int)), Seq::<(u32, Seq<u8>)>::empty()) == Some((m.unknown_tagged_fields, n6)),
        ensures
            Self::spec_decode(s, version) == Some((m, (n0 + n1 + n2 + n3 + n4 + n5 + n6) as nat)),
    {
        assert(s.skip(0) =~= s);
    }

}

/// The partitions of one topic that the member owns. Valid versions: 0.
#[derive(Debug, Clone, PartialEq)]
pub struct TopicPartitions {
    /// The topic ID.
    ///
    /// On the wire at version 0.
    pub topic_id: Uuid,
    /// The partitions.
    ///
    /// On the wire at version 0.
    pub partitions: Vec<i32>,
    /// Tagged fields that the schema does not know, kept to be written back.
    pub unknown_tagged_fields: Vec<RawTaggedField>,
}

/// The value of a [`TopicPartitions`], field by field.
pub struct TopicPartitionsModel {
    pub topic_id: u128,
    pub partitions: Seq<i32>,
    pub unknown_tagged_fields: Seq<(u32, Seq<u8>)>,
}

impl DeepView for TopicPartitions {
    type V = TopicPartitionsModel;

    open spec fn deep_view(&self) -> TopicPartitionsModel {
        TopicPartitionsModel {
            topic_id: self.topic_id.deep_view(),
            partitions: self.partitions.deep_view(),
            unknown_tagged_fields: self.unknown_tagged_fields.deep_view(),
        }
    }
}

impl TopicPartitions {
    /// The value of every field when nothing else is said.
    pub open spec fn default_model() -> TopicPartitionsModel {
        TopicPartitionsModel {
            topic_id: 0u128,
            partitions: Seq::<i32>::empty(),
            unknown_tagged_fields: Seq::<(u32, Seq<u8>)>::empty(),
        }
    }
}

impl Default for TopicPartitions {
    fn default() -> (r: TopicPartitions)
        ensures
            r.deep_view() == TopicPartitions::default_model(),
    {
        let r = TopicPartitions {
            topic_id: Uuid(0),
            partitions: Vec::new(),
            unknown_tagged_fields: Vec::new(),
        };
        assert(r.partitions.deep_view() =~= Seq::<i32>::empty());
        assert(r.unknown_tagged_fields.deep_view() =~= Seq::<(u32, Seq<u8>)>::empty());
        r
    }
}

impl Message for TopicPartitions {
    open spec fn spec_valid(m: TopicPartitionsModel, version: i16) -> bool {
        &&& <types::Uuid as Codec<Uuid>>::valid(&types::Uuid, m.topic_id)
        &&& <CompactArray<Int32> as Codec<Vec<i32>>>::valid(&CompactArray(Int32), m.partitions)
        &&& <UnknownTaggedFields as Codec<Vec<RawTaggedField>>>::valid(&UnknownTaggedFields, m.unknown_tagged_fields)
    }

    open spec fn spec_encode(m: TopicPartitionsModel, version: i16) -> Seq<u8> {
        field_encode(true, <types::Uuid as Codec<Uuid>>::spec_encode(&types::Uuid, m.topic_id))
            + field_encode(true, <CompactArray<Int32> as Codec<Vec<i32>>>::spec_encode(&CompactArray(Int32), m.partitions))
            + field_encode(true, <UnknownTaggedFields as Codec<Vec<RawTaggedField>>>::spec_encode(&UnknownTaggedFields, m.unknown_tagged_fields))
    }

    open spec fn spec_decode(s: Seq<u8>, version: i16) -> Option<(TopicPartitionsModel, nat)> {
        match field_decode(true, <types::Uuid as Codec<Uuid>>::spec_decode(&types::Uuid, s), 0u128) {
            Some((v0, n0)) => 
            match field_decode(true, <CompactArray<Int32> as Codec<Vec<i32>>>::spec_decode(&CompactArray(Int32), s.skip((n0) as int)), Seq::<i32>::empty()) {
                Some((v1, n1)) => 
                match field_decode(true, <UnknownTaggedFields as Codec<Vec<RawTaggedField>>>::spec_decode(&UnknownTaggedFields, s.skip((n0 + n1) as int)), Seq::<(u32, Seq<u8>)>::empty()) {
                    Some((v2, n2)) => 
                    Some((TopicPartitionsModel { topic_id: v0, partitions: v1, unknown_tagged_fields: v2 }, (n0 + n1 + n2) as nat)),
                    None => None,
                },
                None => None,
            },
            None => None,
        }
    }

    #[verifier::rlimit(100)]
    proof fn lemma_decode_encode(m: TopicPartitionsModel, version: i16, rest: Seq<u8>) {
        let e0 = field_encode(true, <types::Uuid as Codec<Uuid>>::spec_encode(&types::Uuid, m.topic_id));
        let e1 = field_encode(true, <CompactArray<Int32> as Codec<Vec<i32>>>::spec_encode(&CompactArray(Int32), m.partitions));
        let e2 = field_encode(true, <UnknownTaggedFields as Codec<Vec<RawTaggedField>>>::spec_encode(&UnknownTaggedFields, m.unknown_tagged_fields));
        let t3 = rest;
        let t2 = e2 + t3;
        let t1 = e1 + t2;
        let t0 = e0 + t1;
        let s = Self::spec_encode(m, version) + rest;
        assert(s =~= t0);
        assert(s.skip(0) =~= s);
        lemma_field::<Uuid, types::Uuid>(types::Uuid, true, m.topic_id, 0u128, t1);
        lemma_skip_skip(s, (0) as int, e0.len() as int);
        assert(s.skip((e0.len()) as int) == t1);
        lemma_field::<Vec<i32>, CompactArray<Int32>>(CompactArray(Int32), true, m.partitions, Seq::<i32>::empty(), t2);
        lemma_skip_skip(s, (e0.len()) as int, e1.len() as int);
        assert(s.skip((e0.len() + e1.len()) as int) == t2);
        lemma_field::<Vec<RawTaggedField>, UnknownTaggedFields>(UnknownTaggedFields, true, m.unknown_tagged_fields, Seq::<(u32, Seq<u8>)>::empty(), t3);
    }

    #[verifier::rlimit(100)]
    #[verifier::spinoff_prover]
    fn encode(&self, buf: &mut Vec<u8>, version: i16) -> (r: Result<(), EncodeError>) {
        let ghost m = self.deep_view();
        let ghost b0 = buf@;
        <types::Uuid as Codec<Uuid>>::encode(&types::Uuid, buf, &self.topic_id)?;
        let ghost b1 = buf@;
        assert(b1 =~= b0 + field_encode(true, <types::Uuid as Codec<Uuid>>::spec_encode(&types::Uuid, m.topic_id)));
        assert(b1 =~= b0 + (field_encode(true, <types::Uuid as Codec<Uuid>>::spec_encode(&types::Uuid, m.topic_id))));
        <CompactArray<Int32> as Codec<Vec<i32>>>::encode(&CompactArray(Int32), buf, &self.partitions)?;
        let ghost b2 = buf@;
        assert(b2 =~= b1 + field_encode(true, <CompactArray<Int32> as Codec<Vec<i32>>>::spec_encode(&CompactArray(Int32), m.partitions)));
        assert(b2 =~= b0 + (field_encode(true, <types::Uuid as Codec<Uuid>>::spec_encode(&types::Uuid, m.topic_id)) + field_encode(true, <CompactArray<Int32> as Codec<Vec<i32>>>::spec_encode(&CompactArray(Int32), m.partitions))));
        <UnknownTaggedFields as Codec<Vec<RawTaggedField>>>::encode(&UnknownTaggedFields, buf, &self.unknown_tagged_fields)?;
        let ghost b3 = buf@;
        assert(b3 =~= b2 + field_encode(true, <UnknownTaggedFields as Codec<Vec<RawTaggedField>>>::spec_encode(&UnknownTaggedFields, m.unknown_tagged_fields)));
        assert(b3 =~= b0 + (field_encode(true, <types::Uuid as Codec<Uuid>>::spec_encode(&types::Uuid, m.topic_id)) + field_encode(true, <CompactArray<Int32> as Codec<Vec<i32>>>::spec_encode(&CompactArray(Int32), m.partitions)) + field_encode(true, <UnknownTaggedFields as Codec<Vec<RawTaggedField>>>::spec_encode(&UnknownTaggedFields, m.unknown_tagged_fields))));
        assert(buf@ =~= old(buf)@ + Self::spec_encode(m, version));
        Ok(())
    }

    #[verifier::rlimit(100)]
    fn compute_size(&self, version: i16) -> (r: Result<usize, EncodeError>) {
        let ghost m = self.deep_view();
        let mut total: usize = 0;
        let n = <types::Uuid as Codec<Uuid>>::compute_size(&types::Uuid, &self.topic_id)?;
        total = add_size(total, n)?;
        assert(total == (field_encode(true, <types::Uuid as Codec<Uuid>>::spec_encode(&types::Uuid, m.topic_id))).len());
        let n = <CompactArray<Int32> as Codec<Vec<i32>>>::compute_size(&CompactArray(Int32), &self.partitions)?;
        total = add_size(total, n)?;
        assert(total == (field_encode(true, <types::Uuid as Codec<Uuid>>::spec_encode(&types::Uuid, m.topic_id)) + field_encode(true, <CompactArray<Int32> as Codec<Vec<i32>>>::spec_encode(&CompactArray(Int32), m.partitions))).len());
        let n = <UnknownTaggedFields as Codec<Vec<RawTaggedField>>>::compute_size(&UnknownTaggedFields, &self.unknown_tagged_fields)?;
        total = add_size(total, n)?;
        assert(total == (field_encode(true, <types::Uuid as Codec<Uuid>>::spec_encode(&types::Uuid, m.topic_id)) + field_encode(true, <CompactArray<Int32> as Codec<Vec<i32>>>::spec_encode(&CompactArray(Int32), m.partitions)) + field_encode(true, <UnknownTaggedFields as Codec<Vec<RawTaggedField>>>::spec_encode(&UnknownTaggedFields, m.unknown_tagged_fields))).len());
        Ok(total)
    }

    #[verifier::rlimit(100)]
    #[verifier::spinoff_prover]
    fn decode(buf: &[u8], pos: usize, version: i16) -> (r: Result<(TopicPartitions, usize), DecodeError>) {
        let ghost s = buf@.skip(pos as int);
        let at0 = pos;
        assert(s.skip(0) =~= s);
        proof { lemma_skip_skip(buf@, pos as int, at0 - pos); }
        let (topic_id, at1) = <types::Uuid as Codec<Uuid>>::decode(&types::Uuid, buf, at0)?;
        assert(field_decode(true, <types::Uuid as Codec<Uuid>>::spec_decode(&types::Uuid, s.skip(at0 - pos)), 0u128) == Some((topic_id.deep_view(), (at1 - at0) as nat)));
        proof { lemma_skip_skip(buf@, pos as int, at1 - pos); }
        let (partitions, at2) = <CompactArray<Int32> as Codec<Vec<i32>>>::decode(&CompactArray(Int32), buf, at1)?;
        assert(field_decode(true, <CompactArray<Int32> as Codec<Vec<i32>>>::spec_decode(&CompactArray(Int32), s.skip(at1 - pos)), Seq::<i32>::empty()) == Some((partitions.deep_view(), (at2 - at1) as nat)));
        proof { lemma_skip_skip(buf@, pos as int, at2 - pos); }
        let (unknown_tagged_fields, at3) = <UnknownTaggedFields as Codec<Vec<RawTaggedField>>>::decode(&UnknownTaggedFields, buf, at2)?;
        assert(field_decode(true, <UnknownTaggedFields as Codec<Vec<RawTaggedField>>>::spec_decode(&UnknownTaggedFields, s.skip(at2 - pos)), Seq::<(u32, Seq<u8>)>::empty()) == Some((unknown_tagged_fields.deep_view(), (at3 - at2) as nat)));
        let r = TopicPartitions { topic_id, partitions, unknown_tagged_fields };
        Ok((r, at3))
    }
}

/// The heartbeat of a member of a consumer group. Valid versions: 0; flexible at every version.
#[derive(Debug, Clone, PartialEq)]
pub struct ConsumerGroupHeartbeatRequest {
    /// The group identifier.
    ///
    /// On the wire at version 0.
    pub group_id: GroupId,
    /// The member id generated by the coordinator. The member id must be kept during the entire lifetime of the member.
    ///
    /// On the wire at version 0.
    pub member_id: StrBytes,
    /// The current member epoch; 0 to join the group; -1 to leave the group; -2 to indicate that the static member will rejoin.
    ///
    /// On the wire at version 0.
    pub member_epoch: i32,
    /// null if not provided or if it didn't change since the last heartbeat; the instance Id otherwise.
    ///
    /// On the wire at version 0.
    pub instance_id: Option<StrBytes>,
    /// null if not provided or if it didn't change since the last heartbeat; the rack ID of consumer otherwise.
    ///
    /// On the wire at version 0.
    pub rack_id: Option<StrBytes>,
    /// -1 if it didn't chance since the last heartbeat; the maximum time in milliseconds that the coordinator will wait on the member to revoke its partitions otherwise.
    ///
    /// On the wire at version 0.
    pub rebalance_timeout_ms: i32,
    /// null if it didn't change since the last heartbeat; the subscribed topic names otherwise.
    ///
    /// On the wire at version 0.
    pub subscribed_topic_names: Option<Vec<TopicName>>,
    /// null if it didn't change since the last heartbeat; the subscribed topic regex otherwise
    ///
    /// On the wire at version 0.
    pub subscribed_topic_regex: Option<StrBytes>,
    /// null if not used or if it didn't change since the last heartbeat; the server side assignor to use otherwise.
    ///
    /// On the wire at version 0.
    pub server_assignor: Option<StrBytes>,
    /// null if not used or if it didn't change since the last heartbeat; the list of client-side assignors otherwise.
    ///
    /// On the wire at version 0.
    pub client_assignors: Option<Vec<Assignor>>,
    /// null if it didn't change since the last heartbeat; the partitions owned by the member.
    ///
    /// On the wire at version 0.
    pub topic_partitions: Option<Vec<TopicPartitions>>,
    /// Tagged fields that the schema does not know, kept to be written back.
    pub unknown_tagged_fields: Vec<RawTaggedField>,
}

/// The value of a [`ConsumerGroupHeartbeatRequest`], field by field.
pub struct ConsumerGroupHeartbeatRequestModel {
    pub group_id: Seq<u8>,
    pub member_id: Seq<u8>,
    pub member_epoch: i32,
    pub instance_id: Option<Seq<u8>>,
    pub rack_id: Option<Seq<u8>>,
    pub rebalance_timeout_ms: i32,
    pub subscribed_topic_names: Option<Seq<Seq<u8>>>,
    pub subscribed_topic_regex: Option<Seq<u8>>,
    pub server_assignor: Option<Seq<u8>>,
    pub client_assignors: Option<Seq<AssignorModel>>,
    pub topic_partitions: Option<Seq<TopicPartitionsModel>>,
    pub unknown_tagged_fields: Seq<(u32, Seq<u8>)>,
}

impl DeepView for ConsumerGroupHeartbeatRequest {
    type V = ConsumerGroupHeartbeatRequestModel;

    open spec fn deep_view(&self) -> ConsumerGroupHeartbeatRequestModel {
        ConsumerGroupHeartbeatRequestModel {
            group_id: self.group_id.deep_view(),
            member_id: self.member_id.deep_view(),
            member_epoch: self.member_epoch.deep_view(),
            instance_id: self.instance_id.deep_view(),
            rack_id: self.rack_id.deep_view(),
            rebalance_timeout_ms: self.rebalance_timeout_ms.deep_view(),
            subscribed_topic_names: self.subscribed_topic_names.deep_view(),
            subscribed_topic_regex: self.subscribed_topic_regex.deep_view(),
            server_assignor: self.server_assignor.deep_view(),
            client_assignors: self.client_assignors.deep_view(),
            topic_partitions: self.topic_partitions.deep_view(),
            unknown_tagged_fields: self.unknown_tagged_fields.deep_view(),
        }
    }
}

impl ConsumerGroupHeartbeatRequest {
    /// The value of every field when nothing else is said.
    pub open spec fn default_model() -> ConsumerGroupHeartbeatRequestModel {
        ConsumerGroupHeartbeatRequestModel {
            group_id: Seq::<u8>::empty(),
            member_id: Seq::<u8>::empty(),
            member_epoch: 0i32,
            instance_id: None::<Seq<u8>>,
            rack_id: None::<Seq<u8>>,
            rebalance_timeout_ms: -1i32,
            subscribed_topic_names: None::<Seq<Seq<u8>>>,
            subscribed_topic_regex: None::<Seq<u8>>,
            server_assignor: None::<Seq<u8>>,
            client_assignors: None::<Seq<AssignorModel>>,
            topic_partitions: None::<Seq<TopicPartitionsModel>>,
            unknown_tagged_fields: Seq::<(u32, Seq<u8>)>::empty(),
        }
    }

    /// The version of the header that frames this message at `version`:
    /// 2 from the flexible version 0 on, 1 before it.
    pub open spec fn spec_header_version(version: i16) -> i16 {
        if version >= 0 {
            2
        } else {
            1
        }
    }

    /// The version of the header that frames this message at `version`.
    pub fn header_version(version: i16) -> (r: i16)
        ensures
            r == Self::spec_header_version(version),
    {
        if version >= 0 {
            2
        } else {
            1
        }
    }
}

impl Default for ConsumerGroupHeartbeatRequest {
    fn default() -> (r: ConsumerGroupHeartbeatRequest)
        ensures
            r.deep_view() == ConsumerGroupHeartbeatRequest::default_model(),
    {
        let r = ConsumerGroupHeartbeatRequest {
            group_id: GroupId(StrBytes::default()),
            member_id: StrBytes::default(),
            member_epoch: 0i32,
            instance_id: None,
            rack_id: None,
            rebalance_timeout_ms: -1i32,
            subscribed_topic_names: None,
            subscribed_topic_regex: None,
            server_assignor: None,
            client_assignors: None,
            topic_partitions: None,
            unknown_tagged_fields: Vec::new(),
        };
        assert(r.unknown_tagged_fields.deep_view() =~= Seq::<(u32, Seq<u8>)>::empty());
        r
    }
}

impl Message for ConsumerGroupHeartbeatRequest {
    open spec fn spec_valid(m: ConsumerGroupHeartbeatRequestModel, version: i16) -> bool {
        &&& <CompactString as Codec<GroupId>>::valid(&CompactString, m.group_id)
        &&& <CompactString as Codec<StrBytes>>::valid(&CompactString, m.member_id)
        &&& <Int32 as Codec<i32>>::valid(&Int32, m.member_epoch)
        &&& <CompactString as Codec<Option<StrBytes>>>::valid(&CompactString, m.instance_id)
        &&& <CompactString as Codec<Option<StrBytes>>>::valid(&CompactString, m.rack_id)
        &&& <Int32 as Codec<i32>>::valid(&Int32, m.rebalance_timeout_ms)
        &&& <CompactArray<CompactString> as Codec<Option<Vec<TopicName>>>>::valid(&CompactArray(CompactString), m.subscribed_topic_names)
        &&& <CompactString as Codec<Option<StrBytes>>>::valid(&CompactString, m.subscribed_topic_regex)
        &&& <CompactString as Codec<Option<StrBytes>>>::valid(&CompactString, m.server_assignor)
        &&& <CompactArray<Struct> as Codec<Option<Vec<Assignor>>>>::valid(&CompactArray(Struct { version }), m.client_assignors)
        &&& <CompactArray<Struct> as Codec<Option<Vec<TopicPartitions>>>>::valid(&CompactArray(Struct { version }), m.topic_partitions)
        &&& <UnknownTaggedFields as Codec<Vec<RawTaggedField>>>::valid(&UnknownTaggedFields, m.unknown_tagged_fields)
    }

    open spec fn spec_encode(m: ConsumerGroupHeartbeatRequestModel, version: i16) -> Seq<u8> {
        field_encode(true, <CompactString as Codec<GroupId>>::spec_encode(&CompactString, m.group_id))
            + field_encode(true, <CompactString as Codec<StrBytes>>::spec_encode(&CompactString, m.member_id))
            + field_encode(true, <Int32 as Codec<i32>>::spec_encode(&Int32, m.member_epoch))
            + field_encode(true, <CompactString as Codec<Option<StrBytes>>>::spec_encode(&CompactString, m.instance_id))
            + field_encode(true, <CompactString as Codec<Option<StrBytes>>>::spec_encode(&CompactString, m.rack_id))
            + field_encode(true, <Int32 as Codec<i32>>::spec_encode(&Int32, m.rebalance_timeout_ms))
            + field_encode(true, <CompactArray<CompactString> as Codec<Option<Vec<TopicName>>>>::spec_encode(&CompactArray(CompactString), m.subscribed_topic_names))
            + field_encode(true, <CompactString as Codec<Option<StrBytes>>>::spec_encode(&CompactString, m.subscribed_topic_regex))
            + field_encode(true, <CompactString as Codec<Option<StrBytes>>>::spec_encode(&CompactString, m.server_assignor))
            + field_encode(true, <CompactArray<Struct> as Codec<Option<Vec<Assignor>>>>::spec_encode(&CompactArray(Struct { version }), m.client_assignors))
            + field_encode(true, <CompactArray<Struct> as Codec<Option<Vec<TopicPartitions>>>>::spec_encode(&CompactArray(Struct { version }), m.topic_partitions))
            + field_encode(true, <UnknownTaggedFields as Codec<Vec<RawTaggedField>>>::spec_encode(&UnknownTaggedFields, m.unknown_tagged_fields))
    }

    open spec fn spec_decode(s: Seq<u8>, version: i16) -> Option<(ConsumerGroupHeartbeatRequestModel, nat)> {
        match field_decode(true, <CompactString as Codec<GroupId>>::spec_decode(&CompactString, s), Seq::<u8>::empty()) {
            Some((v0, n0)) => 
            match field_decode(true, <CompactString as Codec<StrBytes>>::spec_decode(&CompactString, s.skip((n0) as int)), Seq::<u8>::empty()) {
                Some((v1, n1)) => 
                match field_decode(true, <Int32 as Codec<i32>>::spec_decode(&Int32, s.skip((n0 + n1) as int)), 0i32) {
                    Some((v2, n2)) => 
                    match field_decode(true, <CompactString as Codec<Option<StrBytes>>>::spec_decode(&CompactString, s.skip((n0 + n1 + n2) as int)), None::<Seq<u8>>) {
                        Some((v3, n3)) => 
                        match field_decode(true, <CompactString as Codec<Option<StrBytes>>>::spec_decode(&CompactString, s.skip((n0 + n1 + n2 + n3) as int)), None::<Seq<u8>>) {
                            Some((v4, n4)) => 
                            match field_decode(true, <Int32 as Codec<i32>>::spec_decode(&Int32, s.skip((n0 + n1 + n2 + n3 + n4) as int)), -1i32) {
                                Some((v5, n5)) => 
                                match field_decode(true, <CompactArray<CompactString> as Codec<Option<Vec<TopicName>>>>::spec_decode(&CompactArray(CompactString), s.skip((n0 + n1 + n2 + n3 + n4 + n5) as int)), None::<Seq<Seq<u8>>>) {
                                    Some((v6, n6)) => 
                                    match field_decode(true, <CompactString as Codec<Option<StrBytes>>>::spec_decode(&CompactString, s.skip((n0 + n1 + n2 + n3 + n4 + n5 + n6) as int)), None::<Seq<u8>>) {
                                        Some((v7, n7)) => 
                                        match field_decode(true, <CompactString as Codec<Option<StrBytes>>>::spec_decode(&CompactString, s.skip((n0 + n1 + n2 + n3 + n4 + n5 + n6 + n7) as int)), None::<Seq<u8>>) {
                                            Some((v8, n8)) => 
                                            match field_decode(true, <CompactArray<Struct> as Codec<Option<Vec<Assignor>>>>::spec_decode(&CompactArray(Struct { version }), s.skip((n0 + n1 + n2 + n3 + n4 + n5 + n6 + n7 + n8) as int)), None::<Seq<AssignorModel>>) {
                                                Some((v9, n9)) => 
                                                match field_decode(true, <CompactArray<Struct> as Codec<Option<Vec<TopicPartitions>>>>::spec_decode(&CompactArray(Struct { version }), s.skip((n0 + n1 + n2 + n3 + n4 + n5 + n6 + n7 + n8 + n9) as int)), None::<Seq<TopicPartitionsModel>>) {
                                                    Some((v10, n10)) => 
                                                    match field_decode(true, <UnknownTaggedFields as Codec<Vec<RawTaggedField>>>::spec_decode(&UnknownTaggedFields, s.skip((n0 + n1 + n2 + n3 + n4 + n5 + n6 + n7 + n8 + n9 + n10) as int)), Seq::<(u32, Seq<u8>)>::empty()) {
                                                        Some((v11, n11)) => 
                                                        Some((ConsumerGroupHeartbeatRequestModel { group_id: v0, member_id: v1, member_epoch: v2, instance_id: v3, rack_id: v4, rebalance_timeout_ms: v5, subscribed_topic_names: v6, subscribed_topic_regex: v7, server_assignor: v8, client_assignors: v9, topic_partitions: v10, unknown_tagged_fields: v11 }, (n0 + n1 + n2 + n3 + n4 + n5 + n6 + n7 + n8 + n9 + n10 + n11) as nat)),
                                                        None => None,
                                                    },
                                                    None => None,
                                                },
                                                None => None,
                                            },
                                            None => None,
                                        },
                                        None => None,
                                    },
                                    None => None,
                                },
                                None => None,
                            },
                            None => None,
                        },
                        None => None,
                    },
                    None => None,
                },
                None => None,
            },
            None => None,
        }
    }

    #[verifier::rlimit(100)]
    proof fn lemma_decode_encode(m: ConsumerGroupHeartbeatRequestModel, version: i16, rest: Seq<u8>) {
        let e0 = field_encode(true, <CompactString as Codec<GroupId>>::spec_encode(&CompactString, m.group_id));
        let e1 = field_encode(true, <CompactString as Codec<StrBytes>>::spec_encode(&CompactString, m.member_id));
        let e2 = field_encode(true, <Int32 as Codec<i32>>::spec_encode(&Int32, m.member_epoch));
        let e3 = field_encode(true, <CompactString as Codec<Option<StrBytes>>>::spec_encode(&CompactString, m.instance_id));
        let e4 = field_encode(true, <CompactString as Codec<Option<StrBytes>>>::spec_encode(&CompactString, m.rack_id));
        let e5 = field_encode(true, <Int32 as Codec<i32>>::spec_encode(&Int32, m.rebalance_timeout_ms));
        let e6 = field_encode(true, <CompactArray<CompactString> as Codec<Option<Vec<TopicName>>>>::spec_encode(&CompactArray(CompactString), m.subscribed_topic_names));
        let e7 = field_encode(true, <CompactString as Codec<Option<StrBytes>>>::spec_encode(&CompactString, m.subscribed_topic_regex));
        let e8 = field_encode(true, <CompactString as Codec<Option<StrBytes>>>::spec_encode(&CompactString, m.server_assignor));
        let e9 = field_encode(true, <CompactArray<Struct> as Codec<Option<Vec<Assignor>>>>::spec_encode(&CompactArray(Struct { version }), m.client_assignors));
        let e10 = field_encode(true, <CompactArray<Struct> as Codec<Option<Vec<TopicPartitions>>>>::spec_encode(&CompactArray(Struct { version }), m.topic_partitions));
        let e11 = field_encode(true, <UnknownTaggedFields as Codec<Vec<RawTaggedField>>>::spec_encode(&UnknownTaggedFields, m.unknown_tagged_fields));
        let t12 = rest;
        let t11 = e11 + t12;
        let t10 = e10 + t11;
        let t9 = e9 + t10;
        let t8 = e8 + t9;
        let t7 = e7 + t8;
        let t6 = e6 + t7;
        let t5 = e5 + t6;
        let t4 = e4 + t5;
        let t3 = e3 + t4;
        let t2 = e2 + t3;
        let t1 = e1 + t2;
        let t0 = e0 + t1;
        let s = Self::spec_encode(m, version) + rest;
        assert(s =~= t0);
        assert(s.skip(0) =~= s);
        lemma_field::<GroupId, CompactString>(CompactString, true, m.group_id, Seq::<u8>::empty(), t1);
        lemma_skip_skip(s, (0) as int, e0.len() as int);
        assert(s.skip((e0.len()) as int) == t1);
        lemma_field::<StrBytes, CompactString>(CompactString, true, m.member_id, Seq::<u8>::empty(), t2);
        lemma_skip_skip(s, (e0.len()) as int, e1.len() as int);
        assert(s.skip((e0.len() + e1.len()) as int) == t2);
        lemma_field::<i32, Int32>(Int32, true, m.member_epoch, 0i32, t3);
        lemma_skip_skip(s, (e0.len() + e1.len()) as int, e2.len() as int);
        assert(s.skip((e0.len() + e1.len() + e2.len()) as int) == t3);
        lemma_field::<Option<StrBytes>, CompactString>(CompactString, true, m.instance_id, None::<Seq<u8>>, t4);
        lemma_skip_skip(s, (e0.len() + e1.len() + e2.len()) as int, e3.len() as int);
        assert(s.skip((e0.len() + e1.len() + e2.len() + e3.len()) as int) == t4);
        lemma_field::<Option<StrBytes>, CompactString>(CompactString, true, m.rack_id, None::<Seq<u8>>, t5);
        lemma_skip_skip(s, (e0.len() + e1.len() + e2.len() + e3.len()) as int, e4.len() as int);
        assert(s.skip((e0.len() + e1.len() + e2.len() + e3.len() + e4.len()) as int) == t5);
        lemma_field::<i32, Int32>(Int32, true, m.rebalance_timeout_ms, -1i32, t6);
        lemma_skip_skip(s, (e0.len() + e1.len() + e2.len() + e3.len() + e4.len()) as int, e5.len() as int);
        assert(s.skip((e0.len() + e1.len() + e2.len() + e3.len() + e4.len() + e5.len()) as int) == t6);
        lemma_field::<Option<Vec<TopicName>>, CompactArray<CompactString>>(CompactArray(CompactString), true, m.subscribed_topic_names, None::<Seq<Seq<u8>>>, t7);
        lemma_skip_skip(s, (e0.len() + e1.len() + e2.len() + e3.len() + e4.len() + e5.len()) as int, e6.len() as int);
        assert(s.skip((e0.len() + e1.len() + e2.len() + e3.len() + e4.len() + e5.len() + e6.len()) as int) == t7);
        lemma_field::<Option<StrBytes>, CompactString>(CompactString, true, m.subscribed_topic_regex, None::<Seq<u8>>, t8);
        lemma_skip_skip(s, (e0.len() + e1.len() + e2.len() + e3.len() + e4.len() + e5.len() + e6.len()) as int, e7.len() as int);
        assert(s.skip((e0.len() + e1.len() + e2.len() + e3.len() + e4.len() + e5.len() + e6.len() + e7.len()) as int) == t8);
        lemma_field::<Option<StrBytes>, CompactString>(CompactString, true, m.server_assignor, None::<Seq<u8>>, t9);
        lemma_skip_skip(s, (e0.len() + e1.len() + e2.len() + e3.len() + e4.len() + e5.len() + e6.len() + e7.len()) as int, e8.len() as int);
        assert(s.skip((e0.len() + e1.len() + e2.len() + e3.len() + e4.len() + e5.len() + e6.len() + e7.len() + e8.len()) as int) == t9);
        lemma_field::<Option<Vec<Assignor>>, CompactArray<Struct>>(CompactArray(Struct { version }), true, m.client_assignors, None::<Seq<AssignorModel>>, t10);
        lemma_skip_skip(s, (e0.len() + e1.len() + e2.len() + e3.len() + e4.len() + e5.len() + e6.len() + e7.len() + e8.len()) as int, e9.len() as int);
        assert(s.skip((e0.len() + e1.len() + e2.len() + e3.len() + e4.len() + e5.len() + e6.len() + e7.len() + e8.len() + e9.len()) as int) == t10);
        lemma_field::<Option<Vec<TopicPartitions>>, CompactArray<Struct>>(CompactArray(Struct { version }), true, m.topic_partitions, None::<Seq<TopicPartitionsModel>>, t11);
        lemma_skip_skip(s, (e0.len() + e1.len() + e2.len() + e3.len() + e4.len() + e5.len() + e6.len() + e7.len() + e8.len() + e9.len()) as int, e10.len() as int);
        assert(s.skip((e0.len() + e1.len() + e2.len() + e3.len() + e4.len() + e5.len() + e6.len() + e7.len() + e8.len() + e9.len() + e10.len()) as int) == t11);
        lemma_field::<Vec<RawTaggedField>, UnknownTaggedFields>(UnknownTaggedFields, true, m.unknown_tagged_fields, Seq::<(u32, Seq<u8>)>::empty(), t12);
    }

    #[verifier::rlimit(100)]
    #[verifier::spinoff_prover]
    fn encode(&self, buf: &mut Vec<u8>, version: i16) -> (r: Result<(), EncodeError>) {
        let ghost m = self.deep_view();
        let ghost b0 = buf@;
        <CompactString as Codec<GroupId>>::encode(&CompactString, buf, &self.group_id)?;
        let ghost b1 = buf@;
        assert(b1 =~= b0 + field_encode(true, <CompactString as Codec<GroupId>>::spec_encode(&CompactString, m.group_id)));
        assert(b1 =~= b0 + (field_encode(true, <CompactString as Codec<GroupId>>::spec_encode(&CompactString, m.group_id))));
        <CompactString as Codec<StrBytes>>::encode(&CompactString, buf, &self.member_id)?;
        let ghost b2 = buf@;
        assert(b2 =~= b1 + field_encode(true, <CompactString as Codec<StrBytes>>::spec_encode(&CompactString, m.member_id)));
        assert(b2 =~= b0 + (field_encode(true, <CompactString as Codec<GroupId>>::spec_encode(&CompactString, m.group_id)) + field_encode(true, <CompactString as Codec<StrBytes>>::spec_encode(&CompactString, m.member_id))));
        <Int32 as Codec<i32>>::encode(&Int32, buf, &self.member_epoch)?;
        let ghost b3 = buf@;
        assert(b3 =~= b2 + field_encode(true, <Int32 as Codec<i32>>::spec_encode(&Int32, m.member_epoch)));
        assert(b3 =~= b0 + (field_encode(true, <CompactString as Codec<GroupId>>::spec_encode(&CompactString, m.group_id)) + field_encode(true, <CompactString as Codec<StrBytes>>::spec_encode(&CompactString, m.member_id)) + field_encode(true, <Int32 as Codec<i32>>::spec_encode(&Int32, m.member_epoch))));
        <CompactString as Codec<Option<StrBytes>>>::encode(&CompactString, buf, &self.instance_id)?;
        let ghost b4 = buf@;
        assert(b4 =~= b3 + field_encode(true, <CompactString as Codec<Option<StrBytes>>>::spec_encode(&CompactString, m.instance_id)));
        assert(b4 =~= b0 + (field_encode(true, <CompactString as Codec<GroupId>>::spec_encode(&CompactString, m.group_id)) + field_encode(true, <CompactString as Codec<StrBytes>>::spec_encode(&CompactString, m.member_id)) + field_encode(true, <Int32 as Codec<i32>>::spec_encode(&Int32, m.member_epoch)) + field_encode(true, <CompactString as Codec<Option<StrBytes>>>::spec_encode(&CompactString, m.instance_id))));
        <CompactString as Codec<Option<StrBytes>>>::encode(&CompactString, buf, &self.rack_id)?;
        let ghost b5 = buf@;
        assert(b5 =~= b4 + field_encode(true, <CompactString as Codec<Option<StrBytes>>>::spec_encode(&CompactString, m.rack_id)));
        assert(b5 =~= b0 + (field_encode(true, <CompactString as Codec<GroupId>>::spec_encode(&CompactString, m.group_id)) + field_encode(true, <CompactString as Codec<StrBytes>>::spec_encode(&CompactString, m.member_id)) + field_encode(true, <Int32 as Codec<i32>>::spec_encode(&Int32, m.member_epoch)) + field_encode(true, <CompactString as Codec<Option<StrBytes>>>::spec_encode(&CompactString, m.instance_id)) + field_encode(true, <CompactString as Codec<Option<StrBytes>>>::spec_encode(&CompactString, m.rack_id))));
        <Int32 as Codec<i32>>::encode(&Int32, buf, &self.rebalance_timeout_ms)?;
        let ghost b6 = buf@;
        assert(b6 =~= b5 + field_encode(true, <Int32 as Codec<i32>>::spec_encode(&Int32, m.rebalance_timeout_ms)));
        assert(b6 =~= b0 + (field_encode(true, <CompactString as Codec<GroupId>>::spec_encode(&CompactString, m.group_id)) + field_encode(true, <CompactString as Codec<StrBytes>>::spec_encode(&CompactString, m.member_id)) + field_encode(true, <Int32 as Codec<i32>>::spec_encode(&Int32, m.member_epoch)) + field_encode(true, <CompactString as Codec<Option<StrBytes>>>::spec_encode(&CompactString, m.instance_id)) + field_encode(true, <CompactString as Codec<Option<StrBytes>>>::spec_encode(&CompactString, m.rack_id)) + field_encode(true, <Int32 as Codec<i32>>::spec_encode(&Int32, m.rebalance_timeout_ms))));
        <CompactArray<CompactString> as Codec<Option<Vec<TopicName>>>>::encode(&CompactArray(CompactString), buf, &self.subscribed_topic_names)?;
        let ghost b7 = buf@;
        assert(b7 =~= b6 + field_encode(true, <CompactArray<CompactString> as Codec<Option<Vec<TopicName>>>>::spec_encode(&CompactArray(CompactString), m.subscribed_topic_names)));
        assert(b7 =~= b0 + (field_encode(true, <CompactString as Codec<GroupId>>::spec_encode(&CompactString, m.group_id)) + field_encode(true, <CompactString as Codec<StrBytes>>::spec_encode(&CompactString, m.member_id)) + field_encode(true, <Int32 as Codec<i32>>::spec_encode(&Int32, m.member_epoch)) + field_encode(true, <CompactString as Codec<Option<StrBytes>>>::spec_encode(&CompactString, m.instance_id)) + field_encode(true, <CompactString as Codec<Option<StrBytes>>>::spec_encode(&CompactString, m.rack_id)) + field_encode(true, <Int32 as Codec<i32>>::spec_encode(&Int32, m.rebalance_timeout_ms)) + field_encode(true, <CompactArray<CompactString> as Codec<Option<Vec<TopicName>>>>::spec_encode(&CompactArray(CompactString), m.subscribed_topic_names))));
        <CompactString as Codec<Option<StrBytes>>>::encode(&CompactString, buf, &self.subscribed_topic_regex)?;
        let ghost b8 = buf@;
        assert(b8 =~= b7 + field_encode(true, <CompactString as Codec<Option<StrBytes>>>::spec_encode(&CompactString, m.subscribed_topic_regex)));
        assert(b8 =~= b0 + (field_encode(true, <CompactString as Codec<GroupId>>::spec_encode(&CompactString, m.group_id)) + field_encode(true, <CompactString as Codec<StrBytes>>::spec_encode(&CompactString, m.member_id)) + field_encode(true, <Int32 as Codec<i32>>::spec_encode(&Int32, m.member_epoch)) + field_encode(true, <CompactString as Codec<Option<StrBytes>>>::spec_encode(&CompactString, m.instance_id)) + field_encode(true, <CompactString as Codec<Option<StrBytes>>>::spec_encode(&CompactString, m.rack_id)) + field_encode(true, <Int32 as Codec<i32>>::spec_encode(&Int32, m.rebalance_timeout_ms)) + field_encode(true, <CompactArray<CompactString> as Codec<Option<Vec<TopicName>>>>::spec_encode(&CompactArray(CompactString), m.subscribed_topic_names)) + field_encode(true, <CompactString as Codec<Option<StrBytes>>>::spec_encode(&CompactString, m.subscribed_topic_regex))));
        <CompactString as Codec<Option<StrBytes>>>::encode(&CompactString, buf, &self.server_assignor)?;
        let ghost b9 = buf@;
        assert(b9 =~= b8 + field_encode(true, <CompactString as Codec<Option<StrBytes>>>::spec_encode(&CompactString, m.server_assignor)));
        assert(b9 =~= b0 + (field_encode(true, <CompactString as Codec<GroupId>>::spec_encode(&CompactString, m.group_id)) + field_encode(true, <CompactString as Codec<StrBytes>>::spec_encode(&CompactString, m.member_id)) + field_encode(true, <Int32 as Codec<i32>>::spec_encode(&Int32, m.member_epoch)) + field_encode(true, <CompactString as Codec<Option<StrBytes>>>::spec_encode(&CompactString, m.instance_id)) + field_encode(true, <CompactString as Codec<Option<StrBytes>>>::spec_encode(&CompactString, m.rack_id)) + field_encode(true, <Int32 as Codec<i32>>::spec_encode(&Int32, m.rebalance_timeout_ms)) + field_encode(true, <CompactArray<CompactString> as Codec<Option<Vec<TopicName>>>>::spec_encode(&CompactArray(CompactString), m.subscribed_topic_names)) + field_encode(true, <CompactString as Codec<Option<StrBytes>>>::spec_encode(&CompactString, m.subscribed_topic_regex)) + field_encode(true, <CompactString as Codec<Option<StrBytes>>>::spec_encode(&CompactString, m.server_assignor))));
        <CompactArray<Struct> as Codec<Option<Vec<Assignor>>>>::encode(&CompactArray(Struct { version }), buf, &self.client_assignors)?;
        let ghost b10 = buf@;
        assert(b10 =~= b9 + field_encode(true, <CompactArray<Struct> as Codec<Option<Vec<Assignor>>>>::spec_encode(&CompactArray(Struct { version }), m.client_assignors)));
        assert(b10 =~= b0 + (field_encode(true, <CompactString as Codec<GroupId>>::spec_encode(&CompactString, m.group_id)) + field_encode(true, <CompactString as Codec<StrBytes>>::spec_encode(&CompactString, m.member_id)) + field_encode(true, <Int32 as Codec<i32>>::spec_encode(&Int32, m.member_epoch)) + field_encode(true, <CompactString as Codec<Option<StrBytes>>>::spec_encode(&CompactString, m.instance_id)) + field_encode(true, <CompactString as Codec<Option<StrBytes>>>::spec_encode(&CompactString, m.rack_id)) + field_encode(true, <Int32 as Codec<i32>>::spec_encode(&Int32, m.rebalance_timeout_ms)) + field_encode(true, <CompactArray<CompactString> as Codec<Option<Vec<TopicName>>>>::spec_encode(&CompactArray(CompactString), m.subscribed_topic_names)) + field_encode(true, <CompactString as Codec<Option<StrBytes>>>::spec_encode(&CompactString, m.subscribed_topic_regex)) + field_encode(true, <CompactString as Codec<Option<StrBytes>>>::spec_encode(&CompactString, m.server_assignor)) + field_encode(true, <CompactArray<Struct> as Codec<Option<Vec<Assignor>>>>::spec_encode(&CompactArray(Struct { version }), m.client_assignors))));
        <CompactArray<Struct> as Codec<Option<Vec<TopicPartitions>>>>::encode(&CompactArray(Struct { version }), buf, &self.topic_partitions)?;
        let ghost b11 = buf@;
        assert(b11 =~= b10 + field_encode(true, <CompactArray<Struct> as Codec<Option<Vec<TopicPartitions>>>>::spec_encode(&CompactArray(Struct { version }), m.topic_partitions)));
        assert(b11 =~= b0 + (field_encode(true, <CompactString as Codec<GroupId>>::spec_encode(&CompactString, m.group_id)) + field_encode(true, <CompactString as Codec<StrBytes>>::spec_encode(&CompactString, m.member_id)) + field_encode(true, <Int32 as Codec<i32>>::spec_encode(&Int32, m.member_epoch)) + field_encode(true, <CompactString as Codec<Option<StrBytes>>>::spec_encode(&CompactString, m.instance_id)) + field_encode(true, <CompactString as Codec<Option<StrBytes>>>::spec_encode(&CompactString, m.rack_id)) + field_encode(true, <Int32 as Codec<i32>>::spec_encode(&Int32, m.rebalance_timeout_ms)) + field_encode(true, <CompactArray<CompactString> as Codec<Option<Vec<TopicName>>>>::spec_encode(&CompactArray(CompactString), m.subscribed_topic_names)) + field_encode(true, <CompactString as Codec<Option<StrBytes>>>::spec_encode(&CompactString, m.subscribed_topic_regex)) + field_encode(true, <CompactString as Codec<Option<StrBytes>>>::spec_encode(&CompactString, m.server_assignor)) + field_encode(true, <CompactArray<Struct> as Codec<Option<Vec<Assignor>>>>::spec_encode(&CompactArray(Struct { version }), m.client_assignors)) + field_encode(true, <CompactArray<Struct> as Codec<Option<Vec<TopicPartitions>>>>::spec_encode(&CompactArray(Struct { version }), m.topic_partitions))));
        <UnknownTaggedFields as Codec<Vec<RawTaggedField>>>::encode(&UnknownTaggedFields, buf, &self.unknown_tagged_fields)?;
        let ghost b12 = buf@;
        assert(b12 =~= b11 + field_encode(true, <UnknownTaggedFields as Codec<Vec<RawTaggedField>>>::spec_encode(&UnknownTaggedFields, m.unknown_tagged_fields)));
        assert(b12 =~= b0 + (field_encode(true, <CompactString as Codec<GroupId>>::spec_encode(&CompactString, m.group_id)) + field_encode(true, <CompactString as Codec<StrBytes>>::spec_encode(&CompactString, m.member_id)) + field_encode(true, <Int32 as Codec<i32>>::spec_encode(&Int32, m.member_epoch)) + field_encode(true, <CompactString as Codec<Option<StrBytes>>>::spec_encode(&CompactString, m.instance_id)) + field_encode(true, <CompactString as Codec<Option<StrBytes>>>::spec_encode(&CompactString, m.rack_id)) + field_encode(true, <Int32 as Codec<i32>>::spec_encode(&Int32, m.rebalance_timeout_ms)) + field_encode(true, <CompactArray<CompactString> as Codec<Option<Vec<TopicName>>>>::spec_encode(&CompactArray(CompactString), m.subscribed_topic_names)) + field_encode(true, <CompactString as Codec<Option<StrBytes>>>::spec_encode(&CompactString, m.subscribed_topic_regex)) + field_encode(true, <CompactString as Codec<Option<StrBytes>>>::spec_encode(&CompactString, m.server_assignor)) + field_encode(true, <CompactArray<Struct> as Codec<Option<Vec<Assignor>>>>::spec_encode(&CompactArray(Struct { version }), m.client_assignors)) + field_encode(true, <CompactArray<Struct> as Codec<Option<Vec<TopicPartitions>>>>::spec_encode(&CompactArray(Struct { version }), m.topic_partitions)) + field_encode(true, <UnknownTaggedFields as Codec<Vec<RawTaggedField>>>::spec_encode(&UnknownTaggedFields, m.unknown_tagged_fields))));
        assert(buf@ =~= old(buf)@ + Self::spec_encode(m, version));
        Ok(())
    }

    #[verifier::rlimit(100)]
    fn compute_size(&self, version: i16) -> (r: Result<usize, EncodeError>) {
        let ghost m = self.deep_view();
        let mut total: usize = 0;
        let n = <CompactString as Codec<GroupId>>::compute_size(&CompactString, &self.group_id)?;
        total = add_size(total, n)?;
        assert(total == (field_encode(true, <CompactString as Codec<GroupId>>::spec_encode(&CompactString, m.group_id))).len());
        let n = <CompactString as Codec<StrBytes>>::compute_size(&CompactString, &self.member_id)?;
        total = add_size(total, n)?;
        assert(total == (field_encode(true, <CompactString as Codec<GroupId>>::spec_encode(&CompactString, m.group_id)) + field_encode(true, <CompactString as Codec<StrBytes>>::spec_encode(&CompactString, m.member_id))).len());
        let n = <Int32 as Codec<i32>>::compute_size(&Int32, &self.member_epoch)?;
        total = add_size(total, n)?;
        assert(total == (field_encode(true, <CompactString as Codec<GroupId>>::spec_encode(&CompactString, m.group_id)) + field_encode(true, <CompactString as Codec<StrBytes>>::spec_encode(&CompactString, m.member_id)) + field_encode(true, <Int32 as Codec<i32>>::spec_encode(&Int32, m.member_epoch))).len());
        let n = <CompactString as Codec<Option<StrBytes>>>::compute_size(&CompactString, &self.instance_id)?;
        total = add_size(total, n)?;
        assert(total == (field_encode(true, <CompactString as Codec<GroupId>>::spec_encode(&CompactString, m.group_id)) + field_encode(true, <CompactString as Codec<StrBytes>>::spec_encode(&CompactString, m.member_id)) + field_encode(true, <Int32 as Codec<i32>>::spec_encode(&Int32, m.member_epoch)) + field_encode(true, <CompactString as Codec<Option<StrBytes>>>::spec_encode(&CompactString, m.instance_id))).len());
        let n = <CompactString as Codec<Option<StrBytes>>>::compute_size(&CompactString, &self.rack_id)?;
        total = add_size(total, n)?;
        assert(total == (field_encode(true, <CompactString as Codec<GroupId>>::spec_encode(&CompactString, m.group_id)) + field_encode(true, <CompactString as Codec<StrBytes>>::spec_encode(&CompactString, m.member_id)) + field_encode(true, <Int32 as Codec<i32>>::spec_encode(&Int32, m.member_epoch)) + field_encode(true, <CompactString as Codec<Option<StrBytes>>>::spec_encode(&CompactString, m.instance_id)) + field_encode(true, <CompactString as Codec<Option<StrBytes>>>::spec_encode(&CompactString, m.rack_id))).len());
        let n = <Int32 as Codec<i32>>::compute_size(&Int32, &self.rebalance_timeout_ms)?;
        total = add_size(total, n)?;
        assert(total == (field_encode(true, <CompactString as Codec<GroupId>>::spec_encode(&CompactString, m.group_id)) + field_encode(true, <CompactString as Codec<StrBytes>>::spec_encode(&CompactString, m.member_id)) + field_encode(true, <Int32 as Codec<i32>>::spec_encode(&Int32, m.member_epoch)) + field_encode(true, <CompactString as Codec<Option<StrBytes>>>::spec_encode(&CompactString, m.instance_id)) + field_encode(true, <CompactString as Codec<Option<StrBytes>>>::spec_encode(&CompactString, m.rack_id)) + field_encode(true, <Int32 as Codec<i32>>::spec_encode(&Int32, m.rebalance_timeout_ms))).len());
        let n = <CompactArray<CompactString> as Codec<Option<Vec<TopicName>>>>::compute_size(&CompactArray(CompactString), &self.subscribed_topic_names)?;
        total = add_size(total, n)?;
        assert(total == (field_encode(true, <CompactString as Codec<GroupId>>::spec_encode(&CompactString, m.group_id)) + field_encode(true, <CompactString as Codec<StrBytes>>::spec_encode(&CompactString, m.member_id)) + field_encode(true, <Int32 as Codec<i32>>::spec_encode(&Int32, m.member_epoch)) + field_encode(true, <CompactString as Codec<Option<StrBytes>>>::spec_encode(&CompactString, m.instance_id)) + field_encode(true, <CompactString as Codec<Option<StrBytes>>>::spec_encode(&CompactString, m.rack_id)) + field_encode(true, <Int32 as Codec<i32>>::spec_encode(&Int32, m.rebalance_timeout_ms)) + field_encode(true, <CompactArray<CompactString> as Codec<Option<Vec<TopicName>>>>::spec_encode(&CompactArray(CompactString), m.subscribed_topic_names))).len());
        let n = <CompactString as Codec<Option<StrBytes>>>::compute_size(&CompactString, &self.subscribed_topic_regex)?;
        total = add_size(total, n)?;
        assert(total == (field_encode(true, <CompactString as Codec<GroupId>>::spec_encode(&CompactString, m.group_id)) + field_encode(true, <CompactString as Codec<StrBytes>>::spec_encode(&CompactString, m.member_id)) + field_encode(true, <Int32 as Codec<i32>>::spec_encode(&Int32, m.member_epoch)) + field_encode(true, <CompactString as Codec<Option<StrBytes>>>::spec_encode(&CompactString, m.instance_id)) + field_encode(true, <CompactString as Codec<Option<StrBytes>>>::spec_encode(&CompactString, m.rack_id)) + field_encode(true, <Int32 as Codec<i32>>::spec_encode(&Int32, m.rebalance_timeout_ms)) + field_encode(true, <CompactArray<CompactString> as Codec<Option<Vec<TopicName>>>>::spec_encode(&CompactArray(CompactString), m.subscribed_topic_names)) + field_encode(true, <CompactString as Codec<Option<StrBytes>>>::spec_encode(&CompactString, m.subscribed_topic_regex))).len());
        let n = <CompactString as Codec<Option<StrBytes>>>::compute_size(&CompactString, &self.server_assignor)?;
        total = add_size(total, n)?;
        assert(total == (field_encode(true, <CompactString as Codec<GroupId>>::spec_encode(&CompactString, m.group_id)) + field_encode(true, <CompactString as Codec<StrBytes>>::spec_encode(&CompactString, m.member_id)) + field_encode(true, <Int32 as Codec<i32>>::spec_encode(&Int32, m.member_epoch)) + field_encode(true, <CompactString as Codec<Option<StrBytes>>>::spec_encode(&CompactString, m.instance_id)) + field_encode(true, <CompactString as Codec<Option<StrBytes>>>::spec_encode(&CompactString, m.rack_id)) + field_encode(true, <Int32 as Codec<i32>>::spec_encode(&Int32, m.rebalance_timeout_ms)) + field_encode(true, <CompactArray<CompactString> as Codec<Option<Vec<TopicName>>>>::spec_encode(&CompactArray(CompactString), m.subscribed_topic_names)) + field_encode(true, <CompactString as Codec<Option<StrBytes>>>::spec_encode(&CompactString, m.subscribed_topic_regex)) + field_encode(true, <CompactString as Codec<Option<StrBytes>>>::spec_encode(&CompactString, m.server_assignor))).len());
        let n = <CompactArray<Struct> as Codec<Option<Vec<Assignor>>>>::compute_size(&CompactArray(Struct { version }), &self.client_assignors)?;
        total = add_size(total, n)?;
        assert(total == (field_encode(true, <CompactString as Codec<GroupId>>::spec_encode(&CompactString, m.group_id)) + field_encode(true, <CompactString as Codec<StrBytes>>::spec_encode(&CompactString, m.member_id)) + field_encode(true, <Int32 as Codec<i32>>::spec_encode(&Int32, m.member_epoch)) + field_encode(true, <CompactString as Codec<Option<StrBytes>>>::spec_encode(&CompactString, m.instance_id)) + field_encode(true, <CompactString as Codec<Option<StrBytes>>>::spec_encode(&CompactString, m.rack_id)) + field_encode(true, <Int32 as Codec<i32>>::spec_encode(&Int32, m.rebalance_timeout_ms)) + field_encode(true, <CompactArray<CompactString> as Codec<Option<Vec<TopicName>>>>::spec_encode(&CompactArray(CompactString), m.subscribed_topic_names)) + field_encode(true, <CompactString as Codec<Option<StrBytes>>>::spec_encode(&CompactString, m.subscribed_topic_regex)) + field_encode(true, <CompactString as Codec<Option<StrBytes>>>::spec_encode(&CompactString, m.server_assignor)) + field_encode(true, <CompactArray<Struct> as Codec<Option<Vec<Assignor>>>>::spec_encode(&CompactArray(Struct { version }), m.client_assignors))).len());
        let n = <CompactArray<Struct> as Codec<Option<Vec<TopicPartitions>>>>::compute_size(&CompactArray(Struct { version }), &self.topic_partitions)?;
        total = add_size(total, n)?;
        assert(total == (field_encode(true, <CompactString as Codec<GroupId>>::spec_encode(&CompactString, m.group_id)) + field_encode(true, <CompactString as Codec<StrBytes>>::spec_encode(&CompactString, m.member_id)) + field_encode(true, <Int32 as Codec<i32>>::spec_encode(&Int32, m.member_epoch)) + field_encode(true, <CompactString as Codec<Option<StrBytes>>>::spec_encode(&CompactString, m.instance_id)) + field_encode(true, <CompactString as Codec<Option<StrBytes>>>::spec_encode(&CompactString, m.rack_id)) + field_encode(true, <Int32 as Codec<i32>>::spec_encode(&Int32, m.rebalance_timeout_ms)) + field_encode(true, <CompactArray<CompactString> as Codec<Option<Vec<TopicName>>>>::spec_encode(&CompactArray(CompactString), m.subscribed_topic_names)) + field_encode(true, <CompactString as Codec<Option<StrBytes>>>::spec_encode(&CompactString, m.subscribed_topic_regex)) + field_encode(true, <CompactString as Codec<Option<StrBytes>>>::spec_encode(&CompactString, m.server_assignor)) + field_encode(true, <CompactArray<Struct> as Codec<Option<Vec<Assignor>>>>::spec_encode(&CompactArray(Struct { version }), m.client_assignors)) + field_encode(true, <CompactArray<Struct> as Codec<Option<Vec<TopicPartitions>>>>::spec_encode(&CompactArray(Struct { version }), m.topic_partitions))).len());
        let n = <UnknownTaggedFields as Codec<Vec<RawTaggedField>>>::compute_size(&UnknownTaggedFields, &self.unknown_tagged_fields)?;
        total = add_size(total, n)?;
        assert(total == (field_encode(true, <CompactString as Codec<GroupId>>::spec_encode(&CompactString, m.group_id)) + field_encode(true, <CompactString as Codec<StrBytes>>::spec_encode(&CompactString, m.member_id)) + field_encode(true, <Int32 as Codec<i32>>::spec_encode(&Int32, m.member_epoch)) + field_encode(true, <CompactString as Codec<Option<StrBytes>>>::spec_encode(&CompactString, m.instance_id)) + field_encode(true, <CompactString as Codec<Option<StrBytes>>>::spec_encode(&CompactString, m.rack_id)) + field_encode(true, <Int32 as Codec<i32>>::spec_encode(&Int32, m.rebalance_timeout_ms)) + field_encode(true, <CompactArray<CompactString> as Codec<Option<Vec<TopicName>>>>::spec_encode(&CompactArray(CompactString), m.subscribed_topic_names)) + field_encode(true, <CompactString as Codec<Option<StrBytes>>>::spec_encode(&CompactString, m.subscribed_topic_regex)) + field_encode(true, <CompactString as Codec<Option<StrBytes>>>::spec_encode(&CompactString, m.server_assignor)) + field_encode(true, <CompactArray<Struct> as Codec<Option<Vec<Assignor>>>>::spec_encode(&CompactArray(Struct { version }), m.client_assignors)) + field_encode(true, <CompactArray<Struct> as Codec<Option<Vec<TopicPartitions>>>>::spec_encode(&CompactArray(Struct { version }), m.topic_partitions)) + field_encode(true, <UnknownTaggedFields as Codec<Vec<RawTaggedField>>>::spec_encode(&UnknownTaggedFields, m.unknown_tagged_fields))).len());
        Ok(total)
    }

    #[verifier::rlimit(100)]
    #[verifier::spinoff_prover]
    fn decode(buf: &[u8], pos: usize, version: i16) -> (r: Result<(ConsumerGroupHeartbeatRequest, usize), DecodeError>) {
        let ghost s = buf@.skip(pos as int);
        let at0 = pos;
        assert(s.skip(0) =~= s);
        proof { lemma_skip_skip(buf@, pos as int, at0 - pos); }
        let (group_id, at1) = <CompactString as Codec<GroupId>>::decode(&CompactString, buf, at0)?;
        assert(field_decode(true, <CompactString as Codec<GroupId>>::spec_decode(&CompactString, s.skip(at0 - pos)), Seq::<u8>::empty()) == Some((group_id.deep_view(), (at1 - at0) as nat)));
        proof { lemma_skip_skip(buf@, pos as int, at1 - pos); }
        let (member_id, at2) = <CompactString as Codec<StrBytes>>::decode(&CompactString, buf, at1)?;
        assert(field_decode(true, <CompactString as Codec<StrBytes>>::spec_decode(&CompactString, s.skip(at1 - pos)), Seq::<u8>::empty()) == Some((member_id.deep_view(), (at2 - at1) as nat)));
        proof { lemma_skip_skip(buf@, pos as int, at2 - pos); }
        let (member_epoch, at3) = <Int32 as Codec<i32>>::decode(&Int32, buf, at2)?;
        assert(field_decode(true, <Int32 as Codec<i32>>::spec_decode(&Int32, s.skip(at2 - pos)), 0i32) == Some((member_epoch.deep_view(), (at3 - at2) as nat)));
        proof { lemma_skip_skip(buf@, pos as int, at3 - pos); }
        let (instance_id, at4) = <CompactString as Codec<Option<StrBytes>>>::decode(&CompactString, buf, at3)?;
        assert(field_decode(true, <CompactString as Codec<Option<StrBytes>>>::spec_decode(&CompactString, s.skip(at3 - pos)), None::<Seq<u8>>) == Some((instance_id.deep_view(), (at4 - at3) as nat)));
        proof { lemma_skip_skip(buf@, pos as int, at4 - pos); }
        let (rack_id, at5) = <CompactString as Codec<Option<StrBytes>>>::decode(&CompactString, buf, at4)?;
        assert(field_decode(true, <CompactString as Codec<Option<StrBytes>>>::spec_decode(&CompactString, s.skip(at4 - pos)), None::<Seq<u8>>) == Some((rack_id.deep_view(), (at5 - at4) as nat)));
        proof { lemma_skip_skip(buf@, pos as int, at5 - pos); }
        let (rebalance_timeout_ms, at6) = <Int32 as Codec<i32>>::decode(&Int32, buf, at5)?;
        assert(field_decode(true, <Int32 as Codec<i32>>::spec_decode(&Int32, s.skip(at5 - pos)), -1i32) == Some((rebalance_timeout_ms.deep_view(), (at6 - at5) as nat)));
        proof { lemma_skip_skip(buf@, pos as int, at6 - pos); }
        let (subscribed_topic_names, at7) = <CompactArray<CompactString> as Codec<Option<Vec<TopicName>>>>::decode(&CompactArray(CompactString), buf, at6)?;
        assert(field_decode(true, <CompactArray<CompactString> as Codec<Option<Vec<TopicName>>>>::spec_decode(&CompactArray(CompactString), s.skip(at6 - pos)), None::<Seq<Seq<u8>>>) == Some((subscribed_topic_names.deep_view(), (at7 - at6) as nat)));
        proof { lemma_skip_skip(buf@, pos as int, at7 - pos); }
        let (subscribed_topic_regex, at8) = <CompactString as Codec<Option<StrBytes>>>::decode(&CompactString, buf, at7)?;
        assert(field_decode(true, <CompactString as Codec<Option<StrBytes>>>::spec_decode(&CompactString, s.skip(at7 - pos)), None::<Seq<u8>>) == Some((subscribed_topic_regex.deep_view(), (at8 - at7) as nat)));
        proof { lemma_skip_skip(buf@, pos as int, at8 - pos); }
        let (server_assignor, at9) = <CompactString as Codec<Option<StrBytes>>>::decode(&CompactString, buf, at8)?;
        assert(field_decode(true, <CompactString as Codec<Option<StrBytes>>>::spec_decode(&CompactString, s.skip(at8 - pos)), None::<Seq<u8>>) == Some((server_assignor.deep_view(), (at9 - at8) as nat)));
        proof { lemma_skip_skip(buf@, pos as int, at9 - pos); }
        let (client_assignors, at10) = <CompactArray<Struct> as Codec<Option<Vec<Assignor>>>>::decode(&CompactArray(Struct { version }), buf, at9)?;
        assert(field_decode(true, <CompactArray<Struct> as Codec<Option<Vec<Assignor>>>>::spec_decode(&CompactArray(Struct { version }), s.skip(at9 - pos)), None::<Seq<AssignorModel>>) == Some((client_assignors.deep_view(), (at10 - at9) as nat)));
        proof { lemma_skip_skip(buf@, pos as int, at10 - pos); }
        let (topic_partitions, at11) = <CompactArray<Struct> as Codec<Option<Vec<TopicPartitions>>>>::decode(&CompactArray(Struct { version }), buf, at10)?;
        assert(field_decode(true, <CompactArray<Struct> as Codec<Option<Vec<TopicPartitions>>>>::spec_decode(&CompactArray(Struct { version }), s.skip(at10 - pos)), None::<Seq<TopicPartitionsModel>>) == Some((topic_partitions.deep_view(), (at11 - at10) as nat)));
        proof { lemma_skip_skip(buf@, pos as int, at11 - pos); }
        let (unknown_tagged_fields, at12) = <UnknownTaggedFields as Codec<Vec<RawTaggedField>>>::decode(&UnknownTaggedFields, buf, at11)?;
        assert(field_decode(true, <UnknownTaggedFields as Codec<Vec<RawTaggedField>>>::spec_decode(&UnknownTaggedFields, s.skip(at11 - pos)), Seq::<(u32, Seq<u8>)>::empty()) == Some((unknown_tagged_fields.deep_view(), (at12 - at11) as nat)));
        let r = ConsumerGroupHeartbeatRequest { group_id, member_id, member_epoch, instance_id, rack_id, rebalance_timeout_ms, subscribed_topic_names, subscribed_topic_regex, server_assignor, client_assignors, topic_partitions, unknown_tagged_fields };
        proof {
            Self::lemma_decoded(s, version, r.deep_view(), (at1 - at0) as nat, (at2 - at1) as nat, (at3 - at2) as nat, (at4 - at3) as nat, (at5 - at4) as nat, (at6 - at5) as nat, (at7 - at6) as nat, (at8 - at7) as nat, (at9 - at8) as nat, (at10 - at9) as nat, (at11 - at10) as nat, (at12 - at11) as nat);
        }
        Ok((r, at12))
    }
}

impl ConsumerGroupHeartbeatRequest {
    /// The decoded fields, read one after the other, make up the message.
    proof fn lemma_decoded(s: Seq<u8>, version: i16, m: ConsumerGroupHeartbeatRequestModel, n0: nat, n1: nat, n2: nat, n3: nat, n4: nat, n5: nat, n6: nat, n7: nat, n8: nat, n9: nat, n10: nat, n11: nat)
        requires
            field_decode(true, <CompactString as Codec<GroupId>>::spec_decode(&CompactString, s.skip(0)), Seq::<u8>::empty()) == Some((m.group_id, n0)),
            field_decode(true, <CompactString as Codec<StrBytes>>::spec_decode(&CompactString, s.skip((n0) as int)), Seq::<u8>::empty()) == Some((m.member_id, n1)),
            field_decode(true, <Int32 as Codec<i32>>::spec_decode(&Int32, s.skip((n0 + n1) as int)), 0i32) == Some((m.member_epoch, n2)),
            field_decode(true, <CompactString as Codec<Option<StrBytes>>>::spec_decode(&CompactString, s.skip((n0 + n1 + n2) as int)), None::<Seq<u8>>) == Some((m.instance_id, n3)),
            field_decode(true, <CompactString as Codec<Option<StrBytes>>>::spec_decode(&CompactString, s.skip((n0 + n1 + n2 + n3) as int)), None::<Seq<u8>>) == Some((m.rack_id, n4)),
            field_decode(true, <Int32 as Codec<i32>>::spec_decode(&Int32, s.skip((n0 + n1 + n2 + n3 + n4) as int)), -1i32) == Some((m.rebalance_timeout_ms, n5)),
            field_decode(true, <CompactArray<CompactString> as Codec<Option<Vec<TopicName>>>>::spec_decode(&CompactArray(CompactString), s.skip((n0 + n1 + n2 + n3 + n4 + n5) as int)), None::<Seq<Seq<u8>>>) == Some((m.subscribed_topic_names, n6)),
            field_decode(true, <CompactString as Codec<Option<StrBytes>>>::spec_decode(&CompactString, s.skip((n0 + n1 + n2 + n3 + n4 + n5 + n6) as int)), None::<Seq<u8>>) == Some((m.subscribed_topic_regex, n7)),
            field_decode(true, <CompactString as Codec<Option<StrBytes>>>::spec_decode(&CompactString, s.skip((n0 + n1 + n2 + n3 + n4 + n5 + n6 + n7) as int)), None::<Seq<u8>>) == Some((m.server_assignor, n8)),
            field_decode(true, <CompactArray<Struct> as Codec<Option<Vec<Assignor>>>>::spec_decode(&CompactArray(Struct { version }), s.skip((n0 + n1 + n2 + n3 + n4 + n5 + n6 + n7 + n8) as int)), None::<Seq<AssignorModel>>) == Some((m.client_assignors, n9)),
            field_decode(true, <CompactArray<Struct> as Codec<Option<Vec<TopicPartitions>>>>::spec_decode(&CompactArray(Struct { version }), s.skip((n0 + n1 + n2 + n3 + n4 + n5 + n6 + n7 + n8 + n9) as int)), None::<Seq<TopicPartitionsModel>>) == Some((m.topic_partitions, n10)),
            field_decode(true, <UnknownTaggedFields as Codec<Vec<RawTaggedField>>>::spec_decode(&UnknownTaggedFields, s.skip((n0 + n1 + n2 + n3 + n4 + n5 + n6 + n7 + n8 + n9 + n10) as int)), Seq::<(u32, Seq<u8>)>::empty()) == Some((m.unknown_tagged_fields, n11)),
        ensures
            Self::spec_decode(s, version) == Some((m, (n0 + n1 + n2 + n3 + n4 + n5 + n6 + n7 + n8 + n9 + n10 + n11) as nat)),
    {
        assert(s.skip(0) =~= s);
    }

}

} // verus!
