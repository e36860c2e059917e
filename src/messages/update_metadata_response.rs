//! The response to a metadata update.
use vstd::prelude::*;

use crate::protocol::tagged::{RawTaggedField, UnknownTaggedFields};
use crate::protocol::types::{Int16};
use crate::protocol::{add_size, field_decode, field_encode, lemma_field, lemma_skip_skip, Codec, DecodeError, EncodeError, Message};

verus! {

/// The answer to a metadata update. Valid versions: 0 to 8; flexible from version 6.
#[derive(Debug, Clone, PartialEq)]
pub struct UpdateMetadataResponse {
    /// The error code, or 0 if there was no error.
    ///
    /// On the wire at versions 0 to 8.
    pub error_code: i16,
    /// Tagged fields that the schema does not know, kept to be written back.
    pub unknown_tagged_fields: Vec<RawTaggedField>,
}

/// The value of a [`UpdateMetadataResponse`], field by field.
pub struct UpdateMetadataResponseModel {
    pub error_code: i16,
    pub unknown_tagged_fields: Seq<(u32, Seq<u8>)>,
}

impl DeepView for UpdateMetadataResponse {
    type V = UpdateMetadataResponseModel;

    open spec fn deep_view(&self) -> UpdateMetadataResponseModel {
        UpdateMetadataResponseModel {
            error_code: self.error_code.deep_view(),
            unknown_tagged_fields: self.unknown_tagged_fields.deep_view(),
        }
    }
}

impl UpdateMetadataResponse {
    /// The value of every field when nothing else is said.
    pub open spec fn default_model() -> UpdateMetadataResponseModel {
        UpdateMetadataResponseModel {
            error_code: 0i16,
            unknown_tagged_fields: Seq::<(u32, Seq<u8>)>::empty(),
        }
    }

    /// The version of the header that frames this message at `version`:
    /// 1 from the flexible version 6 on, 0 before it.
    pub open spec fn spec_header_version(version: i16) -> i16 {
        if version >= 6 {
            1
        } else {
            0
        }
    }

    /// The version of the header that frames this message at `version`.
    pub fn header_version(version: i16) -> (r: i16)
        ensures
            r == Self::spec_header_version(version),
    {
        if version >= 6 {
            1
        } else {
            0
        }
    }
}

impl Default for UpdateMetadataResponse {
    fn default() -> (r: UpdateMetadataResponse)
        ensures
            r.deep_view() == UpdateMetadataResponse::default_model(),
    {
        let r = UpdateMetadataResponse {
            error_code: 0i16,
            unknown_tagged_fields: Vec::new(),
        };
        assert(r.unknown_tagged_fields.deep_view() =~= Seq::<(u32, Seq<u8>)>::empty());
        r
    }
}

impl Message for UpdateMetadataResponse {
    open spec fn spec_valid(m: UpdateMetadataResponseModel, version: i16) -> bool {
        &&& <Int16 as Codec<i16>>::valid(&Int16, m.error_code)
        &&& (version >= 6) ==> <UnknownTaggedFields as Codec<Vec<RawTaggedField>>>::valid(&UnknownTaggedFields, m.unknown_tagged_fields)
        &&& !(version >= 6) ==> m.unknown_tagged_fields == Seq::<(u32, Seq<u8>)>::empty()
    }

    open spec fn spec_encode(m: UpdateMetadataResponseModel, version: i16) -> Seq<u8> {
        field_encode(true, <Int16 as Codec<i16>>::spec_encode(&Int16, m.error_code))
            + field_encode(version >= 6, <UnknownTaggedFields as Codec<Vec<RawTaggedField>>>::spec_encode(&UnknownTaggedFields, m.unknown_tagged_fields))
    }

    open spec fn spec_decode(s: Seq<u8>, version: i16) -> Option<(UpdateMetadataResponseModel, nat)> {
        match field_decode(true, <Int16 as Codec<i16>>::spec_decode(&Int16, s), 0i16) {
            Some((v0, n0)) => 
            match field_decode(version >= 6, <UnknownTaggedFields as Codec<Vec<RawTaggedField>>>::spec_decode(&UnknownTaggedFields, s.skip((n0) as int)), Seq::<(u32, Seq<u8>)>::empty()) {
                Some((v1, n1)) => 
                Some((UpdateMetadataResponseModel { error_code: v0, unknown_tagged_fields: v1 }, (n0 + n1) as nat)),
                None => None,
            },
            None => None,
        }
    }

    #[verifier::rlimit(100)]
    proof fn lemma_decode_encode(m: UpdateMetadataResponseModel, version: i16, rest: Seq<u8>) {
        if version < 6 {
            Self::lemma_decode_encode_0(m, version, rest);
        } else {
            Self::lemma_decode_encode_1(m, version, rest);
        }
    }

    #[verifier::rlimit(100)]
    #[verifier::spinoff_prover]
    fn encode(&self, buf: &mut Vec<u8>, version: i16) -> (r: Result<(), EncodeError>) {
        let ghost m = self.deep_view();
        let ghost b0 = buf@;
        <Int16 as Codec<i16>>::encode(&Int16, buf, &self.error_code)?;
        let ghost b1 = buf@;
        assert(b1 =~= b0 + field_encode(true, <Int16 as Codec<i16>>::spec_encode(&Int16, m.error_code)));
        assert(b1 =~= b0 + (field_encode(true, <Int16 as Codec<i16>>::spec_encode(&Int16, m.error_code))));
        if version >= 6 {
            <UnknownTaggedFields as Codec<Vec<RawTaggedField>>>::encode(&UnknownTaggedFields, buf, &self.unknown_tagged_fields)?;
        } else if self.unknown_tagged_fields.len() != 0 {
            assert(m.unknown_tagged_fields.len() == self.unknown_tagged_fields@.len());
            return Err(EncodeError);
        } else {
            assert(m.unknown_tagged_fields =~= Seq::<(u32, Seq<u8>)>::empty());
        }
        let ghost b2 = buf@;
        assert(b2 =~= b1 + field_encode(version >= 6, <UnknownTaggedFields as Codec<Vec<RawTaggedField>>>::spec_encode(&UnknownTaggedFields, m.unknown_tagged_fields)));
        assert(b2 =~= b0 + (field_encode(true, <Int16 as Codec<i16>>::spec_encode(&Int16, m.error_code)) + field_encode(version >= 6, <UnknownTaggedFields as Codec<Vec<RawTaggedField>>>::spec_encode(&UnknownTaggedFields, m.unknown_tagged_fields))));
        assert(buf@ =~= old(buf)@ + Self::spec_encode(m, version));
        Ok(())
    }

    #[verifier::rlimit(100)]
    fn compute_size(&self, version: i16) -> (r: Result<usize, EncodeError>) {
        let ghost m = self.deep_view();
        let mut total: usize = 0;
        let n = <Int16 as Codec<i16>>::compute_size(&Int16, &self.error_code)?;
        total = add_size(total, n)?;
        assert(total == (field_encode(true, <Int16 as Codec<i16>>::spec_encode(&Int16, m.error_code))).len());
        if version >= 6 {
            let n = <UnknownTaggedFields as Codec<Vec<RawTaggedField>>>::compute_size(&UnknownTaggedFields, &self.unknown_tagged_fields)?;
            total = add_size(total, n)?;
        } else if self.unknown_tagged_fields.len() != 0 {
            assert(m.unknown_tagged_fields.len() == self.unknown_tagged_fields@.len());
            return Err(EncodeError);
        } else {
            assert(m.unknown_tagged_fields =~= Seq::<(u32, Seq<u8>)>::empty());
        }
        assert(total == (field_encode(true, <Int16 as Codec<i16>>::spec_encode(&Int16, m.error_code)) + field_encode(version >= 6, <UnknownTaggedFields as Codec<Vec<RawTaggedField>>>::spec_encode(&UnknownTaggedFields, m.unknown_tagged_fields))).len());
        Ok(total)
    }

    #[verifier::rlimit(100)]
    #[verifier::spinoff_prover]
    fn decode(buf: &[u8], pos: usize, version: i16) -> (r: Result<(UpdateMetadataResponse, usize), DecodeError>) {
        let ghost s = buf@.skip(pos as int);
        let at0 = pos;
        assert(s.skip(0) =~= s);
        proof { lemma_skip_skip(buf@, pos as int, at0 - pos); }
        let (error_code, at1) = <Int16 as Codec<i16>>::decode(&Int16, buf, at0)?;
        assert(field_decode(true, <Int16 as Codec<i16>>::spec_decode(&Int16, s.skip(at0 - pos)), 0i16) == Some((error_code.deep_view(), (at1 - at0) as nat)));
        proof { lemma_skip_skip(buf@, pos as int, at1 - pos); }
        let (unknown_tagged_fields, at2) = if version >= 6 {
            <UnknownTaggedFields as Codec<Vec<RawTaggedField>>>::decode(&UnknownTaggedFields, buf, at1)?
        } else {
            (Vec::new(), at1)
        };
        if !(version >= 6) {
            assert(unknown_tagged_fields.deep_view() =~= Seq::<(u32, Seq<u8>)>::empty());
        }
        assert(field_decode(version >= 6, <UnknownTaggedFields as Codec<Vec<RawTaggedField>>>::spec_decode(&UnknownTaggedFields, s.skip(at1 - pos)), Seq::<(u32, Seq<u8>)>::empty()) == Some((unknown_tagged_fields.deep_view(), (at2 - at1) as nat)));
        let r = UpdateMetadataResponse { error_code, unknown_tagged_fields };
        Ok((r, at2))
    }
}

impl UpdateMetadataResponse {
    #[verifier::rlimit(100)]
    proof fn lemma_decode_encode_0(m: UpdateMetadataResponseModel, version: i16, rest: Seq<u8>)
        requires
            Self::spec_valid(m, version),
            version < 6,
        ensures
            Self::spec_decode(Self::spec_encode(m, version) + rest, version) == Some(
                (m, Self::spec_encode(m, version).len()),
            ),
    {
        let e0 = field_encode(true, <Int16 as Codec<i16>>::spec_encode(&Int16, m.error_code));
        let e1 = field_encode(version >= 6, <UnknownTaggedFields as Codec<Vec<RawTaggedField>>>::spec_encode(&UnknownTaggedFields, m.unknown_tagged_fields));
        let t2 = rest;
        let t1 = e1 + t2;
        let t0 = e0 + t1;
        let s = Self::spec_encode(m, version) + rest;
        assert(s =~= t0);
        assert(s.skip(0) =~= s);
        lemma_field::<i16, Int16>(Int16, true, m.error_code, 0i16, t1);
        lemma_skip_skip(s, (0) as int, e0.len() as int);
        assert(s.skip((e0.len()) as int) == t1);
        lemma_field::<Vec<RawTaggedField>, UnknownTaggedFields>(UnknownTaggedFields, version >= 6, m.unknown_tagged_fields, Seq::<(u32, Seq<u8>)>::empty(), t2);
    }

    #[verifier::rlimit(100)]
    proof fn lemma_decode_encode_1(m: UpdateMetadataResponseModel, version: i16, rest: Seq<u8>)
        requires
            Self::spec_valid(m, version),
            version >= 6,
        ensures
            Self::spec_decode(Self::spec_encode(m, version) + rest, version) == Some(
                (m, Self::spec_encode(m, version).len()),
            ),
    {
        let e0 = field_encode(true, <Int16 as Codec<i16>>::spec_encode(&Int16, m.error_code));
        let e1 = field_encode(version >= 6, <UnknownTaggedFields as Codec<Vec<RawTaggedField>>>::spec_encode(&UnknownTaggedFields, m.unknown_tagged_fields));
        let t2 = rest;
        let t1 = e1 + t2;
        let t0 = e0 + t1;
        let s = Self::spec_encode(m, version) + rest;
        assert(s =~= t0);
        assert(s.skip(0) =~= s);
        lemma_field::<i16, Int16>(Int16, true, m.error_code, 0i16, t1);
        lemma_skip_skip(s, (0) as int, e0.len() as int);
        assert(s.skip((e0.len()) as int) == t1);
        lemma_field::<Vec<RawTaggedField>, UnknownTaggedFields>(UnknownTaggedFields, version >= 6, m.unknown_tagged_fields, Seq::<(u32, Seq<u8>)>::empty(), t2);
    }
}

} // verus!
