//! The parts of the Cryptographic Message Syntax that a time-stamp token consists of.

use vstd::prelude::*;

use crate::der;
use crate::der::{
    check_values, failed, read_captured, read_identifier, read_needed, read_octet_string, read_tagged, unlimited,
    DecodeError, Fault, ReadValue, Reason, Value, CONSTRUCTED_0, CONSTRUCTED_1, INTEGER, PRIMITIVE_0,
    SEQUENCE, SET,
};
use crate::text::copy_bytes;

verus! {

/// The object identifier 1.2.840.113549.1.7.2.
pub const OID_ID_SIGNED_DATA: [u8; 9] = [42, 134, 72, 134, 247, 13, 1, 7, 2];

/// An algorithm, named by an object identifier, and its parameters as they are encoded.
#[derive(Clone, Debug)]
pub struct AlgorithmIdentifier {
    pub algorithm: Vec<u8>,
    pub parameters: Option<Vec<u8>>,
}

/// What an [`AlgorithmIdentifier`] holds.
pub struct AlgorithmModel {
    pub algorithm: Seq<u8>,
    pub parameters: Option<Seq<u8>>,
}

impl View for AlgorithmIdentifier {
    type V = AlgorithmModel;

    open spec fn view(&self) -> AlgorithmModel {
        AlgorithmModel { algorithm: self.algorithm@, parameters: der::optional_octets(self.parameters) }
    }
}

/// What a list of algorithms holds.
pub open spec fn algorithm_models(algorithms: Seq<AlgorithmIdentifier>) -> Seq<AlgorithmModel> {
    algorithms.map_values(|a: AlgorithmIdentifier| a@)
}

/// The algorithm that a sequence stands for: an object identifier and parameters, which may be
/// missing.
pub open spec fn algorithm_of(s: Seq<u8>, v: Value) -> Result<AlgorithmModel, Fault> {
    match der::identifier_at(s, v.start, v.end) {
        Ok((i, algorithm)) => match der::values_fill(s, i, v.end, i) {
            Ok(_) => Ok(
                AlgorithmModel {
                    algorithm,
                    parameters: if i == v.end {
                        None
                    } else {
                        Some(s.subrange(i, v.end))
                    },
                },
            ),
            Err(f) => Err(f),
        },
        Err(f) => Err(f),
    }
}

/// The algorithm at `i`, with the place behind it.
pub open spec fn algorithm_at(s: Seq<u8>, i: int, limit: int) -> Result<(int, AlgorithmModel), Fault> {
    match der::needed_at(s, i, limit, SEQUENCE) {
        Ok(v) => match algorithm_of(s, v) {
            Ok(a) => Ok((v.end, a)),
            Err(f) => Err(f),
        },
        Err(f) => Err(f),
    }
}

/// The algorithms that the values from `i` up to the limit stand for, after those already seen.
pub open spec fn algorithms_from(
    s: Seq<u8>,
    i: int,
    limit: int,
    seen: Seq<AlgorithmModel>,
) -> Result<Seq<AlgorithmModel>, Fault>
    decreases limit - i,
{
    match der::tagged_at(s, i, limit, SEQUENCE) {
        Ok(Some(v)) => match algorithm_of(s, v) {
            Ok(a) => if i < v.end <= limit {
                algorithms_from(s, v.end, limit, seen.push(a))
            } else {
                der::fault(Reason::TrailingData, i)
            },
            Err(f) => Err(f),
        },
        Ok(None) => if i == limit {
            Ok(seen)
        } else {
            der::fault(Reason::TrailingData, i)
        },
        Err(f) => Err(f),
    }
}

/// The set of algorithms at `i`, with the place behind it.
pub open spec fn algorithm_set_at(s: Seq<u8>, i: int, limit: int) -> Result<(int, Seq<AlgorithmModel>), Fault> {
    match der::needed_at(s, i, limit, SET) {
        Ok(v) => match algorithms_from(s, v.start, v.end, Seq::empty()) {
            Ok(algorithms) => Ok((v.end, algorithms)),
            Err(f) => Err(f),
        },
        Err(f) => Err(f),
    }
}

/// Content of a type that an object identifier names, with the octets that encode it and the place
/// where they stood.
#[derive(Debug)]
pub struct ContentInfo {
    pub content_type: Vec<u8>,
    pub content: Vec<u8>,
    pub start: usize,
}

/// What a [`ContentInfo`] holds.
pub struct ContentModel {
    pub content_type: Seq<u8>,
    pub content: Seq<u8>,
    pub start: int,
}

impl View for ContentInfo {
    type V = ContentModel;

    open spec fn view(&self) -> ContentModel {
        ContentModel { content_type: self.content_type@, content: self.content@, start: self.start as int }
    }
}

/// The content that a sequence stands for: an object identifier and values tagged `[0]`.
pub open spec fn content_of(s: Seq<u8>, v: Value) -> Result<ContentModel, Fault> {
    match der::identifier_at(s, v.start, v.end) {
        Ok((i, content_type)) => match der::needed_at(s, i, v.end, CONSTRUCTED_0) {
            Ok(c) => match der::values_fill(s, c.start, c.end, c.start) {
                Ok(_) => match der::ends_at(v, c.end) {
                    Ok(_) => Ok(ContentModel { content_type, content: der::content(s, c), start: c.start }),
                    Err(f) => Err(f),
                },
                Err(f) => Err(f),
            },
            Err(f) => Err(f),
        },
        Err(f) => Err(f),
    }
}

/// The content that was signed, unless it is kept elsewhere.
#[derive(Debug)]
pub struct EncapsulatedContentInfo {
    pub content_type: Vec<u8>,
    pub content: Option<Vec<u8>>,
}

/// What an [`EncapsulatedContentInfo`] holds.
pub struct EncapsulatedModel {
    pub content_type: Seq<u8>,
    pub content: Option<Seq<u8>>,
}

impl View for EncapsulatedContentInfo {
    type V = EncapsulatedModel;

    open spec fn view(&self) -> EncapsulatedModel {
        EncapsulatedModel { content_type: self.content_type@, content: der::optional_octets(self.content) }
    }
}

/// The signed content that a sequence stands for: an object identifier and an octet string inside a
/// value tagged `[0]`, which may be missing.
pub open spec fn encapsulated_of(s: Seq<u8>, v: Value) -> Result<EncapsulatedModel, Fault> {
    match der::identifier_at(s, v.start, v.end) {
        Ok((i, content_type)) => match der::tagged_at(s, i, v.end, CONSTRUCTED_0) {
            Ok(Some(e)) => match der::octet_string_at(s, e.start, e.end, e.start) {
                Ok((j, octets)) => match der::ends_at(e, j) {
                    Ok(_) => match der::ends_at(v, e.end) {
                        Ok(_) => Ok(EncapsulatedModel { content_type, content: Some(octets) }),
                        Err(f) => Err(f),
                    },
                    Err(f) => Err(f),
                },
                Err(f) => Err(f),
            },
            Ok(None) => match der::ends_at(v, i) {
                Ok(_) => Ok(EncapsulatedModel { content_type, content: None }),
                Err(f) => Err(f),
            },
            Err(f) => Err(f),
        },
        Err(f) => Err(f),
    }
}

/// The signed content at `i`, with the place behind it.
pub open spec fn encapsulated_at(s: Seq<u8>, i: int, limit: int) -> Result<(int, EncapsulatedModel), Fault> {
    match der::needed_at(s, i, limit, SEQUENCE) {
        Ok(v) => match encapsulated_of(s, v) {
            Ok(c) => Ok((v.end, c)),
            Err(f) => Err(f),
        },
        Err(f) => Err(f),
    }
}

/// One signer: who it is, the algorithms, the signature, and the attributes as they are encoded.
#[derive(Debug)]
pub struct SignerInfo {
    pub version: u8,
    pub sid: Vec<u8>,
    pub digest_algorithm: AlgorithmIdentifier,
    pub signed_attributes: Option<Vec<u8>>,
    pub signature_algorithm: AlgorithmIdentifier,
    pub signature: Vec<u8>,
    pub unsigned_attributes: Option<Vec<u8>>,
}

/// What a [`SignerInfo`] holds.
pub struct SignerModel {
    pub version: u8,
    pub sid: Seq<u8>,
    pub digest_algorithm: AlgorithmModel,
    pub signed_attributes: Option<Seq<u8>>,
    pub signature_algorithm: AlgorithmModel,
    pub signature: Seq<u8>,
    pub unsigned_attributes: Option<Seq<u8>>,
}

impl View for SignerInfo {
    type V = SignerModel;

    open spec fn view(&self) -> SignerModel {
        SignerModel {
            version: self.version,
            sid: self.sid@,
            digest_algorithm: self.digest_algorithm@,
            signed_attributes: der::optional_octets(self.signed_attributes),
            signature_algorithm: self.signature_algorithm@,
            signature: self.signature@,
            unsigned_attributes: der::optional_octets(self.unsigned_attributes),
        }
    }
}

/// What a list of signers holds.
pub open spec fn signer_models(signers: Seq<SignerInfo>) -> Seq<SignerModel> {
    signers.map_values(|s: SignerInfo| s@)
}

/// The number below 256 that a value stands for.
pub open spec fn small_number_of(s: Seq<u8>, v: Value) -> Result<u8, Fault> {
    let len = v.end - v.start;
    let there = der::readable(s, v.end) - v.start;
    let first = s[v.start];
    if there <= 0 {
        der::fault(Reason::InvalidInteger, v.start)
    } else if there >= 2 && first == 0x00 && s[v.start + 1] < 0x80 {
        der::fault(Reason::InvalidInteger, v.start)
    } else if first >= 0x80 {
        der::fault(Reason::InvalidInteger, v.start)
    } else if len == 1 {
        Ok(first)
    } else if len != 2 {
        der::fault(Reason::InvalidInteger, v.start)
    } else if first != 0x00 {
        der::fault(Reason::InvalidInteger, v.start + 1)
    } else if there < 2 {
        der::fault(Reason::EndOfData, v.start + 1)
    } else {
        Ok(s[v.start + 1])
    }
}

/// The number below 256 at `i`, with the place behind it.
pub open spec fn small_number_at(s: Seq<u8>, i: int, limit: int) -> Result<(int, u8), Fault> {
    match der::needed_at(s, i, limit, INTEGER) {
        Ok(v) => match small_number_of(s, v) {
            Ok(n) => Ok((v.end, n)),
            Err(f) => Err(f),
        },
        Err(f) => Err(f),
    }
}

/// The version number, from 0 to 5, that the content at `i` begins with, and the place behind it.
pub open spec fn version_at(s: Seq<u8>, i: int, limit: int) -> Result<(int, u8), Fault> {
    match small_number_at(s, i, limit) {
        Ok((j, n)) => if n <= 5 {
            Ok((j, n))
        } else {
            der::fault(Reason::UnknownVersion, i)
        },
        Err(f) => Err(f),
    }
}

/// The place behind the value at `i` that says who a signer is: an issuer with a serial number, or
/// a key identifier tagged `[0]`.
pub open spec fn signer_name_end(s: Seq<u8>, i: int, limit: int) -> Result<int, Fault> {
    match der::tagged_at(s, i, limit, SEQUENCE) {
        Ok(Some(v)) => match der::values_fill(s, v.start, v.end, v.start) {
            Ok(_) => Ok(v.end),
            Err(f) => Err(f),
        },
        Ok(None) => match der::needed_at(s, i, limit, PRIMITIVE_0) {
            Ok(v) => match der::octets_of(s, v) {
                Ok(_) => Ok(v.end),
                Err(f) => Err(f),
            },
            Err(f) => Err(f),
        },
        Err(f) => Err(f),
    }
}

/// The signer that a sequence stands for: a version, the signer's name, the digest algorithm,
/// signed attributes tagged `[0]`, which may be missing, the signature algorithm, the signature,
/// and attributes tagged `[1]`, which may be missing.
pub open spec fn signer_of(s: Seq<u8>, v: Value) -> Result<SignerModel, Fault> {
    match version_at(s, v.start, v.end) {
        Ok((at_name, version)) => match signer_name_end(s, at_name, v.end) {
            Ok(at_digest) => match algorithm_at(s, at_digest, v.end) {
                Ok((at_signed, digest_algorithm)) => match der::captured_at(s, at_signed, v.end, CONSTRUCTED_0) {
                    Ok((at_algorithm, signed_attributes)) => match algorithm_at(s, at_algorithm, v.end) {
                        Ok((at_signature, signature_algorithm)) => match der::octet_string_at(
                            s,
                            at_signature,
                            v.end,
                            v.start,
                        ) {
                            Ok((at_unsigned, signature)) => match der::captured_at(
                                s,
                                at_unsigned,
                                v.end,
                                CONSTRUCTED_1,
                            ) {
                                Ok((end, unsigned_attributes)) => match der::ends_at(v, end) {
                                    Ok(_) => Ok(
                                        SignerModel {
                                            version,
                                            sid: s.subrange(at_name, at_digest),
                                            digest_algorithm,
                                            signed_attributes,
                                            signature_algorithm,
                                            signature,
                                            unsigned_attributes,
                                        },
                                    ),
                                    Err(f) => Err(f),
                                },
                                Err(f) => Err(f),
                            },
                            Err(f) => Err(f),
                        },
                        Err(f) => Err(f),
                    },
                    Err(f) => Err(f),
                },
                Err(f) => Err(f),
            },
            Err(f) => Err(f),
        },
        Err(f) => Err(f),
    }
}

/// The signers that the values from `i` up to the limit stand for, after those already seen.
pub open spec fn signers_from(
    s: Seq<u8>,
    i: int,
    limit: int,
    seen: Seq<SignerModel>,
) -> Result<Seq<SignerModel>, Fault>
    decreases limit - i,
{
    match der::tagged_at(s, i, limit, SEQUENCE) {
        Ok(Some(v)) => match signer_of(s, v) {
            Ok(signer) => if i < v.end <= limit {
                signers_from(s, v.end, limit, seen.push(signer))
            } else {
                der::fault(Reason::TrailingData, i)
            },
            Err(f) => Err(f),
        },
        Ok(None) => if i == limit {
            Ok(seen)
        } else {
            der::fault(Reason::TrailingData, i)
        },
        Err(f) => Err(f),
    }
}

/// The set of signers at `i`, with the place behind it.
pub open spec fn signer_set_at(s: Seq<u8>, i: int, limit: int) -> Result<(int, Seq<SignerModel>), Fault> {
    match der::needed_at(s, i, limit, SET) {
        Ok(v) => match signers_from(s, v.start, v.end, Seq::empty()) {
            Ok(signers) => Ok((v.end, signers)),
            Err(f) => Err(f),
        },
        Err(f) => Err(f),
    }
}

/// Signed content, with certificates and revocation lists as they are encoded.
#[derive(Debug)]
pub struct SignedData {
    pub version: u8,
    pub digest_algorithms: Vec<AlgorithmIdentifier>,
    pub content_info: EncapsulatedContentInfo,
    pub certificates: Option<Vec<u8>>,
    pub crls: Option<Vec<u8>>,
    pub signer_infos: Vec<SignerInfo>,
}

/// What a [`SignedData`] holds.
pub struct SignedDataModel {
    pub version: u8,
    pub digest_algorithms: Seq<AlgorithmModel>,
    pub content_info: EncapsulatedModel,
    pub certificates: Option<Seq<u8>>,
    pub crls: Option<Seq<u8>>,
    pub signer_infos: Seq<SignerModel>,
}

impl View for SignedData {
    type V = SignedDataModel;

    open spec fn view(&self) -> SignedDataModel {
        SignedDataModel {
            version: self.version,
            digest_algorithms: algorithm_models(self.digest_algorithms@),
            content_info: self.content_info@,
            certificates: der::optional_octets(self.certificates),
            crls: der::optional_octets(self.crls),
            signer_infos: signer_models(self.signer_infos@),
        }
    }
}

/// The signed data that a sequence stands for: a version, the digest algorithms, the content,
/// certificates tagged `[0]` and revocation lists tagged `[1]`, both of which may be missing, and
/// the signers.
pub open spec fn signed_data_of(s: Seq<u8>, v: Value) -> Result<SignedDataModel, Fault> {
    match version_at(s, v.start, v.end) {
        Ok((at_digests, version)) => match algorithm_set_at(s, at_digests, v.end) {
            Ok((at_content, digest_algorithms)) => match encapsulated_at(s, at_content, v.end) {
                Ok((at_certificates, content_info)) => match der::captured_at(
                    s,
                    at_certificates,
                    v.end,
                    CONSTRUCTED_0,
                ) {
                    Ok((at_crls, certificates)) => match der::captured_at(s, at_crls, v.end, CONSTRUCTED_1) {
                        Ok((at_signers, crls)) => match signer_set_at(s, at_signers, v.end) {
                            Ok((end, signer_infos)) => match der::ends_at(v, end) {
                                Ok(_) => Ok(
                                    SignedDataModel {
                                        version,
                                        digest_algorithms,
                                        content_info,
                                        certificates,
                                        crls,
                                        signer_infos,
                                    },
                                ),
                                Err(f) => Err(f),
                            },
                            Err(f) => Err(f),
                        },
                        Err(f) => Err(f),
                    },
                    Err(f) => Err(f),
                },
                Err(f) => Err(f),
            },
            Err(f) => Err(f),
        },
        Err(f) => Err(f),
    }
}

/// The signed data at the beginning of the octets. What follows it is ignored.
pub open spec fn signed_data_in(s: Seq<u8>) -> Result<SignedDataModel, Fault> {
    match der::needed_at(s, 0, der::no_limit(s), SEQUENCE) {
        Ok(v) => signed_data_of(s, v),
        Err(f) => Err(f),
    }
}

/// Reads the algorithm that a sequence stands for.
fn read_algorithm_of(data: &[u8], v: ReadValue) -> (res: Result<AlgorithmIdentifier, DecodeError>)
    requires
        v.fits(data@),
    ensures
        match res {
            Ok(x) => algorithm_of(data@, v@) matches Ok(m) && m == x@ && v.end <= data@.len() && v.end <= usize::MAX,
            Err(e) => algorithm_of(data@, v@) matches Err(f) && f == e@ && f.position <= data@.len(),
        },
{
    let (algorithm, i) = match read_identifier(data, v.start, v.end) {
        Ok(found) => found,
        Err(e) => {
            return Err(e);
        },
    };
    if let Err(e) = check_values(data, i, v.end) {
        return Err(e);
    }
    let end: usize = v.end as usize;
    let parameters: Option<Vec<u8>> = if i == end {
        None
    } else {
        Some(copy_bytes(data, i, end))
    };
    Ok(AlgorithmIdentifier { algorithm, parameters })
}

/// Reads the algorithm at `i`. Gives it with the place behind it.
pub(crate) fn read_algorithm(data: &[u8], i: usize, limit: u128) -> (res: Result<(AlgorithmIdentifier, usize), DecodeError>)
    requires
        i <= limit,
        i <= data@.len(),
        limit <= der::no_limit(data@),
    ensures
        match res {
            Ok((x, next)) => {
                &&& algorithm_at(data@, i as int, limit as int) matches Ok((at, m))
                &&& m == x@
                &&& at == next
                &&& i < next <= limit
                &&& next <= data@.len()
            },
            Err(e) => algorithm_at(data@, i as int, limit as int) matches Err(f) && f == e@ && f.position <= data@.len(),
        },
{
    let v = match read_needed(data, i, limit, SEQUENCE) {
        Ok(found) => found,
        Err(e) => {
            return Err(e);
        },
    };
    let a = match read_algorithm_of(data, v) {
        Ok(found) => found,
        Err(e) => {
            return Err(e);
        },
    };
    Ok((a, v.end as usize))
}

/// Reads the set of algorithms at `i`. Gives it with the place behind it.
fn read_algorithm_set(data: &[u8], i: usize, limit: u128) -> (res: Result<(Vec<AlgorithmIdentifier>, usize), DecodeError>)
    requires
        i <= limit,
        i <= data@.len(),
        limit <= der::no_limit(data@),
    ensures
        match res {
            Ok((x, next)) => {
                &&& algorithm_set_at(data@, i as int, limit as int) matches Ok((at, m))
                &&& m == algorithm_models(x@)
                &&& at == next
                &&& i < next <= limit
                &&& next <= data@.len()
            },
            Err(e) => algorithm_set_at(data@, i as int, limit as int) matches Err(f) && f == e@ && f.position
                <= data@.len(),
        },
{
    let v = match read_needed(data, i, limit, SET) {
        Ok(found) => found,
        Err(e) => {
            return Err(e);
        },
    };
    let mut list: Vec<AlgorithmIdentifier> = Vec::new();
    let mut at: usize = v.start;
    assert(algorithm_models(list@) =~= Seq::empty());
    loop
        invariant
            v.start <= at <= data@.len(),
            at <= v.end <= limit <= der::no_limit(data@),
            i < v.start,
            der::needed_at(data@, i as int, limit as int, SET) matches Ok(w) && w == v@,
            algorithms_from(data@, v.start as int, v.end as int, Seq::empty()) == algorithms_from(
                data@,
                at as int,
                v.end as int,
                algorithm_models(list@),
            ),
        decreases data@.len() - at,
    {
        match read_tagged(data, at, v.end, SEQUENCE) {
            Ok(Some(found)) => {
                match read_algorithm_of(data, found) {
                    Ok(x) => {
                        let ghost seen = list@;
                        let ghost model = x@;
                        list.push(x);
                        at = found.end as usize;
                        assert(algorithm_models(list@) =~= algorithm_models(seen).push(model));
                    },
                    Err(e) => {
                        return Err(e);
                    },
                }
            },
            Ok(None) => {
                if at as u128 != v.end {
                    return failed(Reason::TrailingData, at);
                }
                return Ok((list, at));
            },
            Err(e) => {
                return Err(e);
            },
        }
    }
}

/// Reads the content that a sequence stands for.
pub(crate) fn read_content_info(data: &[u8], v: ReadValue) -> (res: Result<ContentInfo, DecodeError>)
    requires
        v.fits(data@),
    ensures
        match res {
            Ok(x) => content_of(data@, v@) matches Ok(m) && m == x@ && v.end <= data@.len() && v.end <= usize::MAX,
            Err(e) => content_of(data@, v@) matches Err(f) && f == e@ && f.position <= data@.len(),
        },
{
    let (content_type, i) = match read_identifier(data, v.start, v.end) {
        Ok(found) => found,
        Err(e) => {
            return Err(e);
        },
    };
    let c = match read_needed(data, i, v.end, CONSTRUCTED_0) {
        Ok(found) => found,
        Err(e) => {
            return Err(e);
        },
    };
    if let Err(e) = check_values(data, c.start, c.end) {
        return Err(e);
    }
    let end: usize = c.end as usize;
    if let Err(e) = v.check_end(end) {
        return Err(e);
    }
    Ok(ContentInfo { content_type, content: copy_bytes(data, c.start, end), start: c.start })
}

/// Reads the signed content that a sequence stands for.
fn read_encapsulated_of(data: &[u8], v: ReadValue) -> (res: Result<EncapsulatedContentInfo, DecodeError>)
    requires
        v.fits(data@),
    ensures
        match res {
            Ok(x) => encapsulated_of(data@, v@) matches Ok(m) && m == x@ && v.end <= data@.len() && v.end <= usize::MAX,
            Err(e) => encapsulated_of(data@, v@) matches Err(f) && f == e@ && f.position <= data@.len(),
        },
{
    let (content_type, i) = match read_identifier(data, v.start, v.end) {
        Ok(found) => found,
        Err(e) => {
            return Err(e);
        },
    };
    match read_tagged(data, i, v.end, CONSTRUCTED_0) {
        Ok(Some(e)) => {
            let (octets, j) = match read_octet_string(data, e.start, e.end, e.start) {
                Ok(found) => found,
                Err(e) => {
                    return Err(e);
                },
            };
            if let Err(e) = e.check_end(j) {
                return Err(e);
            }
            if let Err(e) = v.check_end(j) {
                return Err(e);
            }
            Ok(EncapsulatedContentInfo { content_type, content: Some(octets) })
        },
        Ok(None) => {
            if let Err(e) = v.check_end(i) {
                return Err(e);
            }
            Ok(EncapsulatedContentInfo { content_type, content: None })
        },
        Err(e) => Err(e),
    }
}

/// Reads the signed content at `i`. Gives it with the place behind it.
fn read_encapsulated(data: &[u8], i: usize, limit: u128) -> (res: Result<(EncapsulatedContentInfo, usize), DecodeError>)
    requires
        i <= limit,
        i <= data@.len(),
        limit <= der::no_limit(data@),
    ensures
        match res {
            Ok((x, next)) => {
                &&& encapsulated_at(data@, i as int, limit as int) matches Ok((at, m))
                &&& m == x@
                &&& at == next
                &&& i < next <= limit
                &&& next <= data@.len()
            },
            Err(e) => encapsulated_at(data@, i as int, limit as int) matches Err(f) && f == e@ && f.position <= data@.len(),
        },
{
    let v = match read_needed(data, i, limit, SEQUENCE) {
        Ok(found) => found,
        Err(e) => {
            return Err(e);
        },
    };
    let c = match read_encapsulated_of(data, v) {
        Ok(found) => found,
        Err(e) => {
            return Err(e);
        },
    };
    Ok((c, v.end as usize))
}

/// Reads the number below 256 at `i`. Gives it with the place behind it.
pub(crate) fn read_small_number(data: &[u8], i: usize, limit: u128) -> (res: Result<(u8, usize), DecodeError>)
    requires
        i <= limit,
        i <= data@.len(),
        limit <= der::no_limit(data@),
    ensures
        match res {
            Ok((x, next)) => {
                &&& small_number_at(data@, i as int, limit as int) matches Ok((at, m))
                &&& m == x
                &&& at == next
                &&& i < next <= limit
                &&& next <= data@.len()
            },
            Err(e) => small_number_at(data@, i as int, limit as int) matches Err(f) && f == e@ && f.position
                <= data@.len(),
        },
{
    let v = match read_needed(data, i, limit, INTEGER) {
        Ok(found) => found,
        Err(e) => {
            return Err(e);
        },
    };
    let n: usize = data.len();
    if v.start as u128 == v.end || v.start == n {
        return failed(Reason::InvalidInteger, v.start);
    }
    let len: u128 = v.end - v.start as u128;
    let first: u8 = data[v.start];
    let two: bool = len >= 2 && n - v.start >= 2;
    if two && first == 0x00 && data[v.start + 1] < 0x80 {
        return failed(Reason::InvalidInteger, v.start);
    }
    if first >= 0x80 {
        return failed(Reason::InvalidInteger, v.start);
    }
    if len == 1 {
        return Ok((first, v.start + 1));
    }
    if len != 2 {
        return failed(Reason::InvalidInteger, v.start);
    }
    if first != 0x00 {
        return failed(Reason::InvalidInteger, v.start + 1);
    }
    if !two {
        return failed(Reason::EndOfData, v.start + 1);
    }
    Ok((data[v.start + 1], v.start + 2))
}

/// Reads the version number that the content at `i` begins with. Gives it with the place behind it.
fn read_version(data: &[u8], i: usize, limit: u128) -> (res: Result<(u8, usize), DecodeError>)
    requires
        i <= limit,
        i <= data@.len(),
        limit <= der::no_limit(data@),
    ensures
        match res {
            Ok((x, next)) => {
                &&& version_at(data@, i as int, limit as int) matches Ok((at, m))
                &&& m == x
                &&& at == next
                &&& i < next <= limit
                &&& next <= data@.len()
            },
            Err(e) => version_at(data@, i as int, limit as int) matches Err(f) && f == e@ && f.position <= data@.len(),
        },
{
    let (n, next) = match read_small_number(data, i, limit) {
        Ok(found) => found,
        Err(e) => {
            return Err(e);
        },
    };
    if n > 5 {
        return failed(Reason::UnknownVersion, i);
    }
    Ok((n, next))
}

/// Reads the name of a signer at `i`. Gives the place behind it.
fn read_signer_name(data: &[u8], i: usize, limit: u128) -> (res: Result<usize, DecodeError>)
    requires
        i <= limit,
        i <= data@.len(),
        limit <= der::no_limit(data@),
    ensures
        match res {
            Ok(next) => signer_name_end(data@, i as int, limit as int) matches Ok(at) && at == next && i < next <= limit
                && next <= data@.len(),
            Err(e) => signer_name_end(data@, i as int, limit as int) matches Err(f) && f == e@ && f.position
                <= data@.len(),
        },
{
    match read_tagged(data, i, limit, SEQUENCE) {
        Ok(Some(v)) => {
            if let Err(e) = check_values(data, v.start, v.end) {
                return Err(e);
            }
            Ok(v.end as usize)
        },
        Ok(None) => {
            let v = match read_needed(data, i, limit, PRIMITIVE_0) {
                Ok(found) => found,
                Err(e) => {
                    return Err(e);
                },
            };
            if let Err(e) = v.octets(data) {
                return Err(e);
            }
            Ok(v.end as usize)
        },
        Err(e) => Err(e),
    }
}

/// Reads the signer that a sequence stands for.
fn read_signer(data: &[u8], v: ReadValue) -> (res: Result<SignerInfo, DecodeError>)
    requires
        v.fits(data@),
    ensures
        match res {
            Ok(x) => signer_of(data@, v@) matches Ok(m) && m == x@ && v.end <= data@.len() && v.end <= usize::MAX,
            Err(e) => signer_of(data@, v@) matches Err(f) && f == e@ && f.position <= data@.len(),
        },
{
    let (version, at_name) = match read_version(data, v.start, v.end) {
        Ok(found) => found,
        Err(e) => {
            return Err(e);
        },
    };
    let at_digest = match read_signer_name(data, at_name, v.end) {
        Ok(found) => found,
        Err(e) => {
            return Err(e);
        },
    };
    let (digest_algorithm, at_signed) = match read_algorithm(data, at_digest, v.end) {
        Ok(found) => found,
        Err(e) => {
            return Err(e);
        },
    };
    let (signed_attributes, at_algorithm) = match read_captured(data, at_signed, v.end, CONSTRUCTED_0) {
        Ok(found) => found,
        Err(e) => {
            return Err(e);
        },
    };
    let (signature_algorithm, at_signature) = match read_algorithm(data, at_algorithm, v.end) {
        Ok(found) => found,
        Err(e) => {
            return Err(e);
        },
    };
    let (signature, at_unsigned) = match read_octet_string(data, at_signature, v.end, v.start) {
        Ok(found) => found,
        Err(e) => {
            return Err(e);
        },
    };
    let (unsigned_attributes, end) = match read_captured(data, at_unsigned, v.end, CONSTRUCTED_1) {
        Ok(found) => found,
        Err(e) => {
            return Err(e);
        },
    };
    if let Err(e) = v.check_end(end) {
        return Err(e);
    }
    Ok(
        SignerInfo {
            version,
            sid: copy_bytes(data, at_name, at_digest),
            digest_algorithm,
            signed_attributes,
            signature_algorithm,
            signature,
            unsigned_attributes,
        },
    )
}

/// Reads the set of signers at `i`. Gives it with the place behind it.
fn read_signer_set(data: &[u8], i: usize, limit: u128) -> (res: Result<(Vec<SignerInfo>, usize), DecodeError>)
    requires
        i <= limit,
        i <= data@.len(),
        limit <= der::no_limit(data@),
    ensures
        match res {
            Ok((x, next)) => {
                &&& signer_set_at(data@, i as int, limit as int) matches Ok((at, m))
                &&& m == signer_models(x@)
                &&& at == next
                &&& i < next <= limit
                &&& next <= data@.len()
            },
            Err(e) => signer_set_at(data@, i as int, limit as int) matches Err(f) && f == e@ && f.position <= data@.len(),
        },
{
    let v = match read_needed(data, i, limit, SET) {
        Ok(found) => found,
        Err(e) => {
            return Err(e);
        },
    };
    let mut list: Vec<SignerInfo> = Vec::new();
    let mut at: usize = v.start;
    assert(signer_models(list@) =~= Seq::empty());
    loop
        invariant
            v.start <= at <= data@.len(),
            at <= v.end <= limit <= der::no_limit(data@),
            i < v.start,
            der::needed_at(data@, i as int, limit as int, SET) matches Ok(w) && w == v@,
            signers_from(data@, v.start as int, v.end as int, Seq::empty()) == signers_from(
                data@,
                at as int,
                v.end as int,
                signer_models(list@),
            ),
        decreases data@.len() - at,
    {
        match read_tagged(data, at, v.end, SEQUENCE) {
            Ok(Some(found)) => {
                match read_signer(data, found) {
                    Ok(x) => {
                        let ghost seen = list@;
                        let ghost model = x@;
                        list.push(x);
                        at = found.end as usize;
                        assert(signer_models(list@) =~= signer_models(seen).push(model));
                    },
                    Err(e) => {
                        return Err(e);
                    },
                }
            },
            Ok(None) => {
                if at as u128 != v.end {
                    return failed(Reason::TrailingData, at);
                }
                return Ok((list, at));
            },
            Err(e) => {
                return Err(e);
            },
        }
    }
}

impl SignedData {
    /// Reads the signed data at the beginning of the octets. What follows it is ignored.
    pub fn decode(data: &[u8]) -> (res: Result<SignedData, DecodeError>)
        ensures
            match res {
                Ok(signed) => signed_data_in(data@) matches Ok(m) && m == signed@,
                Err(e) => signed_data_in(data@) matches Err(f) && f == e@ && f.position <= data@.len(),
            },
    {
        let v = match read_needed(data, 0, unlimited(data), SEQUENCE) {
            Ok(found) => found,
            Err(e) => {
                return Err(e);
            },
        };
        let (version, at_digests) = match read_version(data, v.start, v.end) {
            Ok(found) => found,
            Err(e) => {
                return Err(e);
            },
        };
        let (digest_algorithms, at_content) = match read_algorithm_set(data, at_digests, v.end) {
            Ok(found) => found,
            Err(e) => {
                return Err(e);
            },
        };
        let (content_info, at_certificates) = match read_encapsulated(data, at_content, v.end) {
            Ok(found) => found,
            Err(e) => {
                return Err(e);
            },
        };
        let (certificates, at_crls) = match read_captured(data, at_certificates, v.end, CONSTRUCTED_0) {
            Ok(found) => found,
            Err(e) => {
                return Err(e);
            },
        };
        let (crls, at_signers) = match read_captured(data, at_crls, v.end, CONSTRUCTED_1) {
            Ok(found) => found,
            Err(e) => {
                return Err(e);
            },
        };
        let (signer_infos, end) = match read_signer_set(data, at_signers, v.end) {
            Ok(found) => found,
            Err(e) => {
                return Err(e);
            },
        };
        if let Err(e) = v.check_end(end) {
            return Err(e);
        }
        Ok(SignedData { version, digest_algorithms, content_info, certificates, crls, signer_infos })
    }
}

} // verus!
