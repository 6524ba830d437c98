//! The client's side of the Time-Stamp Protocol: what is sent to a server, and what is made of its
//! reply.

use std::ops::Deref;

use vstd::prelude::*;
use vstd::utf8;

use crate::der;
use crate::der::{DecodeError, Fault, Reason, SEQUENCE};
use crate::forms;
use crate::integer;
use crate::integer::{same_octets, Integer};
use crate::rfc3161;
use crate::rfc3161::{
    ImprintModel, MessageImprint, PkiStatus, RequestModel, ResponseModel, StatusModel, TimeStampReq, TimeStampResp,
    TstInfo, TstModel, OID_CONTENT_TYPE_TST_INFO,
};
use crate::rfc5652;
use crate::rfc5652::{AlgorithmIdentifier, AlgorithmModel, ContentModel, SignedData, SignedDataModel, OID_ID_SIGNED_DATA};
use crate::text;

verus! {

pub const HTTP_CONTENT_TYPE_REQUEST: &'static str = "application/timestamp-query";

pub const HTTP_CONTENT_TYPE_RESPONSE: &'static str = "application/timestamp-reply";

/// What went wrong in a time-stamp request. What other libraries say is kept as text.
#[derive(Debug)]
pub enum TimeStampError {
    Io(String),
    Isahc(String),
    Reqwest(String),
    Ureq(String),
    Asn1Decode(DecodeError),
    Http(String),
    Random,
    NonceMismatch,
    Unsuccessful(TimeStampResp),
    BadResponse,
}

/// What a [`TimeStampError`] says.
pub enum ErrorModel {
    Io(Seq<char>),
    Isahc(Seq<char>),
    Reqwest(Seq<char>),
    Ureq(Seq<char>),
    Asn1Decode(Fault),
    Http(Seq<char>),
    Random,
    NonceMismatch,
    Unsuccessful(ResponseModel),
    BadResponse,
}

impl View for TimeStampError {
    type V = ErrorModel;

    open spec fn view(&self) -> ErrorModel {
        match *self {
            TimeStampError::Io(text) => ErrorModel::Io(text@),
            TimeStampError::Isahc(text) => ErrorModel::Isahc(text@),
            TimeStampError::Reqwest(text) => ErrorModel::Reqwest(text@),
            TimeStampError::Ureq(text) => ErrorModel::Ureq(text@),
            TimeStampError::Asn1Decode(error) => ErrorModel::Asn1Decode(error@),
            TimeStampError::Http(text) => ErrorModel::Http(text@),
            TimeStampError::Random => ErrorModel::Random,
            TimeStampError::NonceMismatch => ErrorModel::NonceMismatch,
            TimeStampError::Unsuccessful(response) => ErrorModel::Unsuccessful(response@),
            TimeStampError::BadResponse => ErrorModel::BadResponse,
        }
    }
}

impl From<DecodeError> for TimeStampError {
    fn from(error: DecodeError) -> (res: TimeStampError) {
        TimeStampError::Asn1Decode(error)
    }
}

impl vstd::std_specs::convert::FromSpecImpl<DecodeError> for TimeStampError {
    open spec fn obeys_from_spec() -> bool {
        true
    }

    open spec fn from_spec(error: DecodeError) -> TimeStampError {
        TimeStampError::Asn1Decode(error)
    }
}

/// A high-level interface to the response to a time-stamp request.
#[derive(Debug)]
pub struct TimeStampResponse(TimeStampResp);

impl View for TimeStampResponse {
    type V = ResponseModel;

    closed spec fn view(&self) -> ResponseModel {
        self.0@
    }
}

impl Deref for TimeStampResponse {
    type Target = TimeStampResp;

    fn deref(&self) -> (res: &TimeStampResp)
        ensures
            res@ == self@,
    {
        &self.0
    }
}

/// Whether a server granted what was asked for.
pub open spec fn is_granted(r: ResponseModel) -> bool {
    r.status.status == PkiStatus::Granted || r.status.status == PkiStatus::GrantedWithMods
}

/// The signed data in a response: none if there is no token, and a fault if the token holds content
/// of another type or is malformed.
pub open spec fn signed_data_of(r: ResponseModel) -> Result<Option<SignedDataModel>, Fault> {
    match r.time_stamp_token {
        Some(token) => if token.content_type == OID_ID_SIGNED_DATA@ {
            match rfc5652::signed_data_in(token.content) {
                Ok(signed) => Ok(Some(signed)),
                Err(f) => Err(f),
            }
        } else {
            der::fault(Reason::NotSignedData, token.start)
        },
        None => Ok(None),
    }
}

/// The information in a response's token: none if there is no signed data, if it is of another
/// type, or if the data do not hold it.
pub open spec fn tst_info_of(r: ResponseModel) -> Result<Option<TstModel>, Fault> {
    match signed_data_of(r) {
        Ok(Some(signed)) => if signed.content_info.content_type == OID_CONTENT_TYPE_TST_INFO@ {
            match signed.content_info.content {
                Some(content) => match rfc3161::tst_info_in(content) {
                    Ok(info) => Ok(Some(info)),
                    Err(f) => Err(f),
                },
                None => Ok(None),
            }
        } else {
            Ok(None)
        },
        Ok(None) => Ok(None),
        Err(f) => Err(f),
    }
}

/// What decoding signed data gave.
pub open spec fn signed_model(res: Result<Option<SignedData>, DecodeError>) -> Result<
    Option<SignedDataModel>,
    Fault,
> {
    match res {
        Ok(Some(signed)) => Ok(Some(signed@)),
        Ok(None) => Ok(None),
        Err(error) => Err(error@),
    }
}

/// What decoding a token's information gave.
pub open spec fn tst_model(res: Result<Option<TstInfo>, DecodeError>) -> Result<Option<TstModel>, Fault> {
    match res {
        Ok(Some(info)) => Ok(Some(info@)),
        Ok(None) => Ok(None),
        Err(error) => Err(error@),
    }
}

impl TimeStampResponse {
    /// Whether the time-stamp request was successful.
    pub fn is_success(&self) -> (res: bool)
        ensures
            res == is_granted(self@),
    {
        match self.0.status.status {
            PkiStatus::Granted => true,
            PkiStatus::GrantedWithMods => true,
            _ => false,
        }
    }

    /// The size of the time-stamp token's data.
    pub fn token_content_size(&self) -> (res: Option<usize>)
        ensures
            match self@.time_stamp_token {
                Some(token) => res matches Some(size) && size == token.content.len(),
                None => res is None,
            },
    {
        match &self.0.time_stamp_token {
            Some(token) => Some(token.content.len()),
            None => None,
        }
    }

    /// Decodes the signed data in the response.
    pub fn signed_data(&self) -> (res: Result<Option<SignedData>, DecodeError>)
        ensures
            signed_model(res) == signed_data_of(self@),
    {
        match &self.0.time_stamp_token {
            Some(token) => {
                if same_octets(token.content_type.as_slice(), &OID_ID_SIGNED_DATA) {
                    match SignedData::decode(token.content.as_slice()) {
                        Ok(signed) => Ok(Some(signed)),
                        Err(e) => Err(e),
                    }
                } else {
                    der::failed(Reason::NotSignedData, token.start)
                }
            },
            None => Ok(None),
        }
    }

    /// Decodes the information that the token in the response carries.
    pub fn tst_info(&self) -> (res: Result<Option<TstInfo>, DecodeError>)
        ensures
            tst_model(res) == tst_info_of(self@),
    {
        match self.signed_data() {
            Ok(Some(signed)) => {
                if !same_octets(signed.content_info.content_type.as_slice(), &OID_CONTENT_TYPE_TST_INFO) {
                    return Ok(None);
                }
                match &signed.content_info.content {
                    Some(content) => {
                        match TstInfo::decode(content.as_slice()) {
                            Ok(info) => Ok(Some(info)),
                            Err(e) => Err(e),
                        }
                    },
                    None => Ok(None),
                }
            },
            Ok(None) => Ok(None),
            Err(error) => Err(error),
        }
    }
}

impl From<TimeStampResp> for TimeStampResponse {
    fn from(response: TimeStampResp) -> (res: TimeStampResponse)
        ensures
            res@ == response@,
    {
        TimeStampResponse(response)
    }
}

impl vstd::std_specs::convert::FromSpecImpl<TimeStampResp> for TimeStampResponse {
    open spec fn obeys_from_spec() -> bool {
        true
    }

    closed spec fn from_spec(response: TimeStampResp) -> TimeStampResponse {
        TimeStampResponse(response)
    }
}

/// The digits of a number.
pub open spec fn decimal(n: nat) -> Seq<char>
    decreases n,
{
    if n < 10 {
        seq![(n + 0x30) as char]
    } else {
        decimal(n / 10).push((n % 10 + 0x30) as char)
    }
}

/// The digit of a number below ten.
fn digit_text(n: usize) -> (res: &'static str)
    requires
        n < 10,
    ensures
        res@ == seq![(n + 0x30) as char],
{
    proof {
        reveal_strlit("0");
        reveal_strlit("1");
        reveal_strlit("2");
        reveal_strlit("3");
        reveal_strlit("4");
        reveal_strlit("5");
        reveal_strlit("6");
        reveal_strlit("7");
        reveal_strlit("8");
        reveal_strlit("9");
    }
    let res: &'static str = match n {
        0 => "0",
        1 => "1",
        2 => "2",
        3 => "3",
        4 => "4",
        5 => "5",
        6 => "6",
        7 => "7",
        8 => "8",
        _ => "9",
    };
    assert(res@ =~= seq![(n + 0x30) as char]);
    res
}

/// The digits of a number, as text.
fn decimal_text(n: usize) -> (res: String)
    ensures
        res@ == decimal(n as nat),
    decreases n,
{
    let mut res: String = if n < 10 {
        String::new()
    } else {
        decimal_text(n / 10)
    };
    res.append(digit_text(n % 10));
    assert(res@ =~= decimal(n as nat));
    res
}

impl Fault {
    /// What the fault says: its reason, and its place.
    pub open spec fn said(self) -> Seq<char> {
        self.reason.said() + " (at position "@ + decimal(self.position as nat) + ")"@
    }
}

impl DecodeError {
    /// The error as text.
    pub fn text(&self) -> (res: String)
        ensures
            res@ == self@.said(),
    {
        let mut res: String = joined_text(self.reason.text(), " (at position ");
        res.append(decimal_text(self.position).as_str());
        res.append(")");
        res
    }
}

/// What `str`'s `Debug` shows: the text in quotation marks, with what cannot be shown escaped.
pub uninterp spec fn quoted_text(text: Seq<char>) -> Seq<char>;

/// `str`'s `Debug`. Nothing is claimed of what it shows but that it depends on the text alone.
#[verifier::external_body]
fn quoted(text: &str) -> (res: String)
    ensures
        res@ == quoted_text(text@),
{
    format!("{:?}", text)
}

/// The first `n` texts in quotation marks, with commas between them.
pub open spec fn quoted_list(list: Seq<Seq<char>>, n: nat) -> Seq<char>
    decreases n,
{
    if n == 0 {
        Seq::empty()
    } else if n == 1 {
        quoted_text(list[0])
    } else {
        quoted_list(list, (n - 1) as nat) + ", "@ + quoted_text(list[n - 1])
    }
}

/// How texts that may be there are shown.
pub open spec fn shown_texts(list: Option<Seq<Seq<char>>>) -> Seq<char> {
    match list {
        Some(list) => "Some(["@ + quoted_list(list, list.len()) + "])"@,
        None => "None"@,
    }
}

/// How a status is shown.
pub open spec fn shown_status(status: PkiStatus) -> Seq<char> {
    match status {
        PkiStatus::Granted => "Granted"@,
        PkiStatus::GrantedWithMods => "GrantedWithMods"@,
        PkiStatus::Rejection => "Rejection"@,
        PkiStatus::Waiting => "Waiting"@,
        PkiStatus::RevocationWarning => "RevocationWarning"@,
        PkiStatus::RevocationNotification => "RevocationNotification"@,
    }
}

/// A status as text.
fn status_text(status: PkiStatus) -> (res: &'static str)
    ensures
        res@ == shown_status(status),
{
    match status {
        PkiStatus::Granted => "Granted",
        PkiStatus::GrantedWithMods => "GrantedWithMods",
        PkiStatus::Rejection => "Rejection",
        PkiStatus::Waiting => "Waiting",
        PkiStatus::RevocationWarning => "RevocationWarning",
        PkiStatus::RevocationNotification => "RevocationNotification",
    }
}

/// Texts that may be there, as text.
fn shown_list(list: &Option<Vec<String>>) -> (res: String)
    ensures
        res@ == shown_texts(rfc3161::optional_texts(*list)),
{
    match list {
        Some(list) => {
            let ghost all = text::texts(list@);
            let mut inner: String = String::new();
            let mut i: usize = 0;
            while i < list.len()
                invariant
                    i <= list@.len(),
                    all == text::texts(list@),
                    inner@ == quoted_list(all, i as nat),
                decreases list@.len() - i,
            {
                if i > 0 {
                    inner.append(", ");
                }
                inner.append(quoted(list[i].as_str()).as_str());
                assert(list@[i as int]@ == all[i as int]);
                i += 1;
                assert(inner@ =~= quoted_list(all, i as nat));
            }
            let mut res: String = "Some([".to_owned();
            res.append(inner.as_str());
            res.append("])");
            res
        },
        None => "None".to_owned(),
    }
}

/// What an error says.
pub open spec fn error_text(error: ErrorModel) -> Seq<char> {
    match error {
        ErrorModel::Io(text) => "I/O error: "@ + text,
        ErrorModel::Isahc(text) => "HTTP client error: "@ + text,
        ErrorModel::Reqwest(text) => "HTTP error: "@ + text,
        ErrorModel::Ureq(text) => "HTTP client error: "@ + text,
        ErrorModel::Asn1Decode(f) => "ASN.1 decode error: "@ + f.said(),
        ErrorModel::Http(text) => text,
        ErrorModel::Random => "error generating random nonce"@,
        ErrorModel::NonceMismatch => "nonce mismatch"@,
        ErrorModel::Unsuccessful(r) => "unsuccessful Time-Stamp Protocol response: "@ + shown_status(r.status.status)
            + ": "@ + shown_texts(r.status.status_string),
        ErrorModel::BadResponse => "bad server response"@,
    }
}

/// One text behind the other.
fn joined_text(first: &str, second: &str) -> (res: String)
    ensures
        res@ == first@ + second@,
{
    let mut res: String = first.to_owned();
    res.append(second);
    res
}

impl TimeStampError {
    /// The error as text.
    pub fn text(&self) -> (res: String)
        ensures
            res@ == error_text(self@),
    {
        match self {
            TimeStampError::Io(text) => joined_text("I/O error: ", text.as_str()),
            TimeStampError::Isahc(text) => joined_text("HTTP client error: ", text.as_str()),
            TimeStampError::Reqwest(text) => joined_text("HTTP error: ", text.as_str()),
            TimeStampError::Ureq(text) => joined_text("HTTP client error: ", text.as_str()),
            TimeStampError::Asn1Decode(error) => joined_text("ASN.1 decode error: ", error.text().as_str()),
            TimeStampError::Http(text) => text.as_str().to_owned(),
            TimeStampError::Random => "error generating random nonce".to_owned(),
            TimeStampError::NonceMismatch => "nonce mismatch".to_owned(),
            TimeStampError::Unsuccessful(response) => {
                let mut res: String = joined_text(
                    "unsuccessful Time-Stamp Protocol response: ",
                    status_text(response.status.status),
                );
                res.append(": ");
                res.append(shown_list(&response.status.status_string).as_str());
                res
            },
            TimeStampError::BadResponse => "bad server response".to_owned(),
        }
    }
}

/// An algorithm for digests.
#[derive(Clone, Copy, Debug, PartialEq, Eq, Structural)]
pub enum DigestAlgorithm {
    Sha1,
    Sha256,
    Sha384,
    Sha512,
}

/// The object identifier of an algorithm: 1.3.14.3.2.26 for SHA-1, and 2.16.840.1.101.3.4.2.1, .2
/// and .3 for SHA-256, SHA-384 and SHA-512.
pub open spec fn digest_identifier(algorithm: DigestAlgorithm) -> Seq<u8> {
    match algorithm {
        DigestAlgorithm::Sha1 => seq![43u8, 14, 3, 2, 26],
        DigestAlgorithm::Sha256 => seq![96u8, 134, 72, 1, 101, 3, 4, 2, 1],
        DigestAlgorithm::Sha384 => seq![96u8, 134, 72, 1, 101, 3, 4, 2, 2],
        DigestAlgorithm::Sha512 => seq![96u8, 134, 72, 1, 101, 3, 4, 2, 3],
    }
}

/// The number of octets of a digest.
pub open spec fn digest_len(algorithm: DigestAlgorithm) -> nat {
    match algorithm {
        DigestAlgorithm::Sha1 => 20,
        DigestAlgorithm::Sha256 => 32,
        DigestAlgorithm::Sha384 => 48,
        DigestAlgorithm::Sha512 => 64,
    }
}

/// The digest of a message, made with the algorithm that an object identifier names.
pub uninterp spec fn digest_of(identifier: Seq<u8>, message: Seq<u8>) -> Seq<u8>;

/// `x509_certificate::DigestAlgorithm::digester` with the context's `update` and `finish`, which
/// panic from 2^61 octets on. The digest is claimed to depend on the algorithm and the message
/// alone, and to be as long as the algorithm's digests are.
#[verifier::external_body]
fn digest(algorithm: DigestAlgorithm, message: &[u8]) -> (res: Vec<u8>)
    requires
        message@.len() < 0x2000_0000_0000_0000,
    ensures
        res@ == digest_of(digest_identifier(algorithm), message@),
        res@.len() == digest_len(algorithm),
{
    let mut context = match algorithm {
        DigestAlgorithm::Sha1 => x509_certificate::DigestAlgorithm::Sha1,
        DigestAlgorithm::Sha256 => x509_certificate::DigestAlgorithm::Sha256,
        DigestAlgorithm::Sha384 => x509_certificate::DigestAlgorithm::Sha384,
        DigestAlgorithm::Sha512 => x509_certificate::DigestAlgorithm::Sha512,
    }.digester();
    context.update(message);
    context.finish().as_ref().to_vec()
}

/// `x509_certificate::rfc5280::AlgorithmIdentifier::from` for a digest algorithm, which names it by
/// its object identifier and gives it no parameters.
#[verifier::external_body]
fn algorithm_identifier(algorithm: DigestAlgorithm) -> (res: AlgorithmIdentifier)
    ensures
        res@.algorithm == digest_identifier(algorithm),
        res@.parameters is None,
{
    let found = x509_certificate::rfc5280::AlgorithmIdentifier::from(match algorithm {
        DigestAlgorithm::Sha1 => x509_certificate::DigestAlgorithm::Sha1,
        DigestAlgorithm::Sha256 => x509_certificate::DigestAlgorithm::Sha256,
        DigestAlgorithm::Sha384 => x509_certificate::DigestAlgorithm::Sha384,
        DigestAlgorithm::Sha512 => x509_certificate::DigestAlgorithm::Sha512,
    });
    AlgorithmIdentifier {
        algorithm: found.algorithm.as_ref().to_vec(),
        parameters: found.parameters.map(|p| p.as_slice().to_vec()),
    }
}

/// `ring`'s error, which says nothing.
#[verifier::external_type_specification]
#[verifier::external_body]
pub struct ExUnspecified(ring::error::Unspecified);

/// `ring::rand::SystemRandom`'s `fill`. Nothing is claimed of the octets, nor of when there are
/// none.
#[verifier::external_body]
fn random_octets() -> (res: Result<[u8; 8], ring::error::Unspecified>) {
    let mut octets = [0u8; 8];
    ring::rand::SecureRandom::fill(&ring::rand::SystemRandom::new(), &mut octets).map(|_| octets)
}

/// The number that eight octets encode, the first being the least significant.
pub open spec fn little_endian(octets: Seq<u8>) -> int {
    octets[0] + 0x100 * (octets[1] + 0x100 * (octets[2] + 0x100 * (octets[3] + 0x100 * (octets[4] + 0x100 * (octets[5]
        + 0x100 * (octets[6] + 0x100 * octets[7]))))))
}

/// Reads the number that eight octets encode.
fn read_little_endian(octets: &[u8; 8]) -> (res: u64)
    ensures
        res == little_endian(octets@),
{
    octets[0] as u64 + 0x100 * (octets[1] as u64 + 0x100 * (octets[2] as u64 + 0x100 * (octets[3] as u64 + 0x100 * (
    octets[4] as u64 + 0x100 * (octets[5] as u64 + 0x100 * (octets[6] as u64 + 0x100 * octets[7] as u64))))))
}

/// The request for a time stamp of the message with the given digest: of version 1, for no policy
/// in particular, with the random octets as a nonce, and asking for certificates.
pub open spec fn request_for(algorithm: DigestAlgorithm, digest: Seq<u8>, random: Seq<u8>) -> RequestModel {
    RequestModel {
        version: 1,
        message_imprint: ImprintModel {
            hash_algorithm: AlgorithmModel { algorithm: digest_identifier(algorithm), parameters: None },
            hashed_message: digest,
        },
        req_policy: None,
        nonce: Some(little_endian(random)),
        cert_req: Some(true),
        extensions: None,
    }
}

/// Builds the request for a time stamp of the message with the given digest.
pub fn build_request(algorithm: DigestAlgorithm, digest: Vec<u8>, random: [u8; 8]) -> (res: TimeStampReq)
    ensures
        res@ == request_for(algorithm, digest@, random@),
{
    let nonce: u64 = read_little_endian(&random);
    TimeStampReq {
        version: Integer::from_u64(1),
        message_imprint: MessageImprint {
            hash_algorithm: algorithm_identifier(algorithm),
            hashed_message: digest,
        },
        req_policy: None,
        nonce: Some(Integer::from_u64(nonce)),
        cert_req: Some(true),
        extensions: None,
    }
}

/// Builds the request from what the random source gave: where it gave nothing there is no request.
pub fn request_from(
    algorithm: DigestAlgorithm,
    digest: Vec<u8>,
    drawn: Result<[u8; 8], ring::error::Unspecified>,
) -> (res: Result<TimeStampReq, TimeStampError>)
    ensures
        match drawn {
            Ok(random) => res matches Ok(request) && request@ == request_for(algorithm, digest@, random@),
            Err(_) => res matches Err(error) && error is Random,
        },
{
    match drawn {
        Ok(random) => Ok(build_request(algorithm, digest, random)),
        Err(_) => Err(TimeStampError::Random),
    }
}

/// Creates a request for a time stamp of a message, with a random nonce. The one error is that no
/// random octets were to be had.
pub fn create_request(message: &[u8], digest_algorithm: DigestAlgorithm) -> (res: Result<
    TimeStampReq,
    TimeStampError,
>)
    requires
        message@.len() < 0x2000_0000_0000_0000,
    ensures
        match res {
            Ok(request) => exists|random: Seq<u8>|
                random.len() == 8 && request@ == #[trigger] request_for(
                    digest_algorithm,
                    digest_of(digest_identifier(digest_algorithm), message@),
                    random,
                ),
            Err(error) => error is Random,
        },
{
    let found: Vec<u8> = digest(digest_algorithm, message);
    let drawn: Result<[u8; 8], ring::error::Unspecified> = random_octets();
    let res: Result<TimeStampReq, TimeStampError> = request_from(digest_algorithm, found, drawn);
    proof {
        if let Ok(random) = drawn {
            assert(random@.len() == 8);
        }
    }
    res
}

/// Whether a reply is taken for a response: its status is one of success, and its content type is
/// that of responses.
pub open spec fn is_accepted(status: u16, content_type: Option<Seq<u8>>) -> bool {
    200 <= status <= 299 && content_type == Some(utf8::encode_utf8(HTTP_CONTENT_TYPE_RESPONSE@))
}

/// What is made of the body of a reply to a request with the given nonce: the response, unless the
/// request was granted and the token says nothing that can be read or has another nonce.
pub open spec fn response_to(nonce: Option<int>, body: Seq<u8>) -> Result<ResponseModel, ErrorModel> {
    match rfc3161::response_in(body) {
        Ok(response) => if is_granted(response) {
            match tst_info_of(response) {
                Ok(Some(info)) => if info.nonce == nonce {
                    Ok(response)
                } else {
                    Err(ErrorModel::NonceMismatch)
                },
                Ok(None) => Ok(response),
                Err(f) => Err(ErrorModel::Asn1Decode(f)),
            }
        } else {
            Ok(response)
        },
        Err(f) => Err(ErrorModel::Asn1Decode(f)),
    }
}

/// What is made of a reply to a request with the given nonce.
pub open spec fn outcome_of(
    nonce: Option<int>,
    status: u16,
    content_type: Option<Seq<u8>>,
    body: Seq<u8>,
) -> Result<ResponseModel, ErrorModel> {
    if is_accepted(status, content_type) {
        response_to(nonce, body)
    } else {
        Err(ErrorModel::Http("bad HTTP response"@))
    }
}

/// Whether a reply with the given status and content type is taken for a response.
pub fn accepts_reply(status: u16, content_type: Option<&[u8]>) -> (res: bool)
    ensures
        res == is_accepted(
            status,
            match content_type {
                Some(octets) => Some(octets@),
                None => None,
            },
        ),
{
    match content_type {
        Some(octets) => status >= 200 && status <= 299 && same_octets(octets, HTTP_CONTENT_TYPE_RESPONSE.as_bytes()),
        None => false,
    }
}

/// Whether two numbers that may be missing are the same.
fn is_same_nonce(a: &Option<Integer>, b: &Option<Integer>) -> (res: bool)
    ensures
        res == (rfc3161::optional_number(*a) == rfc3161::optional_number(*b)),
{
    match (a, b) {
        (Some(a), Some(b)) => a.is_same(b),
        (None, None) => true,
        _ => false,
    }
}

/// What an outcome holds.
pub open spec fn outcome_model(res: Result<TimeStampResponse, TimeStampError>) -> Result<ResponseModel, ErrorModel> {
    match res {
        Ok(response) => Ok(response@),
        Err(error) => Err(error@),
    }
}

/// Decodes the body of a reply and checks that the nonce of the request is in the token.
pub fn decode_reply(request: &TimeStampReq, body: &[u8]) -> (res: Result<TimeStampResponse, TimeStampError>)
    ensures
        outcome_model(res) == response_to(request@.nonce, body@),
{
    let response: TimeStampResponse = match TimeStampResp::decode(body) {
        Ok(response) => TimeStampResponse(response),
        Err(error) => {
            return Err(TimeStampError::from(error));
        },
    };
    if response.is_success() {
        match response.tst_info() {
            Ok(Some(info)) => {
                if !is_same_nonce(&info.nonce, &request.nonce) {
                    return Err(TimeStampError::NonceMismatch);
                }
            },
            Ok(None) => {},
            Err(error) => {
                return Err(TimeStampError::from(error));
            },
        }
    }
    Ok(response)
}

/// Makes of a server's reply to a request what the protocol says: the response, or an error.
pub fn handle_reply(request: &TimeStampReq, status: u16, content_type: Option<&[u8]>, body: &[u8]) -> (res: Result<
    TimeStampResponse,
    TimeStampError,
>)
    ensures
        outcome_model(res) == outcome_of(
            request@.nonce,
            status,
            match content_type {
                Some(octets) => Some(octets@),
                None => None,
            },
            body@,
        ),
{
    if accepts_reply(status, content_type) {
        decode_reply(request, body)
    } else {
        Err(TimeStampError::Http("bad HTTP response".to_owned()))
    }
}

/// A response that is handed out and was granted carries information that can be read, if it
/// carries any, and that information has the nonce of the request.
pub proof fn granted_response_has_nonce(
    nonce: Option<int>,
    status: u16,
    content_type: Option<Seq<u8>>,
    body: Seq<u8>,
)
    ensures
        outcome_of(nonce, status, content_type, body) matches Ok(response) ==> (is_granted(response) ==> (
        tst_info_of(response) matches Ok(info) && (info matches Some(info) ==> info.nonce == nonce))),
{
}

/// Where a reply was granted and its token says what was stamped, the nonce alone decides: the
/// response is handed out if the token has the request's, and is an error otherwise.
pub proof fn nonce_decides(
    nonce: Option<int>,
    status: u16,
    content_type: Option<Seq<u8>>,
    body: Seq<u8>,
    response: ResponseModel,
    info: TstModel,
)
    requires
        is_accepted(status, content_type),
        rfc3161::response_in(body) == Ok::<ResponseModel, Fault>(response),
        is_granted(response),
        tst_info_of(response) == Ok::<Option<TstModel>, Fault>(Some(info)),
    ensures
        outcome_of(nonce, status, content_type, body) == if info.nonce == nonce {
            Ok::<ResponseModel, ErrorModel>(response)
        } else {
            Err(ErrorModel::NonceMismatch)
        },
{
}

/// A reply that is no success, or is not of the content type of responses, is an error whatever
/// its body holds.
pub proof fn other_reply_is_refused(nonce: Option<int>, status: u16, content_type: Option<Seq<u8>>, body: Seq<u8>)
    requires
        !(200 <= status <= 299) || content_type != Some(utf8::encode_utf8(HTTP_CONTENT_TYPE_RESPONSE@)),
    ensures
        outcome_of(nonce, status, content_type, body) == Err::<ResponseModel, ErrorModel>(
            ErrorModel::Http("bad HTTP response"@),
        ),
{
}

/// What follows the response in the body of a reply is ignored, if the response is all there.
pub proof fn reply_ignores_rest(
    nonce: Option<int>,
    status: u16,
    content_type: Option<Seq<u8>>,
    body: Seq<u8>,
    rest: Seq<u8>,
)
    requires
        der::first_is_whole(body, SEQUENCE),
    ensures
        outcome_of(nonce, status, content_type, body + rest) == outcome_of(nonce, status, content_type, body),
{
    rfc3161::response_ignores_rest(body, rest);
}

/// Information about a time stamp comes from signed data of its type alone, and signed data from a
/// token.
pub proof fn tst_info_is_signed(r: ResponseModel)
    ensures
        tst_info_of(r) matches Ok(Some(info)) ==> (signed_data_of(r) matches Ok(Some(signed))
            && signed.content_info.content_type == OID_CONTENT_TYPE_TST_INFO@ && (signed.content_info.content matches Some(
            content,
        ) && rfc3161::tst_info_in(content) == Ok::<TstModel, Fault>(info))),
        signed_data_of(r) is Err ==> tst_info_of(r) is Err,
        r.time_stamp_token is None <==> signed_data_of(r) == Ok::<Option<SignedDataModel>, Fault>(None),
{
}

/// A number is as short as its size allows.
proof fn lemma_short_number(value: int, len: nat)
    requires
        len > 0,
        -half_range(len) <= value < half_range(len),
    ensures
        integer::integer_octets(value).len() <= len,
    decreases len,
{
    if len > 1 && !(-0x80 <= value < 0x80) {
        lemma_short_number(value / 0x100, (len - 1) as nat);
    }
}

/// Half of the numbers that so many octets can stand for.
spec fn half_range(len: nat) -> int
    decreases len,
{
    if len <= 1 {
        0x80
    } else {
        half_range((len - 1) as nat) * 0x100
    }
}

/// A request that was built can be written, and a server reads from it what it was built from:
/// version 1, the algorithm and the digest, and the nonce.
pub proof fn built_request_is_read_back(algorithm: DigestAlgorithm, digest: Seq<u8>, random: Seq<u8>, rest: Seq<u8>)
    requires
        digest.len() == digest_len(algorithm),
        random.len() == 8,
    ensures
        der::is_writable(rfc3161::request_content(request_for(algorithm, digest, random))),
        rfc3161::request_in(rfc3161::request_octets(request_for(algorithm, digest, random)) + rest) matches Ok(r)
            && r.version == 1 && r.message_imprint.hash_algorithm.algorithm == digest_identifier(algorithm)
            && r.message_imprint.hashed_message == digest && r.nonce == Some(little_endian(random)) && r.cert_req == Some(
            true,
        ) && r.req_policy is None && r.extensions is None,
{
    let r = request_for(algorithm, digest, random);
    reveal_with_fuel(half_range, 10);
    lemma_short_number(1, 1);
    lemma_short_number(little_endian(random), 9);
    rfc3161::request_is_read_back(r, rest);
}

/// The octets that name signed data: 1.2.840.113549.1.7.2.
pub open spec fn signed_data_name() -> Seq<u8> {
    seq![42u8, 134, 72, 134, 247, 13, 1, 7, 2]
}

/// The octets that name the information of a token: 1.2.840.113549.1.9.16.1.4.
pub open spec fn tst_info_name() -> Seq<u8> {
    seq![42u8, 134, 72, 134, 247, 13, 1, 9, 16, 1, 4]
}

/// The octets of a response with a token of the given type and content.
pub open spec fn stamped_form(m: StatusModel, content_type: Seq<u8>, content: Seq<u8>) -> Seq<u8> {
    der::written(0x30, forms::stamped_content(m, content_type, content))
}

/// The response that such octets are read as.
pub open spec fn stamped_response(m: StatusModel, content_type: Seq<u8>, content: Seq<u8>) -> ResponseModel {
    ResponseModel {
        status: m,
        time_stamp_token: Some(
            ContentModel { content_type, content, start: stamped_form(m, content_type, content).len() - content.len() },
        ),
    }
}

/// The content type of responses.
pub open spec fn reply_type() -> Option<Seq<u8>> {
    Some(utf8::encode_utf8("application/timestamp-reply"@))
}

/// Whether signed data can be written, with all that is around them, and be sent.
pub open spec fn is_sendable(m: StatusModel, d: SignedDataModel) -> bool {
    &&& forms::is_status(m)
    &&& forms::is_signed_data(d)
    &&& forms::stamped_content(m, signed_data_name(), forms::signed_data_form(d)).len() <= 0xffff_ffff
}

/// Signed data that a server sends in a token are those that are read from the token.
#[verifier::spinoff_prover]
#[verifier::rlimit(60)]
pub proof fn sent_signed_data_are_read(m: StatusModel, d: SignedDataModel, rest: Seq<u8>)
    requires
        is_sendable(m, d),
    ensures
        rfc3161::response_in(stamped_form(m, signed_data_name(), forms::signed_data_form(d)) + rest) == Ok::<
            ResponseModel,
            Fault,
        >(stamped_response(m, signed_data_name(), forms::signed_data_form(d))),
        signed_data_of(stamped_response(m, signed_data_name(), forms::signed_data_form(d))) == Ok::<
            Option<SignedDataModel>,
            Fault,
        >(Some(d)),
{
    let content = forms::signed_data_form(d);
    assert(OID_ID_SIGNED_DATA@ =~= signed_data_name());
    forms::signed_data_is_value(d);
    forms::stamped_is_read_back(m, signed_data_name(), content, rest);
    forms::signed_data_is_read_back(d, Seq::empty());
    assert(content + Seq::empty() =~= content);
}

/// What is sent in a token is shorter than all that is sent.
proof fn lemma_information_fits(m: StatusModel, d: SignedDataModel, t: TstModel)
    requires
        is_sendable(m, d),
        d.content_info.content == Some(forms::tst_form(t)),
    ensures
        forms::tst_content(t).len() <= 0xffff_ffff,
{
    let inner = forms::tst_form(t);
    let octets = der::written(0x04, inner);
    assert(octets.len() >= inner.len());
    let wrapped = forms::optional_form(0xa0, Some(octets));
    assert(wrapped.len() >= octets.len());
    assert(forms::encapsulated_form(d.content_info).len() >= wrapped.len());
    assert(forms::signed_data_content(d).len() >= forms::encapsulated_form(d.content_info).len());
    let content = forms::signed_data_form(d);
    assert(content.len() >= forms::signed_data_content(d).len());
    assert(forms::token_form(signed_data_name(), content).len() >= content.len());
}

proof fn lemma_information_read(t: TstModel)
    requires
        forms::is_tst_info(t),
        forms::tst_content(t).len() <= 0xffff_ffff,
    ensures
        rfc3161::tst_info_in(forms::tst_form(t)) == Ok::<TstModel, Fault>(t),
{
    forms::tst_info_is_read_back(t, Seq::empty());
    assert(forms::tst_form(t) + Seq::empty() =~= forms::tst_form(t));
}

/// The information of signed data of its type is what their content is read as.
proof fn lemma_information_of(response: ResponseModel, d: SignedDataModel, content: Seq<u8>, t: TstModel)
    requires
        signed_data_of(response) == Ok::<Option<SignedDataModel>, Fault>(Some(d)),
        d.content_info.content_type == tst_info_name(),
        d.content_info.content == Some(content),
        rfc3161::tst_info_in(content) == Ok::<TstModel, Fault>(t),
    ensures
        tst_info_of(response) == Ok::<Option<TstModel>, Fault>(Some(t)),
{
    assert(OID_CONTENT_TYPE_TST_INFO@ =~= tst_info_name());
}

/// The information that a server sends in a token is what is read from the token, whatever else
/// the signed data hold. If the request was granted, its nonce alone decides: the response is handed
/// out if the information has the nonce of the request, or neither has one, and is an error
/// otherwise.
#[verifier::spinoff_prover]
#[verifier::rlimit(60)]
pub proof fn sent_nonce_decides(
    nonce: Option<int>,
    status: u16,
    m: StatusModel,
    d: SignedDataModel,
    t: TstModel,
    rest: Seq<u8>,
)
    requires
        200 <= status <= 299,
        m.status == PkiStatus::Granted || m.status == PkiStatus::GrantedWithMods,
        is_sendable(m, d),
        forms::is_tst_info(t),
        d.content_info.content_type == tst_info_name(),
        d.content_info.content == Some(forms::tst_form(t)),
    ensures
        tst_info_of(stamped_response(m, signed_data_name(), forms::signed_data_form(d))) == Ok::<Option<TstModel>, Fault>(
            Some(t),
        ),
        outcome_of(
            nonce,
            status,
            reply_type(),
            stamped_form(m, signed_data_name(), forms::signed_data_form(d)) + rest,
        ) == if t.nonce == nonce {
            Ok::<ResponseModel, ErrorModel>(stamped_response(m, signed_data_name(), forms::signed_data_form(d)))
        } else {
            Err(ErrorModel::NonceMismatch)
        },
{
    let content = forms::signed_data_form(d);
    let response = stamped_response(m, signed_data_name(), content);
    let body = stamped_form(m, signed_data_name(), content) + rest;
    sent_signed_data_are_read(m, d, rest);
    lemma_information_fits(m, d, t);
    lemma_information_read(t);
    lemma_information_of(response, d, forms::tst_form(t), t);
    nonce_decides(nonce, status, reply_type(), body, response, t);
}

/// Signed data of another type, or without content, hold no information, and a response with them
/// is handed out whatever the nonce of the request is.
#[verifier::spinoff_prover]
#[verifier::rlimit(60)]
pub proof fn other_signed_data_are_handed_out(
    nonce: Option<int>,
    status: u16,
    m: StatusModel,
    d: SignedDataModel,
    rest: Seq<u8>,
)
    requires
        200 <= status <= 299,
        is_sendable(m, d),
        d.content_info.content_type != tst_info_name() || d.content_info.content is None,
    ensures
        tst_info_of(stamped_response(m, signed_data_name(), forms::signed_data_form(d))) == Ok::<Option<TstModel>, Fault>(
            None,
        ),
        outcome_of(
            nonce,
            status,
            reply_type(),
            stamped_form(m, signed_data_name(), forms::signed_data_form(d)) + rest,
        ) == Ok::<ResponseModel, ErrorModel>(stamped_response(m, signed_data_name(), forms::signed_data_form(d))),
{
    sent_signed_data_are_read(m, d, rest);
    assert(OID_CONTENT_TYPE_TST_INFO@ =~= tst_info_name());
}

/// A response with a token of another type than signed data is handed out if the request was not
/// granted. If it was, it is an error that tells where the content of the token stands.
#[verifier::spinoff_prover]
#[verifier::rlimit(60)]
pub proof fn other_token_is_an_error(
    nonce: Option<int>,
    status: u16,
    m: StatusModel,
    content_type: Seq<u8>,
    content: Seq<u8>,
    rest: Seq<u8>,
)
    requires
        200 <= status <= 299,
        forms::is_status(m),
        forms::is_name(content_type),
        content_type != signed_data_name(),
        der::are_values(content),
        forms::stamped_content(m, content_type, content).len() <= 0xffff_ffff,
    ensures
        signed_data_of(stamped_response(m, content_type, content)) == Err::<Option<SignedDataModel>, Fault>(
            Fault {
                reason: Reason::NotSignedData,
                position: stamped_form(m, content_type, content).len() - content.len(),
            },
        ),
        tst_info_of(stamped_response(m, content_type, content)) is Err,
        outcome_of(nonce, status, reply_type(), stamped_form(m, content_type, content) + rest) == if m.status
            == PkiStatus::Granted || m.status == PkiStatus::GrantedWithMods {
            Err(
                ErrorModel::Asn1Decode(
                    Fault {
                        reason: Reason::NotSignedData,
                        position: stamped_form(m, content_type, content).len() - content.len(),
                    },
                ),
            )
        } else {
            Ok::<ResponseModel, ErrorModel>(stamped_response(m, content_type, content))
        },
{
    assert(OID_ID_SIGNED_DATA@ =~= signed_data_name());
    forms::stamped_is_read_back(m, content_type, content, rest);
}

/// A response that does not grant the request is handed out with its status, its texts and its
/// failure information, whatever its token holds; and so is one without a token.
#[verifier::spinoff_prover]
#[verifier::rlimit(60)]
pub proof fn refusal_is_handed_out(
    nonce: Option<int>,
    status: u16,
    m: StatusModel,
    content_type: Seq<u8>,
    content: Seq<u8>,
    rest: Seq<u8>,
)
    requires
        200 <= status <= 299,
        forms::is_status(m),
        forms::is_name(content_type),
        der::are_values(content),
        forms::stamped_content(m, content_type, content).len() <= 0xffff_ffff,
    ensures
        outcome_of(nonce, status, reply_type(), der::written(0x30, forms::answer_content(m)) + rest) == Ok::<
            ResponseModel,
            ErrorModel,
        >(ResponseModel { status: m, time_stamp_token: None }),
        m.status != PkiStatus::Granted && m.status != PkiStatus::GrantedWithMods ==> outcome_of(
            nonce,
            status,
            reply_type(),
            stamped_form(m, content_type, content) + rest,
        ) == Ok::<ResponseModel, ErrorModel>(stamped_response(m, content_type, content)),
{
    forms::answer_is_read_back(m, rest);
    forms::stamped_is_read_back(m, content_type, content, rest);
}

/// A response that is handed out was sent: the body begins with its octets, and the reply was a
/// success with the content type of responses.
pub proof fn handed_out_was_sent(nonce: Option<int>, status: u16, content_type: Option<Seq<u8>>, body: Seq<u8>)
    ensures
        outcome_of(nonce, status, content_type, body) matches Ok(r) ==> der::holds_at(body, 0, forms::response_form(r)) && 200
            <= status <= 299 && content_type == reply_type(),
{
    forms::response_was_written(body);
}

/// The octets of a random nonce are all in the number that is sent: it is the one number whose
/// digits to the base 256 they are, the first being the least significant.
#[verifier::spinoff_prover]
#[verifier::rlimit(60)]
pub proof fn nonce_holds_random_octets(random: Seq<u8>)
    requires
        random.len() == 8,
    ensures
        0 <= little_endian(random) < 0x1_0000_0000_0000_0000,
        little_endian(random) % 0x100 == random[0],
        little_endian(random) / 0x100 % 0x100 == random[1],
        little_endian(random) / 0x1_0000 % 0x100 == random[2],
        little_endian(random) / 0x100_0000 % 0x100 == random[3],
        little_endian(random) / 0x1_0000_0000 % 0x100 == random[4],
        little_endian(random) / 0x100_0000_0000 % 0x100 == random[5],
        little_endian(random) / 0x1_0000_0000_0000 % 0x100 == random[6],
        little_endian(random) / 0x100_0000_0000_0000 % 0x100 == random[7],
{
    let n = little_endian(random);
    let n1 = n / 0x100;
    let n2 = n1 / 0x100;
    let n3 = n2 / 0x100;
    let n4 = n3 / 0x100;
    let n5 = n4 / 0x100;
    let n6 = n5 / 0x100;
    let n7 = n6 / 0x100;
    assert(n % 0x100 == random[0]);
    assert(n1 % 0x100 == random[1]);
    assert(n2 % 0x100 == random[2]);
    assert(n3 % 0x100 == random[3]);
    assert(n4 % 0x100 == random[4]);
    assert(n5 % 0x100 == random[5]);
    assert(n6 % 0x100 == random[6]);
    assert(n7 % 0x100 == random[7]);
    assert(n2 == n / 0x1_0000);
    assert(n3 == n / 0x100_0000);
    assert(n4 == n / 0x1_0000_0000);
    assert(n5 == n / 0x100_0000_0000);
    assert(n6 == n / 0x1_0000_0000_0000);
    assert(n7 == n / 0x100_0000_0000_0000);
}

/// The number that decimal digits stand for.
pub open spec fn digits_value(text: Seq<char>) -> int
    decreases text.len(),
{
    if text.len() == 0 {
        0
    } else {
        digits_value(text.drop_last()) * 10 + (text.last() as int - '0' as int)
    }
}

/// The place of a fault is told in decimal digits that stand for it, the first of which is not zero
/// unless it is the only one.
#[verifier::spinoff_prover]
#[verifier::rlimit(60)]
pub proof fn place_is_told(n: nat)
    ensures
        decimal(n).len() > 0,
        forall|i: int| 0 <= i < decimal(n).len() ==> '0' <= #[trigger] decimal(n)[i] <= '9',
        decimal(n).len() > 1 ==> decimal(n)[0] != '0',
        digits_value(decimal(n)) == n,
    decreases n,
{
    reveal_with_fuel(digits_value, 2);
    if n < 10 {
        assert(decimal(n).drop_last() =~= Seq::empty());
    } else {
        place_is_told(n / 10);
        assert(decimal(n).drop_last() =~= decimal(n / 10));
        assert forall|i: int| 0 <= i < decimal(n).len() implies '0' <= #[trigger] decimal(n)[i] <= '9' by {
            if i < decimal(n / 10).len() {
                assert(decimal(n)[i] == decimal(n / 10)[i]);
            }
        }
        assert(decimal(n)[0] == decimal(n / 10)[0]);
        if decimal(n / 10).len() == 1 {
            reveal_with_fuel(digits_value, 3);
            assert(decimal(n / 10).drop_last() =~= Seq::empty());
            assert(digits_value(decimal(n / 10)) == n / 10);
        }
    }
}

/// An error tells all that its cause tells, behind words that depend on the kind of the cause
/// alone.
pub proof fn causes_are_told(a: Seq<char>, b: Seq<char>)
    ensures
        error_text(ErrorModel::Io(a + b)) == error_text(ErrorModel::Io(a)) + b,
        error_text(ErrorModel::Isahc(a + b)) == error_text(ErrorModel::Isahc(a)) + b,
        error_text(ErrorModel::Reqwest(a + b)) == error_text(ErrorModel::Reqwest(a)) + b,
        error_text(ErrorModel::Ureq(a + b)) == error_text(ErrorModel::Ureq(a)) + b,
        error_text(ErrorModel::Http(a)) == a,
        error_text(ErrorModel::Io(Seq::empty())) == "I/O error: "@,
        error_text(ErrorModel::Isahc(Seq::empty())) == "HTTP client error: "@,
        error_text(ErrorModel::Reqwest(Seq::empty())) == "HTTP error: "@,
        error_text(ErrorModel::Ureq(Seq::empty())) == "HTTP client error: "@,
        error_text(ErrorModel::Random) == "error generating random nonce"@,
        error_text(ErrorModel::NonceMismatch) == "nonce mismatch"@,
        error_text(ErrorModel::BadResponse) == "bad server response"@,
{
    assert("I/O error: "@ + (a + b) =~= "I/O error: "@ + a + b);
    assert("HTTP client error: "@ + (a + b) =~= "HTTP client error: "@ + a + b);
    assert("HTTP error: "@ + (a + b) =~= "HTTP error: "@ + a + b);
    assert("I/O error: "@ + Seq::empty() =~= "I/O error: "@);
    assert("HTTP client error: "@ + Seq::empty() =~= "HTTP client error: "@);
    assert("HTTP error: "@ + Seq::empty() =~= "HTTP error: "@);
}

/// The error for a fault tells the reason, and behind it the place, in words that are the same for
/// every fault.
pub proof fn faults_are_told(reason: Reason, position: nat)
    ensures
        error_text(ErrorModel::Asn1Decode(Fault { reason, position: position as int })) == "ASN.1 decode error: "@ + (
        reason.said() + (" (at position "@ + (decimal(position) + ")"@))),
{
    assert("ASN.1 decode error: "@ + (reason.said() + " (at position "@ + decimal(position) + ")"@) =~= "ASN.1 decode error: "@ + (
    reason.said() + (" (at position "@ + (decimal(position) + ")"@))));
}

/// The error for an unsuccessful response with the given texts.
pub open spec fn unsuccessful_text(status: PkiStatus, texts: Option<Seq<Seq<char>>>) -> Seq<char> {
    error_text(
        ErrorModel::Unsuccessful(
            ResponseModel {
                status: StatusModel { status, status_string: texts, fail_info: None },
                time_stamp_token: None,
            },
        ),
    )
}

/// The error for an unsuccessful response tells its status by name and each of its texts, in order
/// and quoted, and nothing else of it.
#[verifier::spinoff_prover]
#[verifier::rlimit(60)]
pub proof fn texts_are_told(r: ResponseModel, texts: Seq<Seq<char>>, text: Seq<char>)
    ensures
        error_text(ErrorModel::Unsuccessful(r)) == unsuccessful_text(r.status.status, r.status.status_string),
        ({
            let head = "unsuccessful Time-Stamp Protocol response: "@ + (match r.status.status {
                PkiStatus::Granted => "Granted"@,
                PkiStatus::GrantedWithMods => "GrantedWithMods"@,
                PkiStatus::Rejection => "Rejection"@,
                PkiStatus::Waiting => "Waiting"@,
                PkiStatus::RevocationWarning => "RevocationWarning"@,
                PkiStatus::RevocationNotification => "RevocationNotification"@,
            }) + ": "@;
            &&& unsuccessful_text(r.status.status, None) == head + "None"@
            &&& unsuccessful_text(r.status.status, Some(Seq::empty())) == head + ("Some(["@ + "])"@)
            &&& unsuccessful_text(r.status.status, Some(seq![text])) == head + ("Some(["@ + quoted_text(text) + "])"@)
            &&& texts.len() > 0 ==> exists|inner: Seq<char>|
                unsuccessful_text(r.status.status, Some(texts)) == head + (#[trigger] ("Some(["@ + inner) + "])"@)
                    && unsuccessful_text(r.status.status, Some(texts.push(text))) == head + ("Some(["@ + (inner + ", "@
                    + quoted_text(text)) + "])"@)
        }),
{
    let n = texts.len();
    let longer = texts.push(text);
    lemma_quoted_prefix(texts, longer, n);
    reveal_with_fuel(quoted_list, 2);
    let inner = quoted_list(texts, n);
    assert("Some(["@ + Seq::<char>::empty() =~= "Some(["@);
    assert("Some(["@ + inner == "Some(["@ + quoted_list(texts, n));
    if n > 0 {
        assert(quoted_list(longer, n + 1) == inner + ", "@ + quoted_text(text));
    }
}

/// The texts at the beginning of a list are quoted whatever follows them.
proof fn lemma_quoted_prefix(a: Seq<Seq<char>>, b: Seq<Seq<char>>, n: nat)
    requires
        n <= a.len(),
        n <= b.len(),
        forall|i: int| 0 <= i < n ==> a[i] == b[i],
    ensures
        quoted_list(a, n) == quoted_list(b, n),
    decreases n,
{
    if n > 0 {
        lemma_quoted_prefix(a, b, (n - 1) as nat);
    }
}

/// A fault in the body of a reply is the error that is handed out, with its reason and its place. So
/// is one in the token of a response that grants the request, and of no other.
pub proof fn faults_are_handed_out(nonce: Option<int>, status: u16, body: Seq<u8>, f: Fault)
    requires
        200 <= status <= 299,
    ensures
        rfc3161::response_in(body) == Err::<ResponseModel, Fault>(f) ==> outcome_of(nonce, status, reply_type(), body)
            == Err::<ResponseModel, ErrorModel>(ErrorModel::Asn1Decode(f)),
        rfc3161::response_in(body) matches Ok(r) ==> (tst_info_of(r) == Err::<Option<TstModel>, Fault>(f) ==> outcome_of(
            nonce,
            status,
            reply_type(),
            body,
        ) == if r.status.status == PkiStatus::Granted || r.status.status == PkiStatus::GrantedWithMods {
            Err(ErrorModel::Asn1Decode(f))
        } else {
            Ok::<ResponseModel, ErrorModel>(r)
        }),
        rfc3161::response_in(body) matches Ok(r) ==> (r.time_stamp_token matches Some(token) ==> (token.content_type
            == signed_data_name() ==> (rfc5652::signed_data_in(token.content) == Err::<SignedDataModel, Fault>(f)
            ==> signed_data_of(r) == Err::<Option<SignedDataModel>, Fault>(f) && tst_info_of(r) == Err::<
            Option<TstModel>,
            Fault,
        >(f)))),
{
    assert(OID_ID_SIGNED_DATA@ =~= signed_data_name());
}

} // verus!
