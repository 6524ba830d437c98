//! Requests, responses and tokens of the Time-Stamp Protocol.

use bcder::decode::{Constructed, Source};
use stampdist::der::{
    check_values, read_needed, read_tagged, write_value, DecodeError, Reason, INTEGER, OBJECT_IDENTIFIER, OCTET_STRING,
    SEQUENCE, SET,
};
use stampdist::integer::Integer;
use stampdist::rfc3161::{
    MessageImprint, PkiStatus, PkiStatusInfo, TimeStampReq, TimeStampResp, TstInfo, OID_CONTENT_TYPE_TST_INFO,
};
use stampdist::rfc5652::{AlgorithmIdentifier, ContentInfo, SignedData, SignerInfo, OID_ID_SIGNED_DATA};
use stampdist::time_stamp_protocol::{
    accepts_reply, build_request, create_request, decode_reply, handle_reply, request_from, DigestAlgorithm,
    TimeStampError, TimeStampResponse, HTTP_CONTENT_TYPE_REQUEST, HTTP_CONTENT_TYPE_RESPONSE,
};

/// The digest of `hello, world`.
const DIGEST: &str = "09ca7e4eaa6e8ae9c7d261167129184883644d07dfba7cbfbc4c8a2e08360d5b";

/// A request for a time stamp of `hello, world`, with the nonce 0x0807060504030201.
const REQUEST: &str = "30430201013031300d06096086480165030402010500042009ca7e4eaa6e8ae9c7d261167129184883644d07dfba\
    7cbfbc4c8a2e08360d5b020808070605040302010101ff";

/// The response of a server to that request.
const RESPONSE: &str = "3082039830030201003082038f06092a864886f70d010702a08203803082037c020103310f300d0609608648016503040201\
    0500307c060b2a864886f70d0109100104a06d046b306902010106042a0304013031300d0609608648016503040201050004\
    2009ca7e4eaa6e8ae9c7d261167129184883644d07dfba7cbfbc4c8a2e08360d5b020102180f323032363131313630313534\
    30315a300a020101800201f48101640101ff02080807060504030201a082019a308201963082013ba0030201020214143cf6\
    82e774aac9c77a39e894e6c04010e14aa7300a06082a8648ce3d040302301d311b301906035504030c12546573742054696d\
    65205374616d70696e673020170d3236313131363031353430315a180f32313236313032333031353430315a301d311b3019\
    06035504030c12546573742054696d65205374616d70696e673059301306072a8648ce3d020106082a8648ce3d0301070342\
    0004f71700c0ba5d7aa6655ac06280b8021399519504f3c41a248cd187db7eae0dfeb7a56e073a51e40838e942b4ed429355\
    a06c9fd3e5fe22e8d6e98237cf44b5e8a3573055300c0603551d130101ff04023000300e0603551d0f0101ff040403020780\
    30160603551d250101ff040c300a06082b06010505070308301d0603551d0e04160414a25a72f9aa3ce77ff053e4d2005936\
    13ef1f2737300a06082a8648ce3d040302034900304602210097e8642c5adf2b54673af479101ecd0b2e4e2f77bf0f9755b9\
    b3eabedf068bd9022100b8c5c7fed4c03ea322e85ff5eacceb256cd38f5116a6838e510fe02f359378013182014830820144\
    0201013035301d311b301906035504030c12546573742054696d65205374616d70696e670214143cf682e774aac9c77a39e8\
    94e6c04010e14aa7300d06096086480165030402010500a081a4301a06092a864886f70d010903310d060b2a864886f70d01\
    09100104301c06092a864886f70d010905310f170d3236313131363031353430315a302f06092a864886f70d010904312204\
    204bd2a0a6f28b0106c5e2f6b1fea7e959c704a31d9f9f6abeed0fc78d26863cd73037060b2a864886f70d010910022f3128\
    3026302430220420003dac89c9275b8a923edce81cb11bc1937067b6e650b8888fea166b22e95091300a06082a8648ce3d04\
    030204463044022024ec1bab262ca790aece56bae54f0296fd1305011d8427ae48ea2b30be7ab383022015818d2e9ce538cd\
    aeaaa097b76bd7b55711e8ef9cf966523f597aa7297db87b\
";

/// The response of a server that does not support a policy.
const REFUSAL: &str = "3030302e02010230240c2252657175657374656420706f6c696379206973206e6f7420737570706f727465642e0303\
    000001";

const RANDOM: [u8; 8] = [1, 2, 3, 4, 5, 6, 7, 8];

fn octets(hex: &str) -> Vec<u8> {
    (0..hex.len() / 2)
        .map(|i| u8::from_str_radix(&hex[2 * i..2 * i + 2], 16).unwrap())
        .collect()
}

fn request() -> TimeStampReq {
    build_request(DigestAlgorithm::Sha256, octets(DIGEST), RANDOM)
}

fn response() -> TimeStampResponse {
    TimeStampResponse::from(TimeStampResp::decode(&octets(RESPONSE)).unwrap())
}

fn written(tag: u8, content: &[u8]) -> Vec<u8> {
    let mut out: Vec<u8> = Vec::new();
    write_value(&mut out, tag, content);
    out
}

fn reply(request: &TimeStampReq, body: &[u8]) -> Result<TimeStampResponse, TimeStampError> {
    handle_reply(request, 200, Some(b"application/timestamp-reply"), body)
}

/// The value of the attribute that an object identifier names.
fn attribute(attributes: &[u8], name: &[u8]) -> Option<Vec<u8>> {
    let mut at: usize = 0;
    while at < attributes.len() {
        let a = read_needed(attributes, at, attributes.len() as u128, SEQUENCE).unwrap();
        let o = read_needed(attributes, a.start, a.end, OBJECT_IDENTIFIER).unwrap();
        let v = read_needed(attributes, o.end as usize, a.end, SET).unwrap();
        if o.octets(attributes).unwrap() == name {
            return Some(v.octets(attributes).unwrap());
        }
        at = a.end as usize;
    }
    None
}

/// Whether the digest of the signed content is the one that the signer signed.
fn verify_message_digest(signed: &SignedData, signer: &SignerInfo) -> bool {
    let content = signed.content_info.content.as_ref().unwrap();
    let digest = ring::digest::digest(&ring::digest::SHA256, content);
    let message_digest = [42, 134, 72, 134, 247, 13, 1, 9, 4];
    let value = attribute(signer.signed_attributes.as_ref().unwrap(), &message_digest).unwrap();
    value == written(OCTET_STRING, digest.as_ref())
}

/// Whether the signature is one of the signed attributes, made with the key of the certificate.
fn verify_signature(signed: &SignedData, signer: &SignerInfo) -> bool {
    let certificate = x509_certificate::X509Certificate::from_der(signed.certificates.as_ref().unwrap()).unwrap();
    let attributes = written(SET, signer.signed_attributes.as_ref().unwrap());
    ring::signature::UnparsedPublicKey::new(
        &ring::signature::ECDSA_P256_SHA256_ASN1,
        certificate.public_key_data(),
    )
    .verify(&attributes, &signer.signature)
    .is_ok()
}

#[test]
fn verify_static() {
    let signed_data = response().signed_data().unwrap().unwrap();
    assert_eq!(signed_data.signer_infos.len(), 1);

    for signer in &signed_data.signer_infos {
        assert!(verify_message_digest(&signed_data, signer));
        assert!(verify_signature(&signed_data, signer));
    }
}

#[test]
fn simple_request() {
    let message = b"hello, world";

    let created = create_request(message, DigestAlgorithm::Sha256).unwrap();
    let request = build_request(
        DigestAlgorithm::Sha256,
        created.message_imprint.hashed_message,
        RANDOM,
    );
    let res = reply(&request, &octets(RESPONSE)).unwrap();

    let signed_data = res.signed_data().unwrap().unwrap();
    assert_eq!(
        signed_data.content_info.content_type,
        OID_CONTENT_TYPE_TST_INFO
    );
    let tst_info = res.tst_info().unwrap().unwrap();
    assert!(tst_info.version.is_same(&Integer::from_u64(1)));

    for signer in &signed_data.signer_infos {
        assert!(verify_message_digest(&signed_data, signer));
        assert!(verify_signature(&signed_data, signer));
    }
}

#[test]
fn altered_content_is_noticed() {
    let mut body = octets(RESPONSE);
    // The last digit of the time.
    body[151] ^= 1;
    let res = TimeStampResponse::from(TimeStampResp::decode(&body).unwrap());
    let signed_data = res.signed_data().unwrap().unwrap();
    assert!(!verify_message_digest(&signed_data, &signed_data.signer_infos[0]));
    assert!(verify_signature(&signed_data, &signed_data.signer_infos[0]));
}

#[test]
fn response_fields() {
    let res = response();
    assert!(res.is_success());
    assert_eq!(res.token_content_size(), Some(896));
    assert_eq!(res.status.status, PkiStatus::Granted);
    assert!(res.status.status_string.is_none());
    assert!(res.status.fail_info.is_none());
    let token = res.time_stamp_token.as_ref().unwrap();
    assert_eq!(token.content_type, OID_ID_SIGNED_DATA);
    assert_eq!(token.start, 28);
    assert_eq!(token.content, octets(RESPONSE)[28..924]);
}

#[test]
fn signed_data_fields() {
    let signed = response().signed_data().unwrap().unwrap();
    let sha256 = [96, 134, 72, 1, 101, 3, 4, 2, 1];
    let ecdsa_with_sha256 = [42, 134, 72, 206, 61, 4, 3, 2];
    assert_eq!(signed.version, 3);
    assert_eq!(signed.digest_algorithms.len(), 1);
    assert_eq!(signed.digest_algorithms[0].algorithm, sha256);
    assert_eq!(signed.digest_algorithms[0].parameters, Some(vec![5, 0]));
    assert_eq!(signed.content_info.content.as_ref().unwrap().len(), 107);
    assert_eq!(signed.certificates.as_ref().unwrap().len(), 410);
    assert!(signed.crls.is_none());
    let signer = &signed.signer_infos[0];
    assert_eq!(signer.version, 1);
    assert_eq!(signer.sid, octets(RESPONSE)[603..658]);
    assert_eq!(signer.digest_algorithm.algorithm, sha256);
    assert_eq!(signer.signature_algorithm.algorithm, ecdsa_with_sha256);
    assert_eq!(signer.signature_algorithm.parameters, None);
    assert_eq!(signer.signed_attributes.as_ref().unwrap().len(), 164);
    assert_eq!(signer.signature.len(), 70);
    assert!(signer.unsigned_attributes.is_none());
}

#[test]
fn tst_info_fields() {
    let info = response().tst_info().unwrap().unwrap();
    assert!(info.version.is_same(&Integer::from_u64(1)));
    assert_eq!(info.policy, [42, 3, 4, 1]);
    assert_eq!(info.message_imprint.hashed_message, octets(DIGEST));
    assert_eq!(
        info.message_imprint.hash_algorithm.algorithm,
        [96, 134, 72, 1, 101, 3, 4, 2, 1]
    );
    assert_eq!(info.serial_number.as_slice(), [2]);
    assert_eq!(info.gen_time, b"20261116015401Z");
    let accuracy = info.accuracy.unwrap();
    assert_eq!(accuracy.seconds.unwrap().as_slice(), [1]);
    assert_eq!(accuracy.millis.unwrap().as_slice(), [1, 0xf4]);
    assert_eq!(accuracy.micros.unwrap().as_slice(), [100]);
    assert_eq!(info.ordering, Some(true));
    assert!(info.nonce.unwrap().is_same(&Integer::from_u64(0x0807060504030201)));
    assert!(info.tsa.is_none());
    assert!(info.extensions.is_none());
}

#[test]
fn refusal_is_handed_out() {
    let res = reply(&request(), &octets(REFUSAL)).unwrap();
    assert!(!res.is_success());
    assert_eq!(res.status.status, PkiStatus::Rejection);
    assert_eq!(
        res.status.status_string,
        Some(vec![String::from("Requested policy is not supported.")])
    );
    assert_eq!(res.status.fail_info, Some(vec![0, 0, 1]));
    assert_eq!(res.token_content_size(), None);
    assert!(res.signed_data().unwrap().is_none());
    assert!(res.tst_info().unwrap().is_none());
}

#[test]
fn built_request_is_encoded() {
    let request = request();
    assert!(request.is_encodable());
    assert_eq!(request.encode(), octets(REQUEST));
}

#[test]
fn encoded_request_is_read_back() {
    let mut body = octets(REQUEST);
    body.extend_from_slice(&[1, 2, 3]);
    let read = TimeStampReq::decode(&body).unwrap();
    assert_eq!(read.version.as_slice(), [1]);
    assert_eq!(read.message_imprint.hash_algorithm.parameters, Some(vec![5, 0]));
    assert_eq!(read.message_imprint.hashed_message, octets(DIGEST));
    assert!(read.req_policy.is_none());
    assert_eq!(read.nonce.unwrap().as_slice(), [8, 7, 6, 5, 4, 3, 2, 1]);
    assert_eq!(read.cert_req, Some(true));
    assert!(read.extensions.is_none());
}

#[test]
fn request_with_all_fields_is_read_back() {
    let request = TimeStampReq {
        version: Integer::from_octets(vec![0xff, 0x7f]).unwrap(),
        message_imprint: MessageImprint {
            hash_algorithm: AlgorithmIdentifier {
                algorithm: vec![43, 14, 3, 2, 26],
                parameters: Some(vec![]),
            },
            hashed_message: vec![7; 300],
        },
        req_policy: Some(vec![42, 3, 4, 1]),
        nonce: Some(Integer::from_u64(u64::MAX)),
        cert_req: Some(false),
        extensions: Some(octets("3003020105")),
    };
    assert!(request.is_encodable());
    let read = TimeStampReq::decode(&request.encode()).unwrap();
    assert!(read.version.is_same(&request.version));
    assert_eq!(read.message_imprint.hash_algorithm.algorithm, [43, 14, 3, 2, 26]);
    assert_eq!(read.message_imprint.hash_algorithm.parameters, None);
    assert_eq!(read.message_imprint.hashed_message, vec![7; 300]);
    assert_eq!(read.req_policy, request.req_policy);
    assert!(read.nonce.unwrap().is_same(request.nonce.as_ref().unwrap()));
    assert_eq!(read.cert_req, Some(false));
    assert_eq!(read.extensions, request.extensions);
}

#[test]
fn other_requests_have_other_octets() {
    let other = build_request(DigestAlgorithm::Sha256, octets(DIGEST), [0; 8]);
    assert_ne!(other.encode(), request().encode());
    assert_eq!(other.nonce.as_ref().unwrap().as_slice(), [0]);
    let other = build_request(DigestAlgorithm::Sha384, octets(DIGEST), RANDOM);
    assert_ne!(other.encode(), request().encode());
}

#[test]
fn created_request() {
    let request = create_request(b"hello, world", DigestAlgorithm::Sha256).unwrap();
    assert!(request.version.is_same(&Integer::from_u64(1)));
    assert_eq!(request.message_imprint.hashed_message, octets(DIGEST));
    assert_eq!(
        request.message_imprint.hash_algorithm.algorithm,
        [96, 134, 72, 1, 101, 3, 4, 2, 1]
    );
    assert_eq!(request.message_imprint.hash_algorithm.parameters, None);
    assert!(request.req_policy.is_none());
    assert!(request.nonce.is_some());
    assert_eq!(request.cert_req, Some(true));
    assert!(request.extensions.is_none());
}

#[test]
fn failed_random_source() {
    let failed = request_from(DigestAlgorithm::Sha256, octets(DIGEST), Err(ring::error::Unspecified));
    assert!(matches!(failed.unwrap_err(), TimeStampError::Random));
    let drawn = request_from(DigestAlgorithm::Sha256, octets(DIGEST), Ok(RANDOM)).unwrap();
    assert_eq!(drawn.encode(), octets(REQUEST));
}

#[test]
fn nonces_differ() {
    let a = create_request(b"a", DigestAlgorithm::Sha256).unwrap();
    let b = create_request(b"a", DigestAlgorithm::Sha256).unwrap();
    assert!(!a.nonce.unwrap().is_same(&b.nonce.unwrap()));
}

#[test]
fn digests_of_all_algorithms() {
    let cases = [
        (
            DigestAlgorithm::Sha1,
            vec![43, 14, 3, 2, 26],
            "a9993e364706816aba3e25717850c26c9cd0d89d",
        ),
        (
            DigestAlgorithm::Sha256,
            vec![96, 134, 72, 1, 101, 3, 4, 2, 1],
            "ba7816bf8f01cfea414140de5dae2223b00361a396177a9cb410ff61f20015ad",
        ),
        (
            DigestAlgorithm::Sha384,
            vec![96, 134, 72, 1, 101, 3, 4, 2, 2],
            "cb00753f45a35e8bb5a03d699ac65007272c32ab0eded1631a8b605a43ff5bed8086072ba1e7cc2358baeca134c825a7",
        ),
        (
            DigestAlgorithm::Sha512,
            vec![96, 134, 72, 1, 101, 3, 4, 2, 3],
            "ddaf35a193617abacc417349ae20413112e6fa4e89a97ea20a9eeee64b55d39a\
             2192992a274fc1a836ba3c23a3feebbd454d4423643ce80e2a9ac94fa54ca49f",
        ),
    ];
    for (algorithm, identifier, digest) in cases {
        let request = create_request(b"abc", algorithm).unwrap();
        assert_eq!(request.message_imprint.hash_algorithm.algorithm, identifier);
        assert_eq!(request.message_imprint.hashed_message, octets(digest));
    }
}

#[test]
fn other_replies_are_refused() {
    let request = request();
    let body = octets(RESPONSE);
    let kind: Option<&[u8]> = Some(b"application/timestamp-reply");
    let cases: [(u16, Option<&[u8]>); 7] = [
        (199, kind),
        (300, kind),
        (404, kind),
        (200, None),
        (200, Some(b"application/timestamp-query")),
        (200, Some(b"Application/timestamp-reply")),
        (200, Some(b"application/timestamp-reply; charset=utf-8")),
    ];
    for (status, content_type) in cases {
        assert!(!accepts_reply(status, content_type));
        let error = handle_reply(&request, status, content_type, &body).unwrap_err();
        assert!(matches!(&error, TimeStampError::Http(text) if text == "bad HTTP response"));
        assert_eq!(error.text(), "bad HTTP response");
    }
    assert!(accepts_reply(200, kind));
    assert!(accepts_reply(299, kind));
    assert_eq!(HTTP_CONTENT_TYPE_REQUEST, "application/timestamp-query");
    assert_eq!(HTTP_CONTENT_TYPE_RESPONSE, "application/timestamp-reply");
}

#[test]
fn other_nonces_are_refused() {
    let body = octets(RESPONSE);
    let other = build_request(DigestAlgorithm::Sha256, octets(DIGEST), [1, 2, 3, 4, 5, 6, 7, 9]);
    assert!(matches!(
        reply(&other, &body).unwrap_err(),
        TimeStampError::NonceMismatch
    ));
    let mut none = request();
    none.nonce = None;
    assert!(matches!(
        decode_reply(&none, &body).unwrap_err(),
        TimeStampError::NonceMismatch
    ));
    assert!(reply(&request(), &body).is_ok());
}

#[test]
fn malformed_replies_are_refused() {
    let request = request();
    let body = octets(RESPONSE);
    let error = reply(&request, &body[..923]).unwrap_err();
    assert_eq!(error.text(), "ASN.1 decode error: short primitive value (at position 28)");
    // The version of the signed data.
    let mut other = body.clone();
    other[34] = 6;
    let error = reply(&request, &other).unwrap_err();
    assert_eq!(error.text(), "ASN.1 decode error: unexpected CMSVersion (at position 4)");
    // The month of the time.
    let mut other = body.clone();
    other[142] = b'3';
    let error = reply(&request, &other).unwrap_err();
    assert_eq!(error.text(), "ASN.1 decode error: invalid time (at position 67)");
    // The same in a response that was not granted, which is not looked into.
    other[8] = 3;
    let res = reply(&request, &other).unwrap();
    assert!(!res.is_success());
    assert_eq!(res.tst_info().unwrap_err().text(), "invalid time (at position 67)");
    // Nothing at all.
    let error = reply(&request, &[]).unwrap_err();
    assert_eq!(error.text(), "ASN.1 decode error: missing further values (at position 0)");
}

#[test]
fn what_follows_a_response_is_ignored() {
    let request = request();
    let mut body = octets(RESPONSE);
    body.extend_from_slice(&[0xff, 0x00, 0x30]);
    let res = reply(&request, &body).unwrap();
    assert_eq!(res.token_content_size(), Some(896));
}

#[test]
fn other_content_type_is_an_error() {
    let mut body = octets(RESPONSE);
    // The last number of the object identifier: data in place of signed data.
    body[23] = 1;
    let error = reply(&request(), &body).unwrap_err();
    assert!(matches!(
        error,
        TimeStampError::Asn1Decode(DecodeError {
            reason: Reason::NotSignedData,
            position: 28
        })
    ));
    assert_eq!(
        error.text(),
        "ASN.1 decode error: invalid OID on signed data (at position 28)"
    );
}

#[test]
fn token_without_content_has_no_information() {
    // Signed data of another type, and signed data that do not hold their content.
    let algorithms = written(SET, &[]);
    let signers = written(SET, &[]);
    let other = written(SEQUENCE, &[octets("06012a"), octets("a0030401aa")].concat());
    let none = written(SEQUENCE, &written(OBJECT_IDENTIFIER, &OID_CONTENT_TYPE_TST_INFO));
    for info in [other, none] {
        let signed = written(
            SEQUENCE,
            &[octets("020101"), algorithms.clone(), info, signers.clone()].concat(),
        );
        let res = TimeStampResponse::from(TimeStampResp {
            status: PkiStatusInfo {
                status: PkiStatus::GrantedWithMods,
                status_string: None,
                fail_info: None,
            },
            time_stamp_token: Some(ContentInfo {
                content_type: OID_ID_SIGNED_DATA.to_vec(),
                content: signed,
                start: 0,
            }),
        });
        assert!(res.is_success());
        assert!(res.signed_data().unwrap().is_some());
        assert!(res.tst_info().unwrap().is_none());
    }
}

#[test]
fn error_texts() {
    let refusal = TimeStampResp::decode(&octets(REFUSAL)).unwrap();
    let silent = TimeStampResp {
        status: PkiStatusInfo {
            status: PkiStatus::Waiting,
            status_string: None,
            fail_info: None,
        },
        time_stamp_token: None,
    };
    let talkative = TimeStampResp {
        status: PkiStatusInfo {
            status: PkiStatus::RevocationWarning,
            status_string: Some(vec![String::from("a \"b\""), String::from("c\n")]),
            fail_info: None,
        },
        time_stamp_token: None,
    };
    let shown = format!(
        "unsuccessful Time-Stamp Protocol response: {:?}: {:?}",
        talkative.status.status, talkative.status.status_string
    );
    let cases = [
        (TimeStampError::Io(String::from("x")), "I/O error: x"),
        (TimeStampError::Isahc(String::from("x")), "HTTP client error: x"),
        (TimeStampError::Reqwest(String::from("x")), "HTTP error: x"),
        (TimeStampError::Ureq(String::from("x")), "HTTP client error: x"),
        (
            TimeStampError::from(DecodeError { reason: Reason::TrailingData, position: 7 }),
            "ASN.1 decode error: trailing data (at position 7)",
        ),
        (
            TimeStampError::from(DecodeError { reason: Reason::NotSignedData, position: 10203 }),
            "ASN.1 decode error: invalid OID on signed data (at position 10203)",
        ),
        (TimeStampError::Http(String::from("x")), "x"),
        (TimeStampError::Random, "error generating random nonce"),
        (TimeStampError::NonceMismatch, "nonce mismatch"),
        (
            TimeStampError::Unsuccessful(refusal),
            "unsuccessful Time-Stamp Protocol response: Rejection: Some([\"Requested policy is not supported.\"])",
        ),
        (
            TimeStampError::Unsuccessful(silent),
            "unsuccessful Time-Stamp Protocol response: Waiting: None",
        ),
        (TimeStampError::Unsuccessful(talkative), shown.as_str()),
        (TimeStampError::BadResponse, "bad server response"),
    ];
    for (error, text) in cases {
        assert_eq!(error.text(), text);
    }
}

#[test]
fn statuses() {
    let cases = [
        (0, PkiStatus::Granted, true),
        (1, PkiStatus::GrantedWithMods, true),
        (2, PkiStatus::Rejection, false),
        (3, PkiStatus::Waiting, false),
        (4, PkiStatus::RevocationWarning, false),
        (5, PkiStatus::RevocationNotification, false),
    ];
    for (number, status, success) in cases {
        let res = TimeStampResp::decode(&[0x30, 5, 0x30, 3, 2, 1, number]).unwrap();
        assert_eq!(res.status.status, status);
        assert_eq!(TimeStampResponse::from(res).is_success(), success);
    }
    assert!(TimeStampResp::decode(&[0x30, 5, 0x30, 3, 2, 1, 6]).is_err());
    assert!(TimeStampResp::decode(&[0x30, 6, 0x30, 4, 2, 2, 0, 0]).is_err());
    assert!(TimeStampResp::decode(&[0x30, 4, 0x30, 2, 2, 0]).is_err());
}

#[test]
fn failure_information() {
    // Two texts, and a bit string with unused bits.
    let body = octets("3013301102010230080c01610c03e282ac03020480");
    let res = TimeStampResp::decode(&body).unwrap();
    assert_eq!(
        res.status.status_string,
        Some(vec![String::from("a"), String::from("\u{20ac}")])
    );
    assert_eq!(res.status.fail_info, Some(vec![4, 0x80]));
    // An unused bit that is set, too many unused bits, unused bits of none, and no content.
    for fail in ["03020488", "03020880", "030101", "0300"] {
        let content = [octets("020102"), octets(fail)].concat();
        assert!(TimeStampResp::decode(&written(SEQUENCE, &written(SEQUENCE, &content))).is_err());
    }
    // No bits at all.
    let content = octets("020102030100");
    assert!(TimeStampResp::decode(&written(SEQUENCE, &written(SEQUENCE, &content))).is_ok());
    // A text that is not UTF-8.
    let content = octets("02010230030c0180");
    assert!(TimeStampResp::decode(&written(SEQUENCE, &written(SEQUENCE, &content))).is_err());
}

#[test]
fn times() {
    let content = response().signed_data().unwrap().unwrap().content_info.content.unwrap();
    let at = content.windows(2).position(|w| w == [0x18, 0x0f]).unwrap();
    let body = read_needed(&content, 0, content.len() as u128, SEQUENCE).unwrap();
    let info = |time: &[u8]| {
        let inner = [
            content[body.start..at].to_vec(),
            written(0x18, time),
            content[at + 17..].to_vec(),
        ]
        .concat();
        TstInfo::decode(&written(SEQUENCE, &inner))
    };
    for time in [
        "20240229235959Z",
        "20000229000000Z",
        "20231231000000.5Z",
        "20231130000000.123456789012Z",
        "00000101000000Z",
    ] {
        assert_eq!(info(time.as_bytes()).unwrap().gen_time, time.as_bytes());
    }
    for time in [
        "20230229000000Z",
        "19000229000000Z",
        "20230431000000Z",
        "20230001000000Z",
        "20231301000000Z",
        "20230100000000Z",
        "20230101240000Z",
        "20230101006000Z",
        "20230101000060Z",
        "20230101000000",
        "20230101000000.Z",
        "20230101000000,5Z",
        "20230101000000.5",
        "20230101000000.5aZ",
        "2023010100000Z",
        "20230101000000+0000",
        "2023010100000:Z",
    ] {
        assert_eq!(info(time.as_bytes()).unwrap_err().reason, Reason::InvalidTime);
    }
}

#[test]
fn truth_values() {
    let mut body = octets(REQUEST);
    let last = body.len() - 1;
    body[last] = 0;
    assert_eq!(TimeStampReq::decode(&body).unwrap().cert_req, Some(false));
    body[last] = 1;
    let error = TimeStampReq::decode(&body).unwrap_err();
    assert_eq!(error, DecodeError { reason: Reason::InvalidBoolean, position: last + 1 });
}

type Taken<T, S> = Result<T, bcder::decode::DecodeError<<S as Source>::Error>>;

/// A response as `bcder` takes it: the status, and the token's type and content.
fn outside_response<S: Source>(cons: &mut Constructed<S>) -> Taken<(u8, Option<(bcder::Oid, bcder::Captured)>), S> {
    cons.take_sequence(|cons| {
        let status = cons.take_sequence(|cons| {
            let status = cons.take_u8()?;
            if status > 5 {
                return Err(cons.content_err("unknown PKIStatus value"));
            }
            cons.take_opt_sequence(|cons| {
                while bcder::Utf8String::take_opt_from(cons)?.is_some() {}
                Ok(())
            })?;
            cons.take_opt_value_if(bcder::Tag::BIT_STRING, |content| bcder::BitString::from_content(content))?;
            Ok(status)
        })?;
        let token = cons.take_opt_sequence(|cons| {
            let content_type = bcder::Oid::take_from(cons)?;
            let content = cons.take_constructed_if(bcder::Tag::CTX_0, |cons| cons.capture_all())?;
            Ok((content_type, content))
        })?;
        Ok((status, token))
    })
}

fn outside_algorithm<S: Source>(cons: &mut Constructed<S>) -> Taken<(), S> {
    x509_certificate::rfc5280::AlgorithmIdentifier::take_from(cons).map(|_| ())
}

fn outside_version<S: Source>(cons: &mut Constructed<S>) -> Taken<(), S> {
    if cons.take_u8()? > 5 {
        return Err(cons.content_err("unexpected CMSVersion"));
    }
    Ok(())
}

/// Signed data as `bcder` takes it: the type of the content, and the content.
fn outside_signed_data<S: Source>(cons: &mut Constructed<S>) -> Taken<(bcder::Oid, Option<bcder::OctetString>), S> {
    cons.take_sequence(|cons| {
        outside_version(cons)?;
        cons.take_set(|cons| {
            while x509_certificate::rfc5280::AlgorithmIdentifier::take_opt_from(cons)?.is_some() {}
            Ok(())
        })?;
        let content = cons.take_sequence(|cons| {
            let content_type = bcder::Oid::take_from(cons)?;
            let content =
                cons.take_opt_constructed_if(bcder::Tag::CTX_0, |cons| bcder::OctetString::take_from(cons))?;
            Ok((content_type, content))
        })?;
        cons.take_opt_constructed_if(bcder::Tag::CTX_0, |cons| cons.capture_all())?;
        cons.take_opt_constructed_if(bcder::Tag::CTX_1, |cons| cons.capture_all())?;
        cons.take_set(|cons| {
            while cons
                .take_opt_sequence(|cons| {
                    outside_version(cons)?;
                    if cons.take_opt_sequence(|cons| cons.capture_all())?.is_none() {
                        cons.take_primitive_if(bcder::Tag::CTX_0, |prim| prim.take_all())?;
                    }
                    outside_algorithm(cons)?;
                    cons.take_opt_constructed_if(bcder::Tag::CTX_0, |cons| cons.capture_all())?;
                    outside_algorithm(cons)?;
                    bcder::OctetString::take_from(cons)?;
                    cons.take_opt_constructed_if(bcder::Tag::CTX_1, |cons| cons.capture_all())?;
                    Ok(())
                })?
                .is_some()
            {}
            Ok(())
        })?;
        Ok(content)
    })
}

fn outside_imprint<S: Source>(cons: &mut Constructed<S>) -> Taken<(), S> {
    cons.take_sequence(|cons| {
        outside_algorithm(cons)?;
        bcder::OctetString::take_from(cons)?;
        Ok(())
    })
}

fn outside_optional_integer<S: Source>(cons: &mut Constructed<S>, tag: bcder::Tag) -> Taken<Option<bcder::Integer>, S> {
    cons.take_opt_primitive_if(tag, |prim| bcder::Integer::from_primitive(prim))
}

/// The information of a token as `bcder` takes it, whatever the time is: the nonce.
fn outside_tst_info<S: Source>(cons: &mut Constructed<S>) -> Taken<Option<bcder::Integer>, S> {
    cons.take_sequence(|cons| {
        bcder::Integer::take_from(cons)?;
        bcder::Oid::take_from(cons)?;
        outside_imprint(cons)?;
        bcder::Integer::take_from(cons)?;
        cons.take_primitive_if(bcder::Tag::GENERALIZED_TIME, |prim| prim.take_all())?;
        cons.take_opt_sequence(|cons| {
            outside_optional_integer(cons, bcder::Tag::INTEGER)?;
            outside_optional_integer(cons, bcder::Tag::CTX_0)?;
            outside_optional_integer(cons, bcder::Tag::CTX_1)
        })?;
        cons.take_opt_bool()?;
        let nonce = outside_optional_integer(cons, bcder::Tag::INTEGER)?;
        cons.take_opt_constructed_if(bcder::Tag::CTX_0, |cons| cons.capture_all())?;
        cons.take_opt_constructed_if(bcder::Tag::CTX_1, |cons| cons.capture_all())?;
        Ok(nonce)
    })
}

/// A request as `bcder` takes it: the nonce.
fn outside_request<S: Source>(cons: &mut Constructed<S>) -> Taken<Option<bcder::Integer>, S> {
    cons.take_sequence(|cons| {
        bcder::Integer::take_from(cons)?;
        outside_imprint(cons)?;
        bcder::Oid::take_opt_from(cons)?;
        let nonce = outside_optional_integer(cons, bcder::Tag::INTEGER)?;
        cons.take_opt_bool()?;
        cons.take_opt_constructed_if(bcder::Tag::CTX_0, |cons| cons.capture_all())?;
        Ok(nonce)
    })
}

/// Octets that are not quite others: cut short, with another octet, with one more or one less.
fn altered(data: &[u8]) -> Vec<Vec<u8>> {
    let mut list: Vec<Vec<u8>> = Vec::new();
    for i in 0..data.len() {
        list.push(data[..i].to_vec());
        for change in [0x01u8, 0x02, 0x04, 0x10, 0x1f, 0x20, 0x40, 0x80, 0xff] {
            let mut other = data.to_vec();
            other[i] ^= change;
            list.push(other);
        }
        for octet in [0x00u8, 0x30, 0x80, 0x84] {
            let mut other = data.to_vec();
            other[i] = octet;
            list.push(other.clone());
            other[i] = data[i];
            other.insert(i, octet);
            list.push(other);
        }
        let mut other = data.to_vec();
        other.remove(i);
        list.push(other);
    }
    list
}

/// Responses and the signed data in them are read, or refused, as by `bcder`, for the same reason
/// and at the same place.
#[test]
fn altered_responses() {
    let mut faults: std::collections::BTreeSet<String> = std::collections::BTreeSet::new();
    let mut cases = altered(&octets(RESPONSE));
    cases.extend(altered(&octets(REFUSAL)));
    cases.extend(altered(&octets("3013301102010230080c01610c03e282ac03020480")));
    for body in cases {
        let theirs = Constructed::decode(body.as_slice(), bcder::Mode::Der, |cons| outside_response(cons));
        let (ours, (status, token)) = match (TimeStampResp::decode(&body), theirs) {
            (Ok(ours), Ok(theirs)) => (TimeStampResponse::from(ours), theirs),
            (Err(ours), Err(theirs)) => {
                assert_eq!(ours.text(), theirs.to_string());
                faults.insert(ours.reason.text().to_string());
                continue;
            }
            // Octets behind the first of a character are not looked at closely.
            (Err(ours), Ok(_)) if ours.reason == Reason::InvalidCharacter => continue,
            (ours, theirs) => panic!("{:?} {:?}", ours, theirs.is_ok()),
        };
        assert_eq!(ours.is_success(), status < 2);
        assert_eq!(ours.token_content_size(), token.as_ref().map(|(_, content)| content.len()));
        let Some((content_type, content)) = token else {
            continue;
        };
        if content_type.as_ref() as &[u8] != OID_ID_SIGNED_DATA {
            let error = Source::content_err(
                &bcder::decode::IntoSource::into_source(content),
                "invalid OID on signed data",
            );
            assert_eq!(ours.signed_data().unwrap_err().text(), error.to_string());
            continue;
        }
        match (ours.signed_data(), content.decode(|cons| outside_signed_data(cons))) {
            (Ok(Some(ours)), Ok((content_type, content))) => {
                assert_eq!(ours.content_info.content_type, content_type.as_ref() as &[u8]);
                assert_eq!(ours.content_info.content, content.map(|c| c.to_bytes().to_vec()));
            }
            (Err(ours), Err(theirs)) => {
                assert_eq!(ours.text(), theirs.to_string());
                faults.insert(ours.reason.text().to_string());
            }
            (ours, theirs) => panic!("{:?} {:?}", ours, theirs.is_ok()),
        }
    }
    assert!(faults.len() > 18, "{:?}", faults);
}

/// The same of the information that a token carries.
#[test]
fn altered_information() {
    let data = response().signed_data().unwrap().unwrap().content_info.content.unwrap();
    for case in altered(&data) {
        let theirs = Constructed::decode(case.as_slice(), bcder::Mode::Der, |cons| outside_tst_info(cons));
        match (TstInfo::decode(&case), theirs) {
            (Ok(ours), Ok(theirs)) => {
                assert_eq!(ours.nonce.map(|n| n.as_slice().to_vec()), theirs.map(|n| n.as_slice().to_vec()));
            }
            (Err(ours), Err(theirs)) => {
                assert!(ours.reason == Reason::InvalidTime || ours.text() == theirs.to_string());
            }
            (ours, theirs) => {
                assert!(theirs.is_ok());
                assert_eq!(ours.unwrap_err().reason, Reason::InvalidTime);
            }
        }
    }
}

/// The same of requests.
#[test]
fn altered_requests() {
    for case in altered(&octets(REQUEST)) {
        let theirs = Constructed::decode(case.as_slice(), bcder::Mode::Der, |cons| outside_request(cons));
        match (TimeStampReq::decode(&case), theirs) {
            (Ok(ours), Ok(theirs)) => {
                assert_eq!(ours.nonce.map(|n| n.as_slice().to_vec()), theirs.map(|n| n.as_slice().to_vec()));
            }
            (Err(ours), Err(theirs)) => assert_eq!(ours.text(), theirs.to_string()),
            (ours, theirs) => panic!("{:?} {:?}", ours, theirs.is_ok()),
        }
    }
}

/// Octets are values exactly where `bcder` captures them.
#[test]
fn captured_values() {
    let mut state: u64 = 0x9e3779b97f4a7c15;
    let mut accepted = 0;
    for round in 0..20000usize {
        let mut inner: Vec<u8> = Vec::new();
        for _ in 0..round % 14 {
            state = state.wrapping_mul(6364136223846793005).wrapping_add(1442695040888963407);
            let pick = (state >> 33) as u8;
            let small = [0x00, 0x00, 0x01, 0x02, 0x04, 0x20, 0x24, 0x30, 0x30, 0x80, 0x80, 0x81, 0x1f, 0x3f, 0xa0, pick];
            inner.push(small[((state >> 41) % 16) as usize]);
        }
        let data = written(SEQUENCE, &inner);
        let outside = Constructed::decode(data.as_slice(), bcder::Mode::Der, |cons| {
            cons.take_sequence(|cons| cons.capture_all())
        });
        let head = data.len() - inner.len();
        match (check_values(&data, head, data.len() as u128), outside) {
            (Ok(()), Ok(captured)) => {
                assert_eq!(captured.as_slice(), inner);
                accepted += 1;
            }
            (Err(ours), Err(theirs)) => assert_eq!(ours.text(), theirs.to_string(), "{:?}", inner),
            (ours, theirs) => panic!("{:?} {:?} {:?}", inner, ours, theirs.map(|c| c.into_bytes())),
        }
    }
    assert!(accepted > 1000);
}

#[test]
fn deep_values() {
    // Content of open length, many levels deep.
    let depth: usize = 100000;
    let mut data: Vec<u8> = Vec::new();
    for _ in 0..depth {
        data.extend_from_slice(&[0x30, 0x80]);
    }
    assert_eq!(
        check_values(&data, 0, data.len() as u128).unwrap_err(),
        DecodeError { reason: Reason::NoIdentifier, position: data.len() }
    );
    data.resize(4 * depth, 0);
    assert!(check_values(&data, 0, data.len() as u128).is_ok());
}

#[test]
fn written_values_are_read_back() {
    for n in [0usize, 1, 0x7f, 0x80, 0xff, 0x100, 0xffff, 0x1_0000, 0x100_0000] {
        let content = vec![0xab; n];
        let data = written(OCTET_STRING, &content);
        let mut outside: Vec<u8> = Vec::new();
        let value = bcder::OctetString::new(content.clone().into()).encode();
        bcder::encode::Values::write_encoded(&value, bcder::Mode::Der, &mut outside).unwrap();
        assert!(data == outside);
        let v = read_needed(&data, 0, data.len() as u128, OCTET_STRING).unwrap();
        assert_eq!(v.end, data.len() as u128);
        assert_eq!(v.octets(&data).unwrap(), content);
        assert!(read_tagged(&data, 0, data.len() as u128, SEQUENCE).unwrap().is_none());
        if n > 0 {
            let error = read_needed(&data, 0, data.len() as u128 - 1, OCTET_STRING).unwrap_err();
            assert_eq!(error.reason, Reason::ExcessiveLength);
            let error = v.octets(&data[..data.len() - 1]).unwrap_err();
            assert_eq!(error.text(), format!("unexpected end of data (at position {})", v.start));
        }
    }
}

/// A value is encoded in one way: what was read is written in the same octets.
#[test]
fn read_values_are_written_back() {
    let body = octets(RESPONSE);
    let mut places: Vec<(usize, usize)> = vec![(0, body.len())];
    let mut seen = 0;
    while let Some((at, limit)) = places.pop() {
        if at == limit {
            continue;
        }
        let v = read_needed(&body, at, limit as u128, body[at]).unwrap();
        let end = v.end as usize;
        assert_eq!(written(v.tag, &v.octets(&body).unwrap()), body[at..end]);
        seen += 1;
        places.push((end, limit));
        if v.tag & 0x20 != 0 {
            places.push((v.start, end));
        }
    }
    assert!(seen > 80);
}

#[test]
fn lengths_are_as_short_as_possible() {
    for (data, text) in [
        (vec![0x04, 0x81, 0x01, 0xaa], "invalid length (at position 3)"),
        (vec![0x04, 0x82, 0x00, 0x01, 0xaa], "invalid length (at position 4)"),
        (vec![0x04, 0x80, 0x00, 0x00], "indefinite length constructed in DER mode (at position 2)"),
        (vec![0x04, 0x85, 0x00], "lengths over 4 bytes not implemented (at position 2)"),
        (vec![0x24, 0x01, 0xaa], "constructed string in DER mode (at position 2)"),
        (vec![0x04, 0x83, 0x01], "unexpected end of data (at position 3)"),
        (vec![0x04], "unexpected end of data (at position 1)"),
        (vec![0x1f, 0x81, 0x81, 0x81, 0x00], "tag values longer than 4 bytes not implemented (at position 0)"),
        (vec![0x1f, 0x81], "short tag value (at position 0)"),
        (vec![0x1f, 0x01, 0x00], "missing further values (at position 0)"),
        (vec![0x02, 0x00], "missing further values (at position 0)"),
        (vec![], "missing further values (at position 0)"),
    ] {
        let error = read_needed(&data, 0, data.len() as u128, OCTET_STRING).unwrap_err();
        assert_eq!(error.text(), text);
    }
    let error = read_needed(&[0x22, 0x00], 0, 2, INTEGER).unwrap_err();
    assert_eq!(error.text(), "expected primitive value (at position 2)");
    let error = read_needed(&[0x10, 0x00], 0, 2, SEQUENCE).unwrap_err();
    assert_eq!(error.text(), "expected constructed value (at position 2)");
}

#[test]
fn integers_are_those_of_bcder() {
    let mut values: Vec<u64> = vec![0, 1, 0x7f, 0x80, 0xff, 0x100, 0x7fff, 0x8000, u64::MAX, 1 << 63];
    for shift in 0..64 {
        values.push(0xdeadbeefcafef00d >> shift);
    }
    for value in values {
        let ours = Integer::from_u64(value);
        let theirs = bcder::Integer::from(value);
        assert_eq!(ours.as_slice(), theirs.as_slice());
        assert!(Integer::from_octets(theirs.as_slice().to_vec()).unwrap().is_same(&ours));
        assert!(!Integer::from_u64(value ^ 1).is_same(&ours));
    }
}

/// Whether `bcder` takes octets for the content of an integer.
fn is_outside_integer(content: &[u8]) -> bool {
    let data = written(0x02, content);
    Constructed::decode(data.as_slice(), bcder::Mode::Der, |cons| bcder::Integer::take_from(cons)).is_ok()
}

#[test]
fn integers_are_as_short_as_possible() {
    for octets in [vec![], vec![0, 0], vec![0, 0x7f], vec![0xff, 0x80], vec![0xff, 0xff]] {
        assert!(!is_outside_integer(&octets));
        assert!(Integer::from_octets(octets).is_none());
    }
    for octets in [vec![0], vec![0, 0x80], vec![0xff, 0x7f], vec![0x80], vec![0xff]] {
        assert!(is_outside_integer(&octets));
        assert_eq!(Integer::from_octets(octets.clone()).unwrap().as_slice(), octets);
    }
}
