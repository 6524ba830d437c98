//! How messages are written, stated apart from how they are read, and that reading gives back what
//! was written and accepts nothing else.

use vstd::arithmetic::power2::{lemma2_to64, pow2};
use vstd::prelude::*;
use vstd::utf8;

use crate::der;
use crate::der::{Fault, Value};
use crate::integer;
use crate::rfc3161;
use crate::rfc3161::{AccuracyModel, ImprintModel, PkiStatus, RequestModel, ResponseModel, StatusModel, TstModel};
use crate::rfc5652;
use crate::rfc5652::{AlgorithmModel, ContentModel, EncapsulatedModel, SignedDataModel, SignerModel};

verus! {

/// The octets of a value that may be missing.
pub open spec fn optional_form(tag: u8, octets: Option<Seq<u8>>) -> Seq<u8> {
    match octets {
        Some(octets) => der::written(tag, octets),
        None => Seq::empty(),
    }
}

/// The content octets of a number that may be missing.
pub open spec fn number_content(number: Option<int>) -> Option<Seq<u8>> {
    match number {
        Some(number) => Some(integer::integer_octets(number)),
        None => None,
    }
}

/// Whether octets that may be missing are values, if they are there.
pub open spec fn are_optional_values(octets: Option<Seq<u8>>) -> bool {
    octets matches Some(octets) ==> der::are_values(octets)
}

/// Whether octets name something: there are some, and the last ends a number.
pub open spec fn is_name(octets: Seq<u8>) -> bool {
    octets.len() > 0 && octets[octets.len() - 1] < 0x80
}

/// Whether an algorithm can be written.
pub open spec fn is_algorithm(a: AlgorithmModel) -> bool {
    &&& is_name(a.algorithm)
    &&& a.parameters matches Some(p) ==> p.len() > 0 && der::are_values(p)
}

/// The octets of an algorithm's parameters.
pub open spec fn parameters_form(parameters: Option<Seq<u8>>) -> Seq<u8> {
    match parameters {
        Some(parameters) => parameters,
        None => Seq::empty(),
    }
}

/// The octets of an algorithm: its name, and its parameters, if it has any.
pub open spec fn algorithm_form(a: AlgorithmModel) -> Seq<u8> {
    der::written(0x30, der::written(0x06, a.algorithm) + parameters_form(a.parameters))
}

/// The octets of algorithms, one after the other.
pub open spec fn algorithms_form(list: Seq<AlgorithmModel>) -> Seq<u8>
    decreases list.len(),
{
    if list.len() == 0 {
        Seq::empty()
    } else {
        algorithm_form(list[0]) + algorithms_form(list.drop_first())
    }
}

/// The octets of signed content: its type, and the content inside an octet string, unless it is
/// kept elsewhere.
pub open spec fn encapsulated_form(c: EncapsulatedModel) -> Seq<u8> {
    der::written(
        0x30,
        der::written(0x06, c.content_type) + optional_form(
            0xa0,
            match c.content {
                Some(content) => Some(der::written(0x04, content)),
                None => None,
            },
        ),
    )
}

/// Whether octets say who a signer is: an issuer with a serial number, or a key identifier.
pub open spec fn is_signer_name(sid: Seq<u8>) -> bool {
    ||| exists|content: Seq<u8>| der::are_values(content) && sid == #[trigger] der::written(0x30, content)
    ||| exists|content: Seq<u8>| sid == #[trigger] der::written(0x80, content)
}

/// Whether a signer can be written.
pub open spec fn is_signer(s: SignerModel) -> bool {
    &&& s.version <= 5
    &&& is_signer_name(s.sid)
    &&& is_algorithm(s.digest_algorithm)
    &&& are_optional_values(s.signed_attributes)
    &&& is_algorithm(s.signature_algorithm)
    &&& are_optional_values(s.unsigned_attributes)
}

/// The content octets of a signer.
pub open spec fn signer_content(s: SignerModel) -> Seq<u8> {
    der::written(0x02, seq![s.version]) + (s.sid + (algorithm_form(s.digest_algorithm) + (optional_form(
        0xa0,
        s.signed_attributes,
    ) + (algorithm_form(s.signature_algorithm) + (der::written(0x04, s.signature) + optional_form(
        0xa1,
        s.unsigned_attributes,
    ))))))
}

/// The octets of signers, one after the other.
pub open spec fn signers_form(list: Seq<SignerModel>) -> Seq<u8>
    decreases list.len(),
{
    if list.len() == 0 {
        Seq::empty()
    } else {
        der::written(0x30, signer_content(list[0])) + signers_form(list.drop_first())
    }
}

/// Whether signed data can be written.
pub open spec fn is_signed_data(d: SignedDataModel) -> bool {
    &&& d.version <= 5
    &&& forall|i: int| 0 <= i < d.digest_algorithms.len() ==> is_algorithm(#[trigger] d.digest_algorithms[i])
    &&& is_name(d.content_info.content_type)
    &&& are_optional_values(d.certificates)
    &&& are_optional_values(d.crls)
    &&& forall|i: int| 0 <= i < d.signer_infos.len() ==> is_signer(#[trigger] d.signer_infos[i])
}

/// The content octets of signed data: the version, the digest algorithms, the content, the
/// certificates, the revocation lists and the signers.
pub open spec fn signed_data_content(d: SignedDataModel) -> Seq<u8> {
    der::written(0x02, seq![d.version]) + (der::written(0x31, algorithms_form(d.digest_algorithms)) + (encapsulated_form(
        d.content_info,
    ) + (optional_form(0xa0, d.certificates) + (optional_form(0xa1, d.crls) + der::written(
        0x31,
        signers_form(d.signer_infos),
    )))))
}

/// The octets of signed data.
pub open spec fn signed_data_form(d: SignedDataModel) -> Seq<u8> {
    der::written(0x30, signed_data_content(d))
}

/// What stands first is held, and what follows it is held behind it.
proof fn lemma_first(s: Seq<u8>, i: int, limit: int, tag: u8, content: Seq<u8>, rest: Seq<u8>)
    requires
        der::holds_at(s, i, der::written(tag, content) + rest),
        tag % 32 != 31,
        content.len() <= 0xffff_ffff,
        i + der::written(tag, content).len() <= limit,
    ensures
        der::tagged_at(s, i, limit, tag) matches Ok(Some(v)) && v.tag == tag && v.end == i + der::written(tag, content).len()
            && v.end == v.start + content.len() && der::content(s, v) == content && i < v.start && v.end <= s.len()
            && der::holds_at(s, v.start, content),
        forall|other: u8|
            der::bare_tag(other) != der::bare_tag(tag) ==> #[trigger] der::tagged_at(s, i, limit, other) == Ok::<
                Option<Value>,
                Fault,
            >(None),
        der::holds_at(s, i, der::written(tag, content)),
        der::holds_at(s, i + der::written(tag, content).len(), rest),
{
    der::lemma_holds_parts(s, i, der::written(tag, content), rest);
    der::written_is_read_back(s, i, limit, tag, content);
}

/// The same of what stands alone.
proof fn lemma_only(s: Seq<u8>, i: int, limit: int, tag: u8, content: Seq<u8>)
    requires
        der::holds_at(s, i, der::written(tag, content)),
        tag % 32 != 31,
        content.len() <= 0xffff_ffff,
        i + der::written(tag, content).len() <= limit,
    ensures
        der::tagged_at(s, i, limit, tag) matches Ok(Some(v)) && v.tag == tag && v.end == i + der::written(tag, content).len()
            && v.end == v.start + content.len() && der::content(s, v) == content && i < v.start && v.end <= s.len()
            && der::holds_at(s, v.start, content),
        forall|other: u8|
            der::bare_tag(other) != der::bare_tag(tag) ==> #[trigger] der::tagged_at(s, i, limit, other) == Ok::<
                Option<Value>,
                Fault,
            >(None),
{
    der::written_is_read_back(s, i, limit, tag, content);
}

/// What a value that may be missing is read as: nothing, where the value that follows has another
/// tag.
proof fn lemma_maybe(s: Seq<u8>, i: int, limit: int, tag: u8, octets: Option<Seq<u8>>)
    requires
        tag % 32 != 31,
        octets matches Some(o) ==> o.len() <= 0xffff_ffff,
        der::holds_at(s, i, optional_form(tag, octets)),
        i + optional_form(tag, octets).len() <= limit,
        octets is None ==> der::tagged_at(s, i, limit, tag) == Ok::<Option<Value>, Fault>(None),
    ensures
        match octets {
            Some(o) => {
                &&& der::tagged_at(s, i, limit, tag) matches Ok(Some(v))
                &&& v.end == i + optional_form(tag, octets).len()
                &&& v.end == v.start + o.len()
                &&& der::content(s, v) == o
                &&& v.end <= s.len()
                &&& i < v.start
                &&& der::holds_at(s, v.start, o)
            },
            None => der::tagged_at(s, i, limit, tag) == Ok::<Option<Value>, Fault>(None) && optional_form(tag, octets).len()
                == 0,
        },
        octets is Some ==> forall|other: u8|
            der::bare_tag(other) != der::bare_tag(tag) ==> #[trigger] der::tagged_at(s, i, limit, other) == Ok::<
                Option<Value>,
                Fault,
            >(None),
{
    if let Some(o) = octets {
        der::written_is_read_back(s, i, limit, tag, o);
    }
}

/// Values that may be missing are captured.
proof fn lemma_captured(s: Seq<u8>, i: int, limit: int, tag: u8, octets: Option<Seq<u8>>)
    requires
        tag % 32 != 31,
        octets matches Some(o) ==> o.len() <= 0xffff_ffff,
        are_optional_values(octets),
        der::holds_at(s, i, optional_form(tag, octets)),
        i + optional_form(tag, octets).len() <= limit,
        octets is None ==> der::tagged_at(s, i, limit, tag) == Ok::<Option<Value>, Fault>(None),
    ensures
        der::captured_at(s, i, limit, tag) == Ok::<(int, Option<Seq<u8>>), Fault>(
            (i + optional_form(tag, octets).len(), octets),
        ),
        octets is Some ==> forall|other: u8|
            der::bare_tag(other) != der::bare_tag(tag) ==> #[trigger] der::tagged_at(s, i, limit, other) == Ok::<
                Option<Value>,
                Fault,
            >(None),
{
    lemma_maybe(s, i, limit, tag, octets);
    if let Some(o) = octets {
        let v = der::tagged_at(s, i, limit, tag)->Ok_0->0;
        der::lemma_values_held(s, v.start, o, v.start);
    }
}

/// An algorithm is read back.
proof fn lemma_algorithm(s: Seq<u8>, i: int, limit: int, a: AlgorithmModel)
    requires
        is_algorithm(a),
        algorithm_form(a).len() <= 0xffff_ffff,
        der::holds_at(s, i, algorithm_form(a)),
        i + algorithm_form(a).len() <= limit,
    ensures
        der::tagged_at(s, i, limit, 0x30) matches Ok(Some(v)) && v.end == i + algorithm_form(a).len() && rfc5652::algorithm_of(
            s,
            v,
        ) == Ok::<AlgorithmModel, Fault>(a),
        rfc5652::algorithm_at(s, i, limit) == Ok::<(int, AlgorithmModel), Fault>((i + algorithm_form(a).len(), a)),
        forall|other: u8|
            der::bare_tag(other) != der::bare_tag(0x30) ==> #[trigger] der::tagged_at(s, i, limit, other) == Ok::<
                Option<Value>,
                Fault,
            >(None),
{
    let name = der::written(0x06, a.algorithm);
    let parameters = parameters_form(a.parameters);
    lemma_only(s, i, limit, 0x30, name + parameters);
    let v = der::tagged_at(s, i, limit, 0x30)->Ok_0->0;
    lemma_first(s, v.start, v.end, 0x06, a.algorithm, parameters);
    let end = v.start + name.len();
    der::values_in_a_row(Seq::empty(), Seq::empty());
    der::lemma_values_held(s, end, parameters, end);
    assert(s.subrange(end, v.end) =~= parameters);
}

/// Algorithms are read back, one after the other.
proof fn lemma_algorithms(s: Seq<u8>, i: int, limit: int, list: Seq<AlgorithmModel>, seen: Seq<AlgorithmModel>)
    requires
        forall|k: int| 0 <= k < list.len() ==> is_algorithm(#[trigger] list[k]),
        algorithms_form(list).len() <= 0xffff_ffff,
        der::holds_at(s, i, algorithms_form(list)),
        i + algorithms_form(list).len() == limit,
    ensures
        rfc5652::algorithms_from(s, i, limit, seen) == Ok::<Seq<AlgorithmModel>, Fault>(seen + list),
    decreases list.len(),
{
    if list.len() == 0 {
        der::lemma_nothing_at_limit(s, limit);
        assert(seen + list =~= seen);
    } else {
        let rest = list.drop_first();
        let form = algorithm_form(list[0]);
        der::lemma_holds_parts(s, i, form, algorithms_form(rest));
        lemma_algorithm(s, i, limit, list[0]);
        assert forall|k: int| 0 <= k < rest.len() implies is_algorithm(#[trigger] rest[k]) by {
            assert(rest[k] == list[k + 1]);
        }
        lemma_algorithms(s, i + form.len(), limit, rest, seen.push(list[0]));
        assert(seen.push(list[0]) + rest =~= seen + list);
    }
}

#[verifier::spinoff_prover]
#[verifier::rlimit(60)]
proof fn lemma_encapsulated(s: Seq<u8>, i: int, limit: int, c: EncapsulatedModel)
    requires
        is_name(c.content_type),
        encapsulated_form(c).len() <= 0xffff_ffff,
        der::holds_at(s, i, encapsulated_form(c)),
        i + encapsulated_form(c).len() <= limit,
    ensures
        rfc5652::encapsulated_at(s, i, limit) == Ok::<(int, EncapsulatedModel), Fault>((i + encapsulated_form(c).len(), c)),
{
    let name = der::written(0x06, c.content_type);
    let inner: Option<Seq<u8>> = match c.content {
        Some(content) => Some(der::written(0x04, content)),
        None => None,
    };
    lemma_only(s, i, limit, 0x30, name + optional_form(0xa0, inner));
    let v = der::tagged_at(s, i, limit, 0x30)->Ok_0->0;
    lemma_first(s, v.start, v.end, 0x06, c.content_type, optional_form(0xa0, inner));
    let at = v.start + name.len();
    der::lemma_nothing_at_limit(s, v.end);
    lemma_maybe(s, at, v.end, 0xa0, inner);
    if let Some(content) = c.content {
        let e = der::tagged_at(s, at, v.end, 0xa0)->Ok_0->0;
        lemma_only(s, e.start, e.end, 0x04, content);
    }
}

/// A version is read back.
proof fn lemma_version(s: Seq<u8>, i: int, limit: int, version: u8, rest: Seq<u8>)
    requires
        version <= 5,
        der::holds_at(s, i, der::written(0x02, seq![version]) + rest),
        i + der::written(0x02, seq![version]).len() <= limit,
    ensures
        rfc5652::version_at(s, i, limit) == Ok::<(int, u8), Fault>(
            (i + der::written(0x02, seq![version]).len(), version),
        ),
        rfc5652::small_number_at(s, i, limit) == Ok::<(int, u8), Fault>(
            (i + der::written(0x02, seq![version]).len(), version),
        ),
        der::holds_at(s, i + der::written(0x02, seq![version]).len(), rest),
{
    lemma_first(s, i, limit, 0x02, seq![version], rest);
    let v = der::tagged_at(s, i, limit, 0x02)->Ok_0->0;
    assert(der::content(s, v)[0] == version);
}

proof fn lemma_signer_name(s: Seq<u8>, i: int, limit: int, sid: Seq<u8>)
    requires
        is_signer_name(sid),
        sid.len() <= 0xffff_ffff,
        der::holds_at(s, i, sid),
        i + sid.len() <= limit,
    ensures
        rfc5652::signer_name_end(s, i, limit) == Ok::<int, Fault>(i + sid.len()),
{
    if exists|content: Seq<u8>| der::are_values(content) && sid == #[trigger] der::written(0x30, content) {
        let content = choose|content: Seq<u8>|
            der::are_values(content) && sid == #[trigger] der::written(0x30, content);
        lemma_only(s, i, limit, 0x30, content);
        let v = der::tagged_at(s, i, limit, 0x30)->Ok_0->0;
        der::lemma_values_held(s, v.start, content, v.start);
    } else {
        let content = choose|content: Seq<u8>| sid == #[trigger] der::written(0x80, content);
        lemma_only(s, i, limit, 0x80, content);
    }
}

#[verifier::spinoff_prover]
#[verifier::rlimit(60)]
proof fn lemma_signer(s: Seq<u8>, v: Value, m: SignerModel)
    requires
        is_signer(m),
        signer_content(m).len() <= 0xffff_ffff,
        der::holds_at(s, v.start, signer_content(m)),
        v.end == v.start + signer_content(m).len(),
    ensures
        rfc5652::signer_of(s, v) == Ok::<SignerModel, Fault>(m),
{
    let p7 = optional_form(0xa1, m.unsigned_attributes);
    let p6 = der::written(0x04, m.signature);
    let p5 = algorithm_form(m.signature_algorithm);
    let p4 = optional_form(0xa0, m.signed_attributes);
    let p3 = algorithm_form(m.digest_algorithm);
    let p1 = der::written(0x02, seq![m.version]);
    let a2 = v.start + p1.len();
    let a3 = a2 + m.sid.len();
    let a4 = a3 + p3.len();
    let a5 = a4 + p4.len();
    let a6 = a5 + p5.len();
    let a7 = a6 + p6.len();
    let end = v.end;
    lemma_version(s, v.start, end, m.version, m.sid + (p3 + (p4 + (p5 + (p6 + p7)))));
    der::lemma_holds_parts(s, a2, m.sid, p3 + (p4 + (p5 + (p6 + p7))));
    lemma_signer_name(s, a2, end, m.sid);
    assert(s.subrange(a2, a3) =~= m.sid);
    der::lemma_holds_parts(s, a3, p3, p4 + (p5 + (p6 + p7)));
    lemma_algorithm(s, a3, end, m.digest_algorithm);
    der::lemma_holds_parts(s, a4, p4, p5 + (p6 + p7));
    der::lemma_holds_parts(s, a5, p5, p6 + p7);
    lemma_algorithm(s, a5, end, m.signature_algorithm);
    lemma_captured(s, a4, end, 0xa0, m.signed_attributes);
    lemma_first(s, a6, end, 0x04, m.signature, p7);
    der::lemma_nothing_at_limit(s, end);
    lemma_captured(s, a7, end, 0xa1, m.unsigned_attributes);
}

proof fn lemma_signers(s: Seq<u8>, i: int, limit: int, list: Seq<SignerModel>, seen: Seq<SignerModel>)
    requires
        forall|k: int| 0 <= k < list.len() ==> is_signer(#[trigger] list[k]),
        signers_form(list).len() <= 0xffff_ffff,
        der::holds_at(s, i, signers_form(list)),
        i + signers_form(list).len() == limit,
    ensures
        rfc5652::signers_from(s, i, limit, seen) == Ok::<Seq<SignerModel>, Fault>(seen + list),
    decreases list.len(),
{
    if list.len() == 0 {
        der::lemma_nothing_at_limit(s, limit);
        assert(seen + list =~= seen);
    } else {
        let rest = list.drop_first();
        let content = signer_content(list[0]);
        lemma_first(s, i, limit, 0x30, content, signers_form(rest));
        let v = der::tagged_at(s, i, limit, 0x30)->Ok_0->0;
        lemma_signer(s, v, list[0]);
        assert forall|k: int| 0 <= k < rest.len() implies is_signer(#[trigger] rest[k]) by {
            assert(rest[k] == list[k + 1]);
        }
        lemma_signers(s, v.end, limit, rest, seen.push(list[0]));
        assert(seen.push(list[0]) + rest =~= seen + list);
    }
}

/// Signed data that was written is read back, whatever follows it: the version, each digest
/// algorithm, the content, all certificates, all revocation lists and each signer.
#[verifier::spinoff_prover]
#[verifier::rlimit(60)]
pub proof fn signed_data_is_read_back(d: SignedDataModel, rest: Seq<u8>)
    requires
        is_signed_data(d),
        signed_data_content(d).len() <= 0xffff_ffff,
    ensures
        rfc5652::signed_data_in(signed_data_form(d) + rest) == Ok::<SignedDataModel, Fault>(d),
{
    let s = signed_data_form(d) + rest;
    assert(s.subrange(0, signed_data_form(d).len() as int) =~= signed_data_form(d));
    lemma_only(s, 0, der::no_limit(s), 0x30, signed_data_content(d));
    let v = der::tagged_at(s, 0, der::no_limit(s), 0x30)->Ok_0->0;
    let p1 = der::written(0x02, seq![d.version]);
    let p2 = der::written(0x31, algorithms_form(d.digest_algorithms));
    let p3 = encapsulated_form(d.content_info);
    let p4 = optional_form(0xa0, d.certificates);
    let p5 = optional_form(0xa1, d.crls);
    let p6 = der::written(0x31, signers_form(d.signer_infos));
    let a2 = v.start + p1.len();
    let a3 = a2 + p2.len();
    let a4 = a3 + p3.len();
    let a5 = a4 + p4.len();
    let a6 = a5 + p5.len();
    let end = v.end;
    lemma_version(s, v.start, end, d.version, p2 + (p3 + (p4 + (p5 + p6))));
    lemma_first(s, a2, end, 0x31, algorithms_form(d.digest_algorithms), p3 + (p4 + (p5 + p6)));
    let digests = der::tagged_at(s, a2, end, 0x31)->Ok_0->0;
    lemma_algorithms(s, digests.start, digests.end, d.digest_algorithms, Seq::empty());
    assert(Seq::empty() + d.digest_algorithms =~= d.digest_algorithms);
    der::lemma_holds_parts(s, a3, p3, p4 + (p5 + p6));
    lemma_encapsulated(s, a3, end, d.content_info);
    der::lemma_holds_parts(s, a4, p4, p5 + p6);
    der::lemma_holds_parts(s, a5, p5, p6);
    lemma_only(s, a6, end, 0x31, signers_form(d.signer_infos));
    let signers = der::tagged_at(s, a6, end, 0x31)->Ok_0->0;
    lemma_captured(s, a5, end, 0xa1, d.crls);
    lemma_captured(s, a4, end, 0xa0, d.certificates);
    lemma_signers(s, signers.start, signers.end, d.signer_infos, Seq::empty());
    assert(Seq::empty() + d.signer_infos =~= d.signer_infos);
}

/// The octets of an imprint: the algorithm and the digest.
pub open spec fn imprint_form(m: ImprintModel) -> Seq<u8> {
    der::written(0x30, algorithm_form(m.hash_algorithm) + der::written(0x04, m.hashed_message))
}

/// The content octets of an accuracy: seconds, thousandths and millionths.
pub open spec fn accuracy_content(a: AccuracyModel) -> Seq<u8> {
    optional_form(0x02, number_content(a.seconds)) + (optional_form(0x80, number_content(a.millis)) + optional_form(
        0x81,
        number_content(a.micros),
    ))
}

/// The content octets of an accuracy that may be missing.
pub open spec fn optional_accuracy_content(a: Option<AccuracyModel>) -> Option<Seq<u8>> {
    match a {
        Some(a) => Some(accuracy_content(a)),
        None => None,
    }
}

/// The content octets of a truth value that may be missing.
pub open spec fn truth_content(truth: Option<bool>) -> Option<Seq<u8>> {
    match truth {
        Some(true) => Some(seq![0xffu8]),
        Some(false) => Some(seq![0x00u8]),
        None => None,
    }
}

/// Whether a year has a 29th of February.
pub open spec fn is_leap_year(year: int) -> bool {
    (year % 4 == 0 && year % 100 != 0) || year % 400 == 0
}

/// Whether there is such a day.
pub open spec fn is_date(year: int, month: int, day: int) -> bool {
    &&& 0 <= year <= 9999
    &&& 1 <= month <= 12
    &&& 1 <= day <= 31
    &&& day == 31 ==> month != 2 && month != 4 && month != 6 && month != 9 && month != 11
    &&& day == 30 ==> month != 2
    &&& day == 29 && month == 2 ==> is_leap_year(year)
}

/// The digit of a number that counts the tens that `unit` says.
#[verifier::opaque]
pub open spec fn digit(n: int, unit: int) -> u8 {
    (0x30 + n / unit % 10) as u8
}

/// The octets of a point in time: four digits for the year, two each for the month, the day, the
/// hour, the minute and the second, a fraction, which may be missing, and a `Z`.
pub open spec fn time_form(year: int, month: int, day: int, hour: int, minute: int, second: int, fraction: Seq<u8>) -> Seq<u8> {
    seq![
        digit(year, 1000),
        digit(year, 100),
        digit(year, 10),
        digit(year, 1),
        digit(month, 10),
        digit(month, 1),
        digit(day, 10),
        digit(day, 1),
        digit(hour, 10),
        digit(hour, 1),
        digit(minute, 10),
        digit(minute, 1),
        digit(second, 10),
        digit(second, 1),
    ] + (if fraction.len() == 0 {
        seq![0x5au8]
    } else {
        seq![0x2eu8] + fraction + seq![0x5au8]
    })
}

/// Whether octets are decimal digits.
pub open spec fn are_digits(octets: Seq<u8>) -> bool {
    forall|i: int| 0 <= i < octets.len() ==> 0x30 <= #[trigger] octets[i] <= 0x39
}

/// The two digits of a number stand for it.
proof fn lemma_number_of_two(n: int)
    requires
        0 <= n < 100,
    ensures
        0x30 <= digit(n, 10) <= 0x39,
        0x30 <= digit(n, 1) <= 0x39,
        (digit(n, 10) - 0x30) * 10 + (digit(n, 1) - 0x30) == n,
{
    reveal(digit);
    assert(n / 10 % 10 == n / 10);
    assert(n / 1 == n);
}

/// The four digits of a number stand for it.
#[verifier::spinoff_prover]
#[verifier::rlimit(60)]
proof fn lemma_number_of_four(n: int)
    requires
        0 <= n <= 9999,
    ensures
        0x30 <= digit(n, 1000) <= 0x39,
        0x30 <= digit(n, 100) <= 0x39,
        0x30 <= digit(n, 10) <= 0x39,
        0x30 <= digit(n, 1) <= 0x39,
        ((digit(n, 1000) - 0x30) * 10 + (digit(n, 100) - 0x30)) * 100 + ((digit(n, 10) - 0x30) * 10 + (digit(n, 1) - 0x30))
            == n,
{
    reveal(digit);
    let upper = n / 100;
    let lower = n % 100;
    lemma_number_of_two(upper);
    lemma_number_of_two(lower);
    assert(n / 1000 == upper / 10);
    assert(n / 10 % 10 == lower / 10);
    assert(n % 10 == lower % 10);
    assert(upper / 1 == upper && lower / 1 == lower && n / 1 == n);
}

/// Every point in time that was written is taken for one.
#[verifier::spinoff_prover]
#[verifier::rlimit(60)]
pub proof fn written_time_is_time(
    year: int,
    month: int,
    day: int,
    hour: int,
    minute: int,
    second: int,
    fraction: Seq<u8>,
)
    requires
        is_date(year, month, day),
        0 <= hour < 24,
        0 <= minute < 60,
        0 <= second < 60,
        are_digits(fraction),
    ensures
        rfc3161::is_time(time_form(year, month, day, hour, minute, second, fraction)),
{
    let t = time_form(year, month, day, hour, minute, second, fraction);
    lemma_number_of_four(year);
    lemma_number_of_two(month);
    lemma_number_of_two(day);
    lemma_number_of_two(hour);
    lemma_number_of_two(minute);
    lemma_number_of_two(second);
    assert(t[0] == digit(year, 1000) && t[1] == digit(year, 100) && t[2] == digit(year, 10) && t[3] == digit(year, 1));
    assert(t[4] == digit(month, 10) && t[5] == digit(month, 1) && t[6] == digit(day, 10) && t[7] == digit(day, 1));
    assert(t[8] == digit(hour, 10) && t[9] == digit(hour, 1) && t[10] == digit(minute, 10) && t[11] == digit(minute, 1));
    assert(t[12] == digit(second, 10) && t[13] == digit(second, 1));
    assert forall|k: int| 0 <= k < 14 implies rfc3161::is_digit(#[trigger] t[k]) by {
        assert(k == 0 || k == 1 || k == 2 || k == 3 || k == 4 || k == 5 || k == 6 || k == 7 || k == 8 || k == 9 || k == 10
            || k == 11 || k == 12 || k == 13);
    }
    assert forall|k: int| 15 <= k < t.len() - 1 implies rfc3161::is_digit(#[trigger] t[k]) by {
        assert(t[k] == fraction[k - 15]);
    }
}

/// Two digits give back those that their number was read from.
proof fn lemma_two_digits(a: u8, b: u8)
    requires
        0x30 <= a <= 0x39,
        0x30 <= b <= 0x39,
    ensures
        digit((a - 0x30) * 10 + (b - 0x30), 10) == a,
        digit((a - 0x30) * 10 + (b - 0x30), 1) == b,
{
    reveal(digit);
}

#[verifier::spinoff_prover]
#[verifier::rlimit(60)]
proof fn lemma_four_digits(a: u8, b: u8, c: u8, d: u8)
    requires
        0x30 <= a <= 0x39,
        0x30 <= b <= 0x39,
        0x30 <= c <= 0x39,
        0x30 <= d <= 0x39,
    ensures
        ({
            let n = ((a - 0x30) * 10 + (b - 0x30)) * 100 + ((c - 0x30) * 10 + (d - 0x30));
            digit(n, 1000) == a && digit(n, 100) == b && digit(n, 10) == c && digit(n, 1) == d
        }),
{
    reveal(digit);
    let n = ((a - 0x30) * 10 + (b - 0x30)) * 100 + ((c - 0x30) * 10 + (d - 0x30));
    let upper = (a - 0x30) * 10 + (b - 0x30);
    let lower = (c - 0x30) * 10 + (d - 0x30);
    lemma_two_digits(a, b);
    lemma_two_digits(c, d);
    assert(n / 100 == upper);
    assert(n / 1000 == upper / 10);
    assert(n / 10 == upper * 10 + lower / 10);
    assert((upper * 10 + lower / 10) % 10 == lower / 10);
    assert(n % 10 == lower % 10);
}

/// Nothing else is taken for a point in time.
#[verifier::spinoff_prover]
#[verifier::rlimit(60)]
pub proof fn time_was_written(octets: Seq<u8>)
    requires
        rfc3161::is_time(octets),
    ensures
        exists|year: int, month: int, day: int, hour: int, minute: int, second: int, fraction: Seq<u8>|
            octets == #[trigger] time_form(year, month, day, hour, minute, second, fraction) && is_date(year, month, day) && 0
                <= hour < 24 && 0 <= minute < 60 && 0 <= second < 60 && are_digits(fraction),
{
    let n = octets.len() as int;
    let year = rfc3161::two_digits(octets, 0) * 100 + rfc3161::two_digits(octets, 2);
    let month = rfc3161::two_digits(octets, 4);
    let day = rfc3161::two_digits(octets, 6);
    let hour = rfc3161::two_digits(octets, 8);
    let minute = rfc3161::two_digits(octets, 10);
    let second = rfc3161::two_digits(octets, 12);
    let fraction = if n == 15 {
        Seq::empty()
    } else {
        octets.subrange(15, n - 1)
    };
    assert forall|i: int| 0 <= i < fraction.len() implies 0x30 <= #[trigger] fraction[i] <= 0x39 by {
        assert(fraction[i] == octets[i + 15]);
        assert(rfc3161::is_digit(octets[i + 15]));
    }
    assert forall|k: int| 0 <= k < 14 implies 0x30 <= #[trigger] octets[k] <= 0x39 by {
        assert(rfc3161::is_digit(octets[k]));
    }
    lemma_four_digits(octets[0], octets[1], octets[2], octets[3]);
    lemma_two_digits(octets[4], octets[5]);
    lemma_two_digits(octets[6], octets[7]);
    lemma_two_digits(octets[8], octets[9]);
    lemma_two_digits(octets[10], octets[11]);
    lemma_two_digits(octets[12], octets[13]);
    assert(time_form(year, month, day, hour, minute, second, fraction) =~= octets);
    assert(is_date(year, month, day));
}

/// Whether the information of a token can be written.
pub open spec fn is_tst_info(t: TstModel) -> bool {
    &&& is_name(t.policy)
    &&& is_algorithm(t.message_imprint.hash_algorithm)
    &&& rfc3161::is_time(t.gen_time)
    &&& are_optional_values(t.tsa)
    &&& are_optional_values(t.extensions)
}

/// The octets of what may be missing in the information of a token: the accuracy, the ordering, the
/// nonce, the server's name and the extensions.
pub open spec fn tst_tail(t: TstModel) -> Seq<u8> {
    optional_form(0x30, optional_accuracy_content(t.accuracy)) + (optional_form(0x01, truth_content(t.ordering)) + (
    optional_form(0x02, number_content(t.nonce)) + (optional_form(0xa0, t.tsa) + optional_form(0xa1, t.extensions))))
}

/// The content octets of the information of a token: the version, the policy, the imprint, the
/// serial number, the point in time, and what may be missing.
pub open spec fn tst_content(t: TstModel) -> Seq<u8> {
    der::written(0x02, integer::integer_octets(t.version)) + (der::written(0x06, t.policy) + (imprint_form(
        t.message_imprint,
    ) + (der::written(0x02, integer::integer_octets(t.serial_number)) + (der::written(0x18, t.gen_time) + tst_tail(t)))))
}

/// The octets of the information of a token.
pub open spec fn tst_form(t: TstModel) -> Seq<u8> {
    der::written(0x30, tst_content(t))
}

proof fn lemma_imprint(s: Seq<u8>, i: int, limit: int, m: ImprintModel)
    requires
        is_algorithm(m.hash_algorithm),
        imprint_form(m).len() <= 0xffff_ffff,
        der::holds_at(s, i, imprint_form(m)),
        i + imprint_form(m).len() <= limit,
    ensures
        rfc3161::imprint_at(s, i, limit) == Ok::<(int, ImprintModel), Fault>((i + imprint_form(m).len(), m)),
{
    let algorithm = algorithm_form(m.hash_algorithm);
    let digest = der::written(0x04, m.hashed_message);
    lemma_only(s, i, limit, 0x30, algorithm + digest);
    let v = der::tagged_at(s, i, limit, 0x30)->Ok_0->0;
    der::lemma_holds_parts(s, v.start, algorithm, digest);
    lemma_algorithm(s, v.start, v.end, m.hash_algorithm);
    lemma_only(s, v.start + algorithm.len(), v.end, 0x04, m.hashed_message);
}

/// A number that may be missing is read back.
proof fn lemma_number(s: Seq<u8>, i: int, limit: int, tag: u8, number: Option<int>)
    requires
        tag % 32 != 31,
        optional_form(tag, number_content(number)).len() <= 0xffff_ffff,
        der::holds_at(s, i, optional_form(tag, number_content(number))),
        i + optional_form(tag, number_content(number)).len() <= limit,
        number is None ==> der::tagged_at(s, i, limit, tag) == Ok::<Option<Value>, Fault>(None),
    ensures
        rfc3161::optional_number_at(s, i, limit, tag) == Ok::<(int, Option<int>), Fault>(
            (i + optional_form(tag, number_content(number)).len(), number),
        ),
        number is Some ==> forall|other: u8|
            der::bare_tag(other) != der::bare_tag(tag) ==> #[trigger] der::tagged_at(s, i, limit, other) == Ok::<
                Option<Value>,
                Fault,
            >(None),
{
    lemma_maybe(s, i, limit, tag, number_content(number));
    if let Some(n) = number {
        integer::octets_give_back_value(n);
    }
}

proof fn lemma_accuracy(s: Seq<u8>, v: Value, a: AccuracyModel)
    requires
        accuracy_content(a).len() <= 0xffff_ffff,
        der::holds_at(s, v.start, accuracy_content(a)),
        v.end == v.start + accuracy_content(a).len(),
    ensures
        rfc3161::accuracy_of(s, v) == Ok::<AccuracyModel, Fault>(a),
{
    let p1 = optional_form(0x02, number_content(a.seconds));
    let p2 = optional_form(0x80, number_content(a.millis));
    let p3 = optional_form(0x81, number_content(a.micros));
    let a2 = v.start + p1.len();
    let a3 = a2 + p2.len();
    der::lemma_holds_parts(s, v.start, p1, p2 + p3);
    der::lemma_holds_parts(s, a2, p2, p3);
    der::lemma_nothing_at_limit(s, v.end);
    lemma_number(s, a3, v.end, 0x81, a.micros);
    lemma_number(s, a2, v.end, 0x80, a.millis);
    lemma_number(s, v.start, v.end, 0x02, a.seconds);
}

#[verifier::spinoff_prover]
#[verifier::rlimit(60)]
proof fn lemma_tst_tail(s: Seq<u8>, i: int, v: Value, t: TstModel, rest: TstModel)
    requires
        is_tst_info(t),
        tst_tail(t).len() <= 0xffff_ffff,
        der::holds_at(s, i, tst_tail(t)),
        v.end == i + tst_tail(t).len(),
        rest.version == t.version,
        rest.policy == t.policy,
        rest.message_imprint == t.message_imprint,
        rest.serial_number == t.serial_number,
        rest.gen_time == t.gen_time,
    ensures
        rfc3161::tst_rest_at(s, i, v, rest) == Ok::<TstModel, Fault>(t),
{
    let p1 = optional_form(0x30, optional_accuracy_content(t.accuracy));
    let p2 = optional_form(0x01, truth_content(t.ordering));
    let p3 = optional_form(0x02, number_content(t.nonce));
    let p4 = optional_form(0xa0, t.tsa);
    let p5 = optional_form(0xa1, t.extensions);
    let a2 = i + p1.len();
    let a3 = a2 + p2.len();
    let a4 = a3 + p3.len();
    let a5 = a4 + p4.len();
    let end = v.end;
    der::lemma_holds_parts(s, i, p1, p2 + (p3 + (p4 + p5)));
    der::lemma_holds_parts(s, a2, p2, p3 + (p4 + p5));
    der::lemma_holds_parts(s, a3, p3, p4 + p5);
    der::lemma_holds_parts(s, a4, p4, p5);
    der::lemma_nothing_at_limit(s, end);
    lemma_captured(s, a5, end, 0xa1, t.extensions);
    lemma_captured(s, a4, end, 0xa0, t.tsa);
    lemma_number(s, a3, end, 0x02, t.nonce);
    lemma_maybe(s, a2, end, 0x01, truth_content(t.ordering));
    if t.ordering is Some {
        let c = der::tagged_at(s, a2, end, 0x01)->Ok_0->0;
        assert(der::content(s, c)[0] == truth_content(t.ordering)->0[0]);
    }
    assert(rfc3161::truth_at(s, a2, end) == Ok::<(int, Option<bool>), Fault>((a3, t.ordering)));
    lemma_maybe(s, i, end, 0x30, optional_accuracy_content(t.accuracy));
    if let Some(a) = t.accuracy {
        lemma_accuracy(s, der::tagged_at(s, i, end, 0x30)->Ok_0->0, a);
    }
    assert(rfc3161::accuracy_at(s, i, end) == Ok::<(int, Option<AccuracyModel>), Fault>((a2, t.accuracy)));
}

/// The information of a token that was written is read back, whatever follows it, and whichever of
/// the fields that may be missing are there.
#[verifier::spinoff_prover]
#[verifier::rlimit(60)]
pub proof fn tst_info_is_read_back(t: TstModel, rest: Seq<u8>)
    requires
        is_tst_info(t),
        tst_content(t).len() <= 0xffff_ffff,
    ensures
        rfc3161::tst_info_in(tst_form(t) + rest) == Ok::<TstModel, Fault>(t),
{
    let s = tst_form(t) + rest;
    assert(s.subrange(0, tst_form(t).len() as int) =~= tst_form(t));
    lemma_only(s, 0, der::no_limit(s), 0x30, tst_content(t));
    let v = der::tagged_at(s, 0, der::no_limit(s), 0x30)->Ok_0->0;
    let end = v.end;
    let version = integer::integer_octets(t.version);
    let serial = integer::integer_octets(t.serial_number);
    let p2 = der::written(0x06, t.policy);
    let p3 = imprint_form(t.message_imprint);
    let p4 = der::written(0x02, serial);
    let p5 = der::written(0x18, t.gen_time);
    let p6 = tst_tail(t);
    let a2 = v.start + der::written(0x02, version).len();
    let a3 = a2 + p2.len();
    let a4 = a3 + p3.len();
    let a5 = a4 + p4.len();
    let a6 = a5 + p5.len();
    integer::octets_give_back_value(t.version);
    integer::octets_give_back_value(t.serial_number);
    lemma_first(s, v.start, end, 0x02, version, p2 + (p3 + (p4 + (p5 + p6))));
    assert(rfc3161::number_at(s, v.start, end) == Ok::<(int, int), Fault>((a2, t.version)));
    lemma_first(s, a2, end, 0x06, t.policy, p3 + (p4 + (p5 + p6)));
    assert(der::identifier_at(s, a2, end) == Ok::<(int, Seq<u8>), Fault>((a3, t.policy)));
    der::lemma_holds_parts(s, a3, p3, p4 + (p5 + p6));
    lemma_imprint(s, a3, end, t.message_imprint);
    lemma_first(s, a4, end, 0x02, serial, p5 + p6);
    assert(rfc3161::number_at(s, a4, end) == Ok::<(int, int), Fault>((a5, t.serial_number)));
    lemma_first(s, a5, end, 0x18, t.gen_time, p6);
    assert(rfc3161::time_at(s, a5, end) == Ok::<(int, Seq<u8>), Fault>((a6, t.gen_time)));
    lemma_tst_tail(
        s,
        a6,
        v,
        t,
        TstModel { accuracy: None, ordering: None, nonce: None, tsa: None, extensions: None, ..t },
    );
}

/// The number of a status.
pub open spec fn status_number(status: PkiStatus) -> u8 {
    match status {
        PkiStatus::Granted => 0,
        PkiStatus::GrantedWithMods => 1,
        PkiStatus::Rejection => 2,
        PkiStatus::Waiting => 3,
        PkiStatus::RevocationWarning => 4,
        PkiStatus::RevocationNotification => 5,
    }
}

/// The octets of texts, one after the other.
pub open spec fn texts_form(list: Seq<Seq<char>>) -> Seq<u8>
    decreases list.len(),
{
    if list.len() == 0 {
        Seq::empty()
    } else {
        der::written(0x0c, utf8::encode_utf8(list[0])) + texts_form(list.drop_first())
    }
}

/// Whether octets are the content of a bit string: the number of bits of the last octet that are
/// not used, and the octets that hold the bits, those that are not used being zero.
pub open spec fn is_bit_string(octets: Seq<u8>) -> bool {
    &&& octets.len() > 0
    &&& octets[0] <= 7
    &&& octets.len() == 1 ==> octets[0] == 0
    &&& octets.len() > 1 ==> octets.last() as int % pow2(octets[0] as nat) as int == 0
}

/// The octets of the texts of an answer, which may be missing.
pub open spec fn optional_texts_content(list: Option<Seq<Seq<char>>>) -> Option<Seq<u8>> {
    match list {
        Some(list) => Some(texts_form(list)),
        None => None,
    }
}

/// Whether an answer can be written.
pub open spec fn is_status(m: StatusModel) -> bool {
    m.fail_info matches Some(f) ==> is_bit_string(f)
}

/// The content octets of an answer: the number of the status, the texts, and why there is no token.
pub open spec fn status_content(m: StatusModel) -> Seq<u8> {
    der::written(0x02, seq![status_number(m.status)]) + (optional_form(0x30, optional_texts_content(m.status_string))
        + optional_form(0x03, m.fail_info))
}

/// The octets of a token: the type of its content, and the content.
pub open spec fn token_form(content_type: Seq<u8>, content: Seq<u8>) -> Seq<u8> {
    der::written(0x30, der::written(0x06, content_type) + der::written(0xa0, content))
}

/// The content octets of a response without a token.
pub open spec fn answer_content(m: StatusModel) -> Seq<u8> {
    der::written(0x30, status_content(m))
}

/// The content octets of a response with a token.
pub open spec fn stamped_content(m: StatusModel, content_type: Seq<u8>, content: Seq<u8>) -> Seq<u8> {
    answer_content(m) + token_form(content_type, content)
}

proof fn lemma_texts(s: Seq<u8>, i: int, limit: int, list: Seq<Seq<char>>, seen: Seq<Seq<char>>)
    requires
        texts_form(list).len() <= 0xffff_ffff,
        der::holds_at(s, i, texts_form(list)),
        i + texts_form(list).len() == limit,
    ensures
        rfc3161::texts_from(s, i, limit, seen) == Ok::<Seq<Seq<char>>, Fault>(seen + list),
    decreases list.len(),
{
    if list.len() == 0 {
        der::lemma_nothing_at_limit(s, limit);
        assert(seen + list =~= seen);
    } else {
        let rest = list.drop_first();
        let octets = utf8::encode_utf8(list[0]);
        utf8::encode_utf8_valid_utf8(list[0]);
        utf8::encode_utf8_decode_utf8(list[0]);
        lemma_first(s, i, limit, 0x0c, octets, texts_form(rest));
        let v = der::tagged_at(s, i, limit, 0x0c)->Ok_0->0;
        lemma_texts(s, v.end, limit, rest, seen.push(list[0]));
        assert(seen.push(list[0]) + rest =~= seen + list);
    }
}

proof fn lemma_bit_string(s: Seq<u8>, v: Value, octets: Seq<u8>)
    requires
        is_bit_string(octets),
        der::holds_at(s, v.start, octets),
        v.end == v.start + octets.len(),
    ensures
        rfc3161::bit_string_of(s, v) == Ok::<Seq<u8>, Fault>(octets),
{
    lemma2_to64();
    assert(s.subrange(v.start, v.end)[0] == octets[0]);
    assert(s.subrange(v.start, v.end)[octets.len() - 1] == octets.last());
}

#[verifier::spinoff_prover]
#[verifier::rlimit(60)]
proof fn lemma_status(s: Seq<u8>, v: Value, m: StatusModel)
    requires
        is_status(m),
        status_content(m).len() <= 0xffff_ffff,
        der::holds_at(s, v.start, status_content(m)),
        v.end == v.start + status_content(m).len(),
    ensures
        rfc3161::status_info_of(s, v) == Ok::<StatusModel, Fault>(m),
{
    let p2 = optional_form(0x30, optional_texts_content(m.status_string));
    let p3 = optional_form(0x03, m.fail_info);
    let a2 = v.start + der::written(0x02, seq![status_number(m.status)]).len();
    let a3 = a2 + p2.len();
    lemma_version(s, v.start, v.end, status_number(m.status), p2 + p3);
    der::lemma_holds_parts(s, a2, p2, p3);
    der::lemma_nothing_at_limit(s, v.end);
    lemma_maybe(s, a3, v.end, 0x03, m.fail_info);
    if let Some(f) = m.fail_info {
        lemma_bit_string(s, der::tagged_at(s, a3, v.end, 0x03)->Ok_0->0, f);
    }
    assert(rfc3161::bit_string_at(s, a3, v.end) == Ok::<(int, Option<Seq<u8>>), Fault>((v.end, m.fail_info)));
    lemma_maybe(s, a2, v.end, 0x30, optional_texts_content(m.status_string));
    if let Some(list) = m.status_string {
        let t = der::tagged_at(s, a2, v.end, 0x30)->Ok_0->0;
        lemma_texts(s, t.start, t.end, list, Seq::empty());
        assert(Seq::empty() + list =~= list);
    }
    assert(rfc3161::text_list_at(s, a2, v.end) == Ok::<(int, Option<Seq<Seq<char>>>), Fault>((a3, m.status_string)));
}

/// A response without a token that was written is read back, whatever follows it.
#[verifier::spinoff_prover]
#[verifier::rlimit(60)]
pub proof fn answer_is_read_back(m: StatusModel, rest: Seq<u8>)
    requires
        is_status(m),
        answer_content(m).len() <= 0xffff_ffff,
    ensures
        rfc3161::response_in(der::written(0x30, answer_content(m)) + rest) == Ok::<ResponseModel, Fault>(
            ResponseModel { status: m, time_stamp_token: None },
        ),
{
    let form = der::written(0x30, answer_content(m));
    let s = form + rest;
    assert(s.subrange(0, form.len() as int) =~= form);
    lemma_only(s, 0, der::no_limit(s), 0x30, answer_content(m));
    let v = der::tagged_at(s, 0, der::no_limit(s), 0x30)->Ok_0->0;
    lemma_only(s, v.start, v.end, 0x30, status_content(m));
    let a = der::tagged_at(s, v.start, v.end, 0x30)->Ok_0->0;
    lemma_status(s, a, m);
    der::lemma_nothing_at_limit(s, v.end);
}

#[verifier::spinoff_prover]
#[verifier::rlimit(60)]
proof fn lemma_token(s: Seq<u8>, i: int, limit: int, content_type: Seq<u8>, content: Seq<u8>)
    requires
        is_name(content_type),
        der::are_values(content),
        token_form(content_type, content).len() <= 0xffff_ffff,
        der::holds_at(s, i, token_form(content_type, content)),
        i + token_form(content_type, content).len() <= limit,
    ensures
        rfc3161::token_at(s, i, limit) == Ok::<(int, Option<ContentModel>), Fault>(
            (
                i + token_form(content_type, content).len(),
                Some(
                    ContentModel {
                        content_type,
                        content,
                        start: i + token_form(content_type, content).len() - content.len(),
                    },
                ),
            ),
        ),
{
    let inner = der::written(0x06, content_type) + der::written(0xa0, content);
    lemma_only(s, i, limit, 0x30, inner);
    let t = der::tagged_at(s, i, limit, 0x30)->Ok_0->0;
    lemma_first(s, t.start, t.end, 0x06, content_type, der::written(0xa0, content));
    let at = t.start + der::written(0x06, content_type).len();
    lemma_only(s, at, t.end, 0xa0, content);
    let c = der::tagged_at(s, at, t.end, 0xa0)->Ok_0->0;
    der::lemma_values_held(s, c.start, content, c.start);
}

/// A response with a token that was written is read back, whatever follows it. The content of the
/// token is the last thing in it, and its place is told.
#[verifier::spinoff_prover]
#[verifier::rlimit(60)]
pub proof fn stamped_is_read_back(m: StatusModel, content_type: Seq<u8>, content: Seq<u8>, rest: Seq<u8>)
    requires
        is_status(m),
        is_name(content_type),
        der::are_values(content),
        stamped_content(m, content_type, content).len() <= 0xffff_ffff,
    ensures
        rfc3161::response_in(der::written(0x30, stamped_content(m, content_type, content)) + rest) == Ok::<
            ResponseModel,
            Fault,
        >(
            ResponseModel {
                status: m,
                time_stamp_token: Some(
                    ContentModel {
                        content_type,
                        content,
                        start: der::written(0x30, stamped_content(m, content_type, content)).len() - content.len(),
                    },
                ),
            },
        ),
{
    let whole = stamped_content(m, content_type, content);
    let form = der::written(0x30, whole);
    let s = form + rest;
    assert(s.subrange(0, form.len() as int) =~= form);
    lemma_only(s, 0, der::no_limit(s), 0x30, whole);
    let v = der::tagged_at(s, 0, der::no_limit(s), 0x30)->Ok_0->0;
    lemma_first(s, v.start, v.end, 0x30, status_content(m), token_form(content_type, content));
    let a = der::tagged_at(s, v.start, v.end, 0x30)->Ok_0->0;
    lemma_status(s, a, m);
    lemma_token(s, a.end, v.end, content_type, content);
}

/// What is held one behind the other is held together.
proof fn lemma_join(s: Seq<u8>, i: int, first: Seq<u8>, rest: Seq<u8>)
    requires
        der::holds_at(s, i, first),
        der::holds_at(s, i + first.len(), rest),
    ensures
        der::holds_at(s, i, first + rest),
{
    assert(s.subrange(i, i + first.len() + rest.len()) =~= s.subrange(i, i + first.len()) + s.subrange(
        i + first.len(),
        i + first.len() + rest.len(),
    ));
}

/// Nothing is held everywhere.
proof fn lemma_nothing_held(s: Seq<u8>, i: int)
    requires
        0 <= i <= s.len(),
    ensures
        der::holds_at(s, i, Seq::empty()),
{
    assert(s.subrange(i, i) =~= Seq::empty());
}

/// A value that was read is all there if its content is, and was written.
proof fn lemma_found(s: Seq<u8>, i: int, limit: int, tag: u8)
    requires
        0 <= i,
    ensures
        der::tagged_at(s, i, limit, tag) matches Ok(Some(v)) ==> i < v.start <= v.end <= limit && v.start <= s.len(),
        der::tagged_at(s, i, limit, tag) matches Ok(Some(v)) ==> (v.end <= s.len() ==> der::holds_at(
            s,
            i,
            der::written(tag, der::content(s, v)),
        ) && v.end == i + der::written(tag, der::content(s, v)).len() && der::holds_at(s, v.start, der::content(s, v))
            && der::content(s, v).len() == v.end - v.start),
{
    der::lemma_tagged_bounds(s, i, limit, tag);
    der::read_is_written(s, i, limit, tag);
}

/// A sequence whose parts are held one behind the other up to its end was written from them.
proof fn lemma_filled_with(s: Seq<u8>, i: int, limit: int, tag: u8, content: Seq<u8>)
    requires
        0 <= i,
        der::tagged_at(s, i, limit, tag) matches Ok(Some(v)) && der::holds_at(s, v.start, content) && v.end == v.start
            + content.len(),
    ensures
        der::holds_at(s, i, der::written(tag, content)),
        der::tagged_at(s, i, limit, tag)->Ok_0->0.end == i + der::written(tag, content).len(),
{
    lemma_found(s, i, limit, tag);
}

proof fn lemma_captured_was_written(s: Seq<u8>, i: int, limit: int, tag: u8)
    requires
        0 <= i <= s.len(),
    ensures
        der::captured_at(s, i, limit, tag) matches Ok((at, octets)) ==> are_optional_values(octets) && der::holds_at(
            s,
            i,
            optional_form(tag, octets),
        ) && at == i + optional_form(tag, octets).len(),
{
    lemma_found(s, i, limit, tag);
    lemma_nothing_held(s, i);
    if let Ok(Some(v)) = der::tagged_at(s, i, limit, tag) {
        der::lemma_there_fill(s, v.start, v.end, v.start);
        if v.end <= s.len() {
            der::lemma_values_held(s, v.start, der::content(s, v), v.start);
        }
    }
}

proof fn lemma_name_was_written(s: Seq<u8>, i: int, limit: int)
    requires
        0 <= i,
    ensures
        der::identifier_at(s, i, limit) matches Ok((at, name)) ==> is_name(name) && der::holds_at(
            s,
            i,
            der::written(0x06, name),
        ) && at == i + der::written(0x06, name).len(),
{
    lemma_found(s, i, limit, 0x06);
}

/// An algorithm that was read was written.
#[verifier::spinoff_prover]
#[verifier::rlimit(60)]
proof fn lemma_algorithm_was_written(s: Seq<u8>, i: int, limit: int)
    requires
        0 <= i,
    ensures
        der::tagged_at(s, i, limit, 0x30) matches Ok(Some(v)) ==> (rfc5652::algorithm_of(s, v) matches Ok(a) ==> is_algorithm(a)
            && der::holds_at(s, i, algorithm_form(a)) && v.end == i + algorithm_form(a).len()),
{
    lemma_found(s, i, limit, 0x30);
    if let Ok(Some(v)) = der::tagged_at(s, i, limit, 0x30) {
        if let Ok(a) = rfc5652::algorithm_of(s, v) {
            let name = der::written(0x06, a.algorithm);
            lemma_found(s, v.start, v.end, 0x06);
            lemma_name_was_written(s, v.start, v.end);
            let at = v.start + name.len();
            der::lemma_there_fill(s, at, v.end, at);
            let octets = s.subrange(at, v.end);
            assert(der::holds_at(s, at, octets));
            der::lemma_values_held(s, at, octets, at);
            if at == v.end {
                assert(octets =~= Seq::empty());
            }
            lemma_join(s, v.start, name, parameters_form(a.parameters));
            lemma_filled_with(s, i, limit, 0x30, name + parameters_form(a.parameters));
        }
    }
}

/// Algorithms that were read were written.
proof fn lemma_algorithms_were_written(s: Seq<u8>, i: int, limit: int, seen: Seq<AlgorithmModel>) -> (rest: Seq<AlgorithmModel>)
    requires
        0 <= i <= s.len(),
        rfc5652::algorithms_from(s, i, limit, seen) is Ok,
    ensures
        rfc5652::algorithms_from(s, i, limit, seen) == Ok::<Seq<AlgorithmModel>, Fault>(seen + rest),
        forall|k: int| 0 <= k < rest.len() ==> is_algorithm(#[trigger] rest[k]),
        der::holds_at(s, i, algorithms_form(rest)),
        limit == i + algorithms_form(rest).len(),
    decreases limit - i,
{
    lemma_algorithm_was_written(s, i, limit);
    match der::tagged_at(s, i, limit, 0x30) {
        Ok(Some(v)) => {
            let a = rfc5652::algorithm_of(s, v)->Ok_0;
            let others = lemma_algorithms_were_written(s, v.end, limit, seen.push(a));
            let rest = seq![a] + others;
            assert(rest.drop_first() =~= others);
            assert(seen.push(a) + others =~= seen + rest);
            lemma_join(s, i, algorithm_form(a), algorithms_form(others));
            rest
        },
        _ => {
            lemma_nothing_held(s, i);
            assert(seen + Seq::empty() =~= seen);
            Seq::empty()
        },
    }
}

#[verifier::spinoff_prover]
#[verifier::rlimit(60)]
proof fn lemma_encapsulated_was_written(s: Seq<u8>, i: int, limit: int)
    requires
        0 <= i,
    ensures
        rfc5652::encapsulated_at(s, i, limit) matches Ok((at, c)) ==> is_name(c.content_type) && der::holds_at(
            s,
            i,
            encapsulated_form(c),
        ) && at == i + encapsulated_form(c).len(),
{
    lemma_found(s, i, limit, 0x30);
    if let Ok((_, c)) = rfc5652::encapsulated_at(s, i, limit) {
        let v = der::tagged_at(s, i, limit, 0x30)->Ok_0->0;
        let name = der::written(0x06, c.content_type);
        lemma_name_was_written(s, v.start, v.end);
        let at = v.start + name.len();
        lemma_found(s, at, v.end, 0xa0);
        let inner: Option<Seq<u8>> = match c.content {
            Some(content) => Some(der::written(0x04, content)),
            None => None,
        };
        match der::tagged_at(s, at, v.end, 0xa0) {
            Ok(Some(e)) => {
                lemma_found(s, e.start, e.end, 0x04);
                lemma_filled_with(s, at, v.end, 0xa0, inner->0);
            },
            _ => {
                lemma_nothing_held(s, at);
            },
        }
        lemma_join(s, v.start, name, optional_form(0xa0, inner));
        lemma_filled_with(s, i, limit, 0x30, name + optional_form(0xa0, inner));
    }
}

proof fn lemma_small_number_was_written(s: Seq<u8>, i: int, limit: int)
    requires
        0 <= i,
    ensures
        rfc5652::small_number_at(s, i, limit) matches Ok((at, n)) ==> (n <= 5 ==> der::holds_at(
            s,
            i,
            der::written(0x02, seq![n]),
        ) && at == i + der::written(0x02, seq![n]).len()),
{
    lemma_found(s, i, limit, 0x02);
    if let Ok((_, n)) = rfc5652::small_number_at(s, i, limit) {
        if n <= 5 {
            let v = der::tagged_at(s, i, limit, 0x02)->Ok_0->0;
            assert(der::content(s, v) =~= seq![n]);
        }
    }
}

proof fn lemma_signer_name_was_written(s: Seq<u8>, i: int, limit: int)
    requires
        0 <= i,
    ensures
        rfc5652::signer_name_end(s, i, limit) matches Ok(at) ==> i <= at <= s.len() && is_signer_name(s.subrange(i, at)),
{
    lemma_found(s, i, limit, 0x30);
    lemma_found(s, i, limit, 0x80);
    match der::tagged_at(s, i, limit, 0x30) {
        Ok(Some(v)) => {
            der::lemma_there_fill(s, v.start, v.end, v.start);
            if v.end <= s.len() {
                der::lemma_values_held(s, v.start, der::content(s, v), v.start);
                assert(s.subrange(i, v.end) == der::written(0x30, der::content(s, v)));
            }
        },
        _ => {
            if let Ok(Some(v)) = der::tagged_at(s, i, limit, 0x80) {
                if v.end <= s.len() {
                    assert(s.subrange(i, v.end) == der::written(0x80, der::content(s, v)));
                }
            }
        },
    }
}

#[verifier::spinoff_prover]
#[verifier::rlimit(60)]
proof fn lemma_signer_was_written(s: Seq<u8>, v: Value)
    requires
        0 <= v.start <= s.len(),
    ensures
        rfc5652::signer_of(s, v) matches Ok(m) ==> is_signer(m) && der::holds_at(s, v.start, signer_content(m)) && v.end
            == v.start + signer_content(m).len(),
{
    if let Ok(m) = rfc5652::signer_of(s, v) {
        let end = v.end;
        let p7 = optional_form(0xa1, m.unsigned_attributes);
        let p6 = der::written(0x04, m.signature);
        let p5 = algorithm_form(m.signature_algorithm);
        let p4 = optional_form(0xa0, m.signed_attributes);
        let p3 = algorithm_form(m.digest_algorithm);
        let p1 = der::written(0x02, seq![m.version]);
        lemma_small_number_was_written(s, v.start, end);
        let a2 = v.start + p1.len();
        lemma_signer_name_was_written(s, a2, end);
        let a3 = rfc5652::signer_name_end(s, a2, end)->Ok_0;
        assert(der::holds_at(s, a2, m.sid));
        lemma_algorithm_was_written(s, a3, end);
        let a4 = a3 + p3.len();
        lemma_captured_was_written(s, a4, end, 0xa0);
        let a5 = a4 + p4.len();
        lemma_algorithm_was_written(s, a5, end);
        let a6 = a5 + p5.len();
        lemma_found(s, a6, end, 0x04);
        let a7 = a6 + p6.len();
        lemma_captured_was_written(s, a7, end, 0xa1);
        lemma_join(s, a6, p6, p7);
        lemma_join(s, a5, p5, p6 + p7);
        lemma_join(s, a4, p4, p5 + (p6 + p7));
        lemma_join(s, a3, p3, p4 + (p5 + (p6 + p7)));
        lemma_join(s, a2, m.sid, p3 + (p4 + (p5 + (p6 + p7))));
        lemma_join(s, v.start, p1, m.sid + (p3 + (p4 + (p5 + (p6 + p7)))));
    }
}

proof fn lemma_signers_were_written(s: Seq<u8>, i: int, limit: int, seen: Seq<SignerModel>) -> (rest: Seq<SignerModel>)
    requires
        0 <= i <= s.len(),
        rfc5652::signers_from(s, i, limit, seen) is Ok,
    ensures
        rfc5652::signers_from(s, i, limit, seen) == Ok::<Seq<SignerModel>, Fault>(seen + rest),
        forall|k: int| 0 <= k < rest.len() ==> is_signer(#[trigger] rest[k]),
        der::holds_at(s, i, signers_form(rest)),
        limit == i + signers_form(rest).len(),
    decreases limit - i,
{
    lemma_found(s, i, limit, 0x30);
    match der::tagged_at(s, i, limit, 0x30) {
        Ok(Some(v)) => {
            let m = rfc5652::signer_of(s, v)->Ok_0;
            lemma_signer_was_written(s, v);
            lemma_filled_with(s, i, limit, 0x30, signer_content(m));
            let others = lemma_signers_were_written(s, v.end, limit, seen.push(m));
            let rest = seq![m] + others;
            assert(rest.drop_first() =~= others);
            assert(seen.push(m) + others =~= seen + rest);
            lemma_join(s, i, der::written(0x30, signer_content(m)), signers_form(others));
            rest
        },
        _ => {
            lemma_nothing_held(s, i);
            assert(seen + Seq::empty() =~= seen);
            Seq::empty()
        },
    }
}

/// Nothing is read as signed data but octets that begin with what is written for them.
#[verifier::spinoff_prover]
#[verifier::rlimit(60)]
pub proof fn signed_data_was_written(s: Seq<u8>)
    ensures
        rfc5652::signed_data_in(s) matches Ok(d) ==> is_signed_data(d) && der::holds_at(s, 0, signed_data_form(d)),
{
    lemma_found(s, 0, der::no_limit(s), 0x30);
    if let Ok(d) = rfc5652::signed_data_in(s) {
        let v = der::tagged_at(s, 0, der::no_limit(s), 0x30)->Ok_0->0;
        let end = v.end;
        let p1 = der::written(0x02, seq![d.version]);
        let p2 = der::written(0x31, algorithms_form(d.digest_algorithms));
        let p3 = encapsulated_form(d.content_info);
        let p4 = optional_form(0xa0, d.certificates);
        let p5 = optional_form(0xa1, d.crls);
        let p6 = der::written(0x31, signers_form(d.signer_infos));
        lemma_small_number_was_written(s, v.start, end);
        let a2 = v.start + p1.len();
        lemma_found(s, a2, end, 0x31);
        let digests = der::tagged_at(s, a2, end, 0x31)->Ok_0->0;
        let algorithms = lemma_algorithms_were_written(s, digests.start, digests.end, Seq::empty());
        assert(Seq::empty() + algorithms =~= algorithms);
        lemma_filled_with(s, a2, end, 0x31, algorithms_form(algorithms));
        let a3 = a2 + p2.len();
        lemma_encapsulated_was_written(s, a3, end);
        let a4 = a3 + p3.len();
        lemma_captured_was_written(s, a4, end, 0xa0);
        let a5 = a4 + p4.len();
        lemma_captured_was_written(s, a5, end, 0xa1);
        let a6 = a5 + p5.len();
        lemma_found(s, a6, end, 0x31);
        let found = der::tagged_at(s, a6, end, 0x31)->Ok_0->0;
        let signers = lemma_signers_were_written(s, found.start, found.end, Seq::empty());
        assert(Seq::empty() + signers =~= signers);
        lemma_filled_with(s, a6, end, 0x31, signers_form(signers));
        lemma_join(s, a5, p5, p6);
        lemma_join(s, a4, p4, p5 + p6);
        lemma_join(s, a3, p3, p4 + (p5 + p6));
        lemma_join(s, a2, p2, p3 + (p4 + (p5 + p6)));
        lemma_join(s, v.start, p1, p2 + (p3 + (p4 + (p5 + p6))));
        lemma_filled_with(s, 0, der::no_limit(s), 0x30, signed_data_content(d));
    }
}

proof fn lemma_imprint_was_written(s: Seq<u8>, i: int, limit: int)
    requires
        0 <= i,
    ensures
        rfc3161::imprint_at(s, i, limit) matches Ok((at, m)) ==> is_algorithm(m.hash_algorithm) && der::holds_at(
            s,
            i,
            imprint_form(m),
        ) && at == i + imprint_form(m).len(),
{
    lemma_found(s, i, limit, 0x30);
    if let Ok((_, m)) = rfc3161::imprint_at(s, i, limit) {
        let v = der::tagged_at(s, i, limit, 0x30)->Ok_0->0;
        let algorithm = algorithm_form(m.hash_algorithm);
        let digest = der::written(0x04, m.hashed_message);
        lemma_algorithm_was_written(s, v.start, v.end);
        lemma_found(s, v.start + algorithm.len(), v.end, 0x04);
        lemma_join(s, v.start, algorithm, digest);
        lemma_filled_with(s, i, limit, 0x30, algorithm + digest);
    }
}

proof fn lemma_number_was_written(s: Seq<u8>, i: int, limit: int, tag: u8)
    requires
        0 <= i <= s.len(),
    ensures
        rfc3161::optional_number_at(s, i, limit, tag) matches Ok((at, number)) ==> der::holds_at(
            s,
            i,
            optional_form(tag, number_content(number)),
        ) && at == i + optional_form(tag, number_content(number)).len(),
        rfc3161::number_at(s, i, limit) matches Ok((at, number)) ==> der::holds_at(
            s,
            i,
            der::written(0x02, integer::integer_octets(number)),
        ) && at == i + der::written(0x02, integer::integer_octets(number)).len(),
{
    lemma_found(s, i, limit, tag);
    lemma_found(s, i, limit, 0x02);
    lemma_nothing_held(s, i);
    if let Ok(Some(v)) = der::tagged_at(s, i, limit, tag) {
        if integer::is_integer(der::content(s, v)) {
            integer::value_gives_back_octets(der::content(s, v));
        }
    }
    if let Ok(Some(v)) = der::tagged_at(s, i, limit, 0x02) {
        if integer::is_integer(der::content(s, v)) {
            integer::value_gives_back_octets(der::content(s, v));
        }
    }
}

proof fn lemma_accuracy_was_written(s: Seq<u8>, i: int, limit: int)
    requires
        0 <= i <= s.len(),
    ensures
        rfc3161::accuracy_at(s, i, limit) matches Ok((at, a)) ==> der::holds_at(
            s,
            i,
            optional_form(0x30, optional_accuracy_content(a)),
        ) && at == i + optional_form(0x30, optional_accuracy_content(a)).len(),
{
    lemma_found(s, i, limit, 0x30);
    lemma_nothing_held(s, i);
    if let Ok((_, Some(a))) = rfc3161::accuracy_at(s, i, limit) {
        let v = der::tagged_at(s, i, limit, 0x30)->Ok_0->0;
        let p1 = optional_form(0x02, number_content(a.seconds));
        let p2 = optional_form(0x80, number_content(a.millis));
        let p3 = optional_form(0x81, number_content(a.micros));
        let a2 = v.start + p1.len();
        let a3 = a2 + p2.len();
        lemma_number_was_written(s, v.start, v.end, 0x02);
        lemma_number_was_written(s, a2, v.end, 0x80);
        lemma_number_was_written(s, a3, v.end, 0x81);
        lemma_join(s, a2, p2, p3);
        lemma_join(s, v.start, p1, p2 + p3);
        lemma_filled_with(s, i, limit, 0x30, accuracy_content(a));
    }
}

proof fn lemma_truth_was_written(s: Seq<u8>, i: int, limit: int)
    requires
        0 <= i <= s.len(),
    ensures
        rfc3161::truth_at(s, i, limit) matches Ok((at, truth)) ==> der::holds_at(
            s,
            i,
            optional_form(0x01, truth_content(truth)),
        ) && at == i + optional_form(0x01, truth_content(truth)).len(),
{
    lemma_found(s, i, limit, 0x01);
    lemma_nothing_held(s, i);
    if let Ok((_, Some(truth))) = rfc3161::truth_at(s, i, limit) {
        let v = der::tagged_at(s, i, limit, 0x01)->Ok_0->0;
        assert(der::content(s, v) =~= truth_content(Some(truth))->0);
    }
}

#[verifier::spinoff_prover]
#[verifier::rlimit(60)]
proof fn lemma_tst_tail_was_written(s: Seq<u8>, i: int, v: Value, rest: TstModel)
    requires
        0 <= i <= s.len(),
    ensures
        rfc3161::tst_rest_at(s, i, v, rest) matches Ok(t) ==> are_optional_values(t.tsa) && are_optional_values(t.extensions)
            && der::holds_at(s, i, tst_tail(t)) && v.end == i + tst_tail(t).len() && t == (TstModel {
            accuracy: t.accuracy,
            ordering: t.ordering,
            nonce: t.nonce,
            tsa: t.tsa,
            extensions: t.extensions,
            ..rest
        }),
{
    if let Ok(t) = rfc3161::tst_rest_at(s, i, v, rest) {
        let end = v.end;
        let p1 = optional_form(0x30, optional_accuracy_content(t.accuracy));
        let p2 = optional_form(0x01, truth_content(t.ordering));
        let p3 = optional_form(0x02, number_content(t.nonce));
        let p4 = optional_form(0xa0, t.tsa);
        let p5 = optional_form(0xa1, t.extensions);
        let a2 = i + p1.len();
        let a3 = a2 + p2.len();
        let a4 = a3 + p3.len();
        let a5 = a4 + p4.len();
        lemma_accuracy_was_written(s, i, end);
        lemma_truth_was_written(s, a2, end);
        lemma_number_was_written(s, a3, end, 0x02);
        lemma_captured_was_written(s, a4, end, 0xa0);
        lemma_captured_was_written(s, a5, end, 0xa1);
        lemma_join(s, a4, p4, p5);
        lemma_join(s, a3, p3, p4 + p5);
        lemma_join(s, a2, p2, p3 + (p4 + p5));
        lemma_join(s, i, p1, p2 + (p3 + (p4 + p5)));
    }
}

/// Nothing is read as the information of a token but octets that begin with what is written for it.
#[verifier::spinoff_prover]
#[verifier::rlimit(60)]
pub proof fn tst_info_was_written(s: Seq<u8>)
    ensures
        rfc3161::tst_info_in(s) matches Ok(t) ==> is_tst_info(t) && der::holds_at(s, 0, tst_form(t)),
{
    lemma_found(s, 0, der::no_limit(s), 0x30);
    if let Ok(t) = rfc3161::tst_info_in(s) {
        let v = der::tagged_at(s, 0, der::no_limit(s), 0x30)->Ok_0->0;
        let end = v.end;
        lemma_number_was_written(s, v.start, end, 0x02);
        let (a2, version) = rfc3161::number_at(s, v.start, end)->Ok_0;
        lemma_name_was_written(s, a2, end);
        let (a3, policy) = der::identifier_at(s, a2, end)->Ok_0;
        lemma_imprint_was_written(s, a3, end);
        let (a4, message_imprint) = rfc3161::imprint_at(s, a3, end)->Ok_0;
        lemma_number_was_written(s, a4, end, 0x02);
        let (a5, serial_number) = rfc3161::number_at(s, a4, end)->Ok_0;
        lemma_found(s, a5, end, 0x18);
        let (a6, gen_time) = rfc3161::time_at(s, a5, end)->Ok_0;
        let known = TstModel {
            version,
            policy,
            message_imprint,
            serial_number,
            gen_time,
            accuracy: None,
            ordering: None,
            nonce: None,
            tsa: None,
            extensions: None,
        };
        lemma_tst_tail_was_written(s, a6, v, known);
        let p1 = der::written(0x02, integer::integer_octets(t.version));
        let p2 = der::written(0x06, t.policy);
        let p3 = imprint_form(t.message_imprint);
        let p4 = der::written(0x02, integer::integer_octets(t.serial_number));
        let p5 = der::written(0x18, t.gen_time);
        let p6 = tst_tail(t);
        lemma_join(s, a5, p5, p6);
        lemma_join(s, a4, p4, p5 + p6);
        lemma_join(s, a3, p3, p4 + (p5 + p6));
        lemma_join(s, a2, p2, p3 + (p4 + (p5 + p6)));
        lemma_join(s, v.start, p1, p2 + (p3 + (p4 + (p5 + p6))));
        lemma_filled_with(s, 0, der::no_limit(s), 0x30, tst_content(t));
    }
}

proof fn lemma_texts_were_written(s: Seq<u8>, i: int, limit: int, seen: Seq<Seq<char>>) -> (rest: Seq<Seq<char>>)
    requires
        0 <= i <= s.len(),
        rfc3161::texts_from(s, i, limit, seen) is Ok,
    ensures
        rfc3161::texts_from(s, i, limit, seen) == Ok::<Seq<Seq<char>>, Fault>(seen + rest),
        der::holds_at(s, i, texts_form(rest)),
        limit == i + texts_form(rest).len(),
    decreases limit - i,
{
    lemma_found(s, i, limit, 0x0c);
    match der::tagged_at(s, i, limit, 0x0c) {
        Ok(Some(v)) => {
            let octets = der::content(s, v);
            let text = utf8::decode_utf8(octets);
            utf8::decode_utf8_encode_utf8(octets);
            let others = lemma_texts_were_written(s, v.end, limit, seen.push(text));
            let rest = seq![text] + others;
            assert(rest.drop_first() =~= others);
            assert(seen.push(text) + others =~= seen + rest);
            lemma_join(s, i, der::written(0x0c, octets), texts_form(others));
            rest
        },
        _ => {
            lemma_nothing_held(s, i);
            assert(seen + Seq::empty() =~= seen);
            Seq::empty()
        },
    }
}

#[verifier::spinoff_prover]
#[verifier::rlimit(60)]
proof fn lemma_status_was_written(s: Seq<u8>, v: Value)
    requires
        0 <= v.start <= s.len(),
    ensures
        rfc3161::status_info_of(s, v) matches Ok(m) ==> is_status(m) && der::holds_at(s, v.start, status_content(m)) && v.end
            == v.start + status_content(m).len(),
{
    if let Ok(m) = rfc3161::status_info_of(s, v) {
        let p1 = der::written(0x02, seq![status_number(m.status)]);
        let p2 = optional_form(0x30, optional_texts_content(m.status_string));
        let p3 = optional_form(0x03, m.fail_info);
        let a2 = v.start + p1.len();
        let a3 = a2 + p2.len();
        lemma_small_number_was_written(s, v.start, v.end);
        lemma_found(s, a2, v.end, 0x30);
        match der::tagged_at(s, a2, v.end, 0x30) {
            Ok(Some(t)) => {
                let list = lemma_texts_were_written(s, t.start, t.end, Seq::empty());
                assert(Seq::empty() + list =~= list);
                lemma_filled_with(s, a2, v.end, 0x30, texts_form(list));
            },
            _ => {
                lemma_nothing_held(s, a2);
            },
        }
        lemma_found(s, a3, v.end, 0x03);
        match der::tagged_at(s, a3, v.end, 0x03) {
            Ok(Some(b)) => {
                lemma2_to64();
                let octets = der::content(s, b);
                assert(octets[0] == s[b.start]);
                assert(octets.last() == s[b.end - 1]);
            },
            _ => {
                lemma_nothing_held(s, a3);
            },
        }
        lemma_join(s, a2, p2, p3);
        lemma_join(s, v.start, p1, p2 + p3);
    }
}

/// The octets of a response.
pub open spec fn response_form(r: ResponseModel) -> Seq<u8> {
    match r.time_stamp_token {
        Some(token) => der::written(0x30, stamped_content(r.status, token.content_type, token.content)),
        None => der::written(0x30, answer_content(r.status)),
    }
}

/// Nothing is read as a response but octets that begin with what is written for it.
#[verifier::spinoff_prover]
#[verifier::rlimit(60)]
pub proof fn response_was_written(s: Seq<u8>)
    ensures
        rfc3161::response_in(s) matches Ok(r) ==> is_status(r.status) && der::holds_at(s, 0, response_form(r)),
        rfc3161::response_in(s) matches Ok(r) ==> (r.time_stamp_token matches Some(token) ==> is_name(token.content_type)
            && der::are_values(token.content) && token.start == response_form(r).len() - token.content.len()),
{
    lemma_found(s, 0, der::no_limit(s), 0x30);
    if let Ok(r) = rfc3161::response_in(s) {
        let v = der::tagged_at(s, 0, der::no_limit(s), 0x30)->Ok_0->0;
        lemma_found(s, v.start, v.end, 0x30);
        let a = der::tagged_at(s, v.start, v.end, 0x30)->Ok_0->0;
        lemma_status_was_written(s, a);
        lemma_filled_with(s, v.start, v.end, 0x30, status_content(r.status));
        lemma_found(s, a.end, v.end, 0x30);
        match der::tagged_at(s, a.end, v.end, 0x30) {
            Ok(Some(t)) => {
                let token = r.time_stamp_token->0;
                let name = der::written(0x06, token.content_type);
                lemma_name_was_written(s, t.start, t.end);
                let at = t.start + name.len();
                lemma_found(s, at, t.end, 0xa0);
                let c = der::tagged_at(s, at, t.end, 0xa0)->Ok_0->0;
                der::lemma_there_fill(s, c.start, c.end, c.start);
                der::lemma_values_held(s, c.start, token.content, c.start);
                lemma_join(s, t.start, name, der::written(0xa0, token.content));
                lemma_filled_with(s, a.end, v.end, 0x30, name + der::written(0xa0, token.content));
                lemma_join(s, v.start, answer_content(r.status), token_form(token.content_type, token.content));
                lemma_filled_with(
                    s,
                    0,
                    der::no_limit(s),
                    0x30,
                    stamped_content(r.status, token.content_type, token.content),
                );
            },
            _ => {
                lemma_filled_with(s, 0, der::no_limit(s), 0x30, answer_content(r.status));
            },
        }
    }
}

/// What is written for signed data consists of values.
proof fn lemma_algorithm_is_value(a: AlgorithmModel)
    requires
        is_algorithm(a),
        algorithm_form(a).len() <= 0xffff_ffff,
    ensures
        der::are_values(algorithm_form(a)),
{
    let name = der::written(0x06, a.algorithm);
    der::written_is_value(0x06, a.algorithm);
    der::values_in_a_row(name, parameters_form(a.parameters));
    der::written_is_value(0x30, name + parameters_form(a.parameters));
}

proof fn lemma_algorithms_are_values(list: Seq<AlgorithmModel>)
    requires
        forall|k: int| 0 <= k < list.len() ==> is_algorithm(#[trigger] list[k]),
        algorithms_form(list).len() <= 0xffff_ffff,
    ensures
        der::are_values(algorithms_form(list)),
    decreases list.len(),
{
    if list.len() > 0 {
        let rest = list.drop_first();
        assert forall|k: int| 0 <= k < rest.len() implies is_algorithm(#[trigger] rest[k]) by {
            assert(rest[k] == list[k + 1]);
        }
        lemma_algorithm_is_value(list[0]);
        lemma_algorithms_are_values(rest);
        der::values_in_a_row(algorithm_form(list[0]), algorithms_form(rest));
    }
}

proof fn lemma_optional_are_values(tag: u8, octets: Option<Seq<u8>>)
    requires
        tag % 32 != 31,
        tag % 64 >= 32,
        are_optional_values(octets),
        optional_form(tag, octets).len() <= 0xffff_ffff,
    ensures
        der::are_values(optional_form(tag, octets)),
{
    if let Some(o) = octets {
        der::written_is_value(tag, o);
    }
}

#[verifier::spinoff_prover]
#[verifier::rlimit(60)]
proof fn lemma_signer_is_value(m: SignerModel)
    requires
        is_signer(m),
        signer_content(m).len() <= 0xffff_ffff,
    ensures
        der::are_values(signer_content(m)),
{
    let p7 = optional_form(0xa1, m.unsigned_attributes);
    let p6 = der::written(0x04, m.signature);
    let p5 = algorithm_form(m.signature_algorithm);
    let p4 = optional_form(0xa0, m.signed_attributes);
    let p3 = algorithm_form(m.digest_algorithm);
    let p1 = der::written(0x02, seq![m.version]);
    lemma_optional_are_values(0xa1, m.unsigned_attributes);
    der::written_is_value(0x04, m.signature);
    der::values_in_a_row(p6, p7);
    lemma_algorithm_is_value(m.signature_algorithm);
    der::values_in_a_row(p5, p6 + p7);
    lemma_optional_are_values(0xa0, m.signed_attributes);
    der::values_in_a_row(p4, p5 + (p6 + p7));
    lemma_algorithm_is_value(m.digest_algorithm);
    der::values_in_a_row(p3, p4 + (p5 + (p6 + p7)));
    if exists|content: Seq<u8>| der::are_values(content) && m.sid == #[trigger] der::written(0x30, content) {
        let content = choose|content: Seq<u8>|
            der::are_values(content) && m.sid == #[trigger] der::written(0x30, content);
        der::written_is_value(0x30, content);
    } else {
        let content = choose|content: Seq<u8>| m.sid == #[trigger] der::written(0x80, content);
        der::written_is_value(0x80, content);
    }
    der::values_in_a_row(m.sid, p3 + (p4 + (p5 + (p6 + p7))));
    der::written_is_value(0x02, seq![m.version]);
    der::values_in_a_row(p1, m.sid + (p3 + (p4 + (p5 + (p6 + p7)))));
}

proof fn lemma_signers_are_values(list: Seq<SignerModel>)
    requires
        forall|k: int| 0 <= k < list.len() ==> is_signer(#[trigger] list[k]),
        signers_form(list).len() <= 0xffff_ffff,
    ensures
        der::are_values(signers_form(list)),
    decreases list.len(),
{
    if list.len() > 0 {
        let rest = list.drop_first();
        assert forall|k: int| 0 <= k < rest.len() implies is_signer(#[trigger] rest[k]) by {
            assert(rest[k] == list[k + 1]);
        }
        lemma_signer_is_value(list[0]);
        der::written_is_value(0x30, signer_content(list[0]));
        lemma_signers_are_values(rest);
        der::values_in_a_row(der::written(0x30, signer_content(list[0])), signers_form(rest));
    }
}

/// What is written for signed data can be the content of a token.
#[verifier::spinoff_prover]
#[verifier::rlimit(60)]
pub proof fn signed_data_is_value(d: SignedDataModel)
    requires
        is_signed_data(d),
        signed_data_content(d).len() <= 0xffff_ffff,
    ensures
        der::are_values(signed_data_form(d)),
{
    let c = d.content_info;
    let name = der::written(0x06, c.content_type);
    let inner: Option<Seq<u8>> = match c.content {
        Some(content) => Some(der::written(0x04, content)),
        None => None,
    };
    if let Some(content) = c.content {
        der::written_is_value(0x04, content);
    }
    lemma_optional_are_values(0xa0, inner);
    der::written_is_value(0x06, c.content_type);
    der::values_in_a_row(name, optional_form(0xa0, inner));
    der::written_is_value(0x30, name + optional_form(0xa0, inner));
    let p1 = der::written(0x02, seq![d.version]);
    let p2 = der::written(0x31, algorithms_form(d.digest_algorithms));
    let p3 = encapsulated_form(c);
    let p4 = optional_form(0xa0, d.certificates);
    let p5 = optional_form(0xa1, d.crls);
    let p6 = der::written(0x31, signers_form(d.signer_infos));
    lemma_signers_are_values(d.signer_infos);
    der::written_is_value(0x31, signers_form(d.signer_infos));
    lemma_optional_are_values(0xa1, d.crls);
    der::values_in_a_row(p5, p6);
    lemma_optional_are_values(0xa0, d.certificates);
    der::values_in_a_row(p4, p5 + p6);
    der::values_in_a_row(p3, p4 + (p5 + p6));
    lemma_algorithms_are_values(d.digest_algorithms);
    der::written_is_value(0x31, algorithms_form(d.digest_algorithms));
    der::values_in_a_row(p2, p3 + (p4 + (p5 + p6)));
    der::written_is_value(0x02, seq![d.version]);
    der::values_in_a_row(p1, p2 + (p3 + (p4 + (p5 + p6))));
    der::written_is_value(0x30, signed_data_content(d));
}

/// Whether a request can be written.
pub open spec fn is_request(r: RequestModel) -> bool {
    &&& is_algorithm(r.message_imprint.hash_algorithm)
    &&& r.req_policy matches Some(p) ==> is_name(p)
    &&& are_optional_values(r.extensions)
}

/// The octets of what may be missing in a request: the policy, the nonce, whether certificates are
/// asked for, and the extensions.
pub open spec fn request_tail(r: RequestModel) -> Seq<u8> {
    optional_form(0x06, r.req_policy) + (optional_form(0x02, number_content(r.nonce)) + (optional_form(
        0x01,
        truth_content(r.cert_req),
    ) + optional_form(0xa0, r.extensions)))
}

/// The content octets of a request: the version, the imprint, and what may be missing.
pub open spec fn request_content(r: RequestModel) -> Seq<u8> {
    der::written(0x02, integer::integer_octets(r.version)) + (imprint_form(r.message_imprint) + request_tail(r))
}

/// The octets of a request.
pub open spec fn request_form(r: RequestModel) -> Seq<u8> {
    der::written(0x30, request_content(r))
}

/// A request whose algorithm has a null value for parameters where it has none.
pub open spec fn with_null(r: RequestModel) -> RequestModel {
    let a = r.message_imprint.hash_algorithm;
    if a.parameters is None {
        RequestModel {
            message_imprint: ImprintModel {
                hash_algorithm: AlgorithmModel { parameters: Some(seq![0x05u8, 0x00u8]), ..a },
                ..r.message_imprint
            },
            ..r
        }
    } else {
        r
    }
}

/// Octets put behind each other are the same in whichever order that is done.
proof fn lemma_six_parts(a: Seq<u8>, b: Seq<u8>, c: Seq<u8>, d: Seq<u8>, e: Seq<u8>, f: Seq<u8>)
    ensures
        a + b + c + d + e + f == a + (b + (c + (d + (e + f)))),
{
    assert(a + b + c + d + e + f =~= a + (b + (c + (d + (e + f)))));
}

/// A request is sent as it is written, with a null value for the parameters of its algorithm where
/// it has none.
#[verifier::spinoff_prover]
#[verifier::rlimit(60)]
pub proof fn sent_request_is_written(r: RequestModel)
    ensures
        rfc3161::request_octets(r) == request_form(with_null(r)),
{
    let w = with_null(r);
    assert(der::written(0x05, Seq::empty()) =~= seq![0x05u8, 0x00u8]);
    assert(rfc3161::parameter_octets(r.message_imprint.hash_algorithm.parameters) == parameters_form(
        w.message_imprint.hash_algorithm.parameters,
    ));
    assert(rfc3161::imprint_octets(r.message_imprint) == imprint_form(w.message_imprint));
    assert(rfc3161::truth_octets(r.cert_req) == truth_content(r.cert_req)) by {
        if let Some(truth) = r.cert_req {
            assert(rfc3161::truth_octets(r.cert_req)->0 =~= truth_content(r.cert_req)->0);
        }
    }
    assert(rfc3161::number_octets(r.nonce) == number_content(r.nonce));
    lemma_six_parts(
        der::written(0x02, integer::integer_octets(r.version)),
        imprint_form(w.message_imprint),
        optional_form(0x06, r.req_policy),
        optional_form(0x02, number_content(r.nonce)),
        optional_form(0x01, truth_content(r.cert_req)),
        optional_form(0xa0, r.extensions),
    );
    assert(rfc3161::request_content(r) == request_content(w));
}

#[verifier::spinoff_prover]
#[verifier::rlimit(60)]
proof fn lemma_request_tail(s: Seq<u8>, i: int, v: Value, r: RequestModel, rest: RequestModel)
    requires
        is_request(r),
        request_tail(r).len() <= 0xffff_ffff,
        der::holds_at(s, i, request_tail(r)),
        v.end == i + request_tail(r).len(),
        rest.version == r.version,
        rest.message_imprint == r.message_imprint,
    ensures
        rfc3161::request_rest_at(s, i, v, rest) == Ok::<RequestModel, Fault>(r),
{
    let p1 = optional_form(0x06, r.req_policy);
    let p2 = optional_form(0x02, number_content(r.nonce));
    let p3 = optional_form(0x01, truth_content(r.cert_req));
    let p4 = optional_form(0xa0, r.extensions);
    let a2 = i + p1.len();
    let a3 = a2 + p2.len();
    let a4 = a3 + p3.len();
    let end = v.end;
    der::lemma_holds_parts(s, i, p1, p2 + (p3 + p4));
    der::lemma_holds_parts(s, a2, p2, p3 + p4);
    der::lemma_holds_parts(s, a3, p3, p4);
    der::lemma_nothing_at_limit(s, end);
    lemma_captured(s, a4, end, 0xa0, r.extensions);
    lemma_maybe(s, a3, end, 0x01, truth_content(r.cert_req));
    if r.cert_req is Some {
        let c = der::tagged_at(s, a3, end, 0x01)->Ok_0->0;
        assert(der::content(s, c)[0] == truth_content(r.cert_req)->0[0]);
    }
    assert(rfc3161::truth_at(s, a3, end) == Ok::<(int, Option<bool>), Fault>((a4, r.cert_req)));
    lemma_number(s, a2, end, 0x02, r.nonce);
    lemma_maybe(s, i, end, 0x06, r.req_policy);
    assert(rfc3161::policy_at(s, i, end) == Ok::<(int, Option<Seq<u8>>), Fault>((a2, r.req_policy)));
}

/// A request that was written is read back, whatever follows it, and whichever of the fields that
/// may be missing are there.
#[verifier::spinoff_prover]
#[verifier::rlimit(60)]
pub proof fn written_request_is_read_back(r: RequestModel, rest: Seq<u8>)
    requires
        is_request(r),
        request_content(r).len() <= 0xffff_ffff,
    ensures
        rfc3161::request_in(request_form(r) + rest) == Ok::<RequestModel, Fault>(r),
{
    let s = request_form(r) + rest;
    assert(s.subrange(0, request_form(r).len() as int) =~= request_form(r));
    lemma_only(s, 0, der::no_limit(s), 0x30, request_content(r));
    let v = der::tagged_at(s, 0, der::no_limit(s), 0x30)->Ok_0->0;
    let version = integer::integer_octets(r.version);
    let p2 = imprint_form(r.message_imprint);
    let a2 = v.start + der::written(0x02, version).len();
    integer::octets_give_back_value(r.version);
    lemma_first(s, v.start, v.end, 0x02, version, p2 + request_tail(r));
    assert(rfc3161::number_at(s, v.start, v.end) == Ok::<(int, int), Fault>((a2, r.version)));
    der::lemma_holds_parts(s, a2, p2, request_tail(r));
    lemma_imprint(s, a2, v.end, r.message_imprint);
    lemma_request_tail(
        s,
        a2 + p2.len(),
        v,
        r,
        RequestModel { req_policy: None, nonce: None, cert_req: None, extensions: None, ..r },
    );
}

/// Nothing is read as a request but octets that begin with what is written for it.
#[verifier::spinoff_prover]
#[verifier::rlimit(60)]
pub proof fn request_was_written(s: Seq<u8>)
    ensures
        rfc3161::request_in(s) matches Ok(r) ==> is_request(r) && der::holds_at(s, 0, request_form(r)),
{
    lemma_found(s, 0, der::no_limit(s), 0x30);
    if let Ok(r) = rfc3161::request_in(s) {
        let v = der::tagged_at(s, 0, der::no_limit(s), 0x30)->Ok_0->0;
        let end = v.end;
        let p1 = der::written(0x02, integer::integer_octets(r.version));
        let p2 = imprint_form(r.message_imprint);
        let p3 = optional_form(0x06, r.req_policy);
        let p4 = optional_form(0x02, number_content(r.nonce));
        let p5 = optional_form(0x01, truth_content(r.cert_req));
        let p6 = optional_form(0xa0, r.extensions);
        let a2 = v.start + p1.len();
        let a3 = a2 + p2.len();
        let a4 = a3 + p3.len();
        let a5 = a4 + p4.len();
        let a6 = a5 + p5.len();
        lemma_number_was_written(s, v.start, end, 0x02);
        lemma_imprint_was_written(s, a2, end);
        lemma_found(s, a3, end, 0x06);
        lemma_nothing_held(s, a3);
        lemma_number_was_written(s, a4, end, 0x02);
        lemma_truth_was_written(s, a5, end);
        lemma_captured_was_written(s, a6, end, 0xa0);
        lemma_join(s, a5, p5, p6);
        lemma_join(s, a4, p4, p5 + p6);
        lemma_join(s, a3, p3, p4 + (p5 + p6));
        lemma_join(s, a2, p2, p3 + (p4 + (p5 + p6)));
        lemma_join(s, v.start, p1, p2 + (p3 + (p4 + (p5 + p6))));
        lemma_filled_with(s, 0, der::no_limit(s), 0x30, request_content(r));
    }
}

} // verus!
