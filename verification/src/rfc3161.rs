//! The messages of the Time-Stamp Protocol: requests, responses and the information that a
//! time-stamp token carries.

use vstd::prelude::*;
use vstd::utf8;

use crate::der;
use crate::der::{
    failed, len_of_value, read_captured, read_identifier, read_needed, read_octet_string, read_tagged, unlimited,
    write_octets, write_value, DecodeError, Fault, ReadValue, Reason, Value, BIT_STRING, BOOLEAN, CONSTRUCTED_0,
    CONSTRUCTED_1, GENERALIZED_TIME, INTEGER, NULL, OBJECT_IDENTIFIER, OCTET_STRING, PRIMITIVE_0, PRIMITIVE_1, SEQUENCE,
    UTF8_STRING,
};
use crate::integer;
use crate::integer::Integer;
use crate::rfc5652;
use crate::rfc5652::{
    read_algorithm, read_content_info, read_small_number, AlgorithmIdentifier, AlgorithmModel, ContentInfo, ContentModel,
};
use crate::text;
use crate::text::utf8_text;

verus! {

/// The object identifier 1.2.840.113549.1.9.16.1.4.
pub const OID_CONTENT_TYPE_TST_INFO: [u8; 11] = [42, 134, 72, 134, 247, 13, 1, 9, 16, 1, 4];

/// How a server answered a request.
#[derive(Clone, Copy, Debug, PartialEq, Eq, Structural)]
pub enum PkiStatus {
    Granted,
    GrantedWithMods,
    Rejection,
    Waiting,
    RevocationWarning,
    RevocationNotification,
}

/// The status that a number stands for.
pub open spec fn status_of(number: u8) -> Option<PkiStatus> {
    if number == 0 {
        Some(PkiStatus::Granted)
    } else if number == 1 {
        Some(PkiStatus::GrantedWithMods)
    } else if number == 2 {
        Some(PkiStatus::Rejection)
    } else if number == 3 {
        Some(PkiStatus::Waiting)
    } else if number == 4 {
        Some(PkiStatus::RevocationWarning)
    } else if number == 5 {
        Some(PkiStatus::RevocationNotification)
    } else {
        None
    }
}

/// A server's answer in general: a status, texts for people to read, and the content of a bit
/// string that says why there is no token.
#[derive(Debug)]
pub struct PkiStatusInfo {
    pub status: PkiStatus,
    pub status_string: Option<Vec<String>>,
    pub fail_info: Option<Vec<u8>>,
}

/// What a [`PkiStatusInfo`] holds.
pub struct StatusModel {
    pub status: PkiStatus,
    pub status_string: Option<Seq<Seq<char>>>,
    pub fail_info: Option<Seq<u8>>,
}

/// The texts that may be there.
pub open spec fn optional_texts(list: Option<Vec<String>>) -> Option<Seq<Seq<char>>> {
    match list {
        Some(list) => Some(text::texts(list@)),
        None => None,
    }
}

impl View for PkiStatusInfo {
    type V = StatusModel;

    open spec fn view(&self) -> StatusModel {
        StatusModel {
            status: self.status,
            status_string: optional_texts(self.status_string),
            fail_info: der::optional_octets(self.fail_info),
        }
    }
}

/// The response of a server: its answer, and the time-stamp token if there is one.
#[derive(Debug)]
pub struct TimeStampResp {
    pub status: PkiStatusInfo,
    pub time_stamp_token: Option<ContentInfo>,
}

/// What a [`TimeStampResp`] holds.
pub struct ResponseModel {
    pub status: StatusModel,
    pub time_stamp_token: Option<ContentModel>,
}

impl View for TimeStampResp {
    type V = ResponseModel;

    open spec fn view(&self) -> ResponseModel {
        ResponseModel {
            status: self.status@,
            time_stamp_token: match self.time_stamp_token {
                Some(token) => Some(token@),
                None => None,
            },
        }
    }
}

/// The texts that the values from `i` up to the limit hold, after those already seen.
pub open spec fn texts_from(s: Seq<u8>, i: int, limit: int, seen: Seq<Seq<char>>) -> Result<Seq<Seq<char>>, Fault>
    decreases limit - i,
{
    match der::tagged_at(s, i, limit, UTF8_STRING) {
        Ok(Some(v)) => match der::octets_of(s, v) {
            Ok(octets) => if !utf8::valid_utf8(octets) {
                der::fault(Reason::InvalidCharacter, v.start)
            } else if i < v.end <= limit {
                texts_from(s, v.end, limit, seen.push(utf8::decode_utf8(octets)))
            } else {
                der::fault(Reason::TrailingData, i)
            },
            Err(f) => Err(f),
        },
        Ok(None) => if i == limit {
            Ok(seen)
        } else {
            der::fault(Reason::TrailingData, i)
        },
        Err(f) => Err(f),
    }
}

/// The texts that may stand at `i`, with the place behind them.
pub open spec fn text_list_at(s: Seq<u8>, i: int, limit: int) -> Result<(int, Option<Seq<Seq<char>>>), Fault> {
    match der::tagged_at(s, i, limit, SEQUENCE) {
        Ok(Some(v)) => match texts_from(s, v.start, v.end, Seq::empty()) {
            Ok(list) => Ok((v.end, Some(list))),
            Err(f) => Err(f),
        },
        Ok(None) => Ok((i, None)),
        Err(f) => Err(f),
    }
}

/// Whether the last bits of an octet, as many as are unused, are zero.
pub open spec fn unused_are_zero(last: u8, unused: u8) -> bool {
    if unused == 0 {
        true
    } else if unused == 1 {
        last % 2 == 0
    } else if unused == 2 {
        last % 4 == 0
    } else if unused == 3 {
        last % 8 == 0
    } else if unused == 4 {
        last % 16 == 0
    } else if unused == 5 {
        last % 32 == 0
    } else if unused == 6 {
        last % 64 == 0
    } else {
        last % 128 == 0
    }
}

/// The content of the bit string that a value stands for: the number of unused bits, and the bits.
pub open spec fn bit_string_of(s: Seq<u8>, v: Value) -> Result<Seq<u8>, Fault> {
    let unused = s[v.start];
    if v.start >= der::readable(s, v.end) {
        der::fault(Reason::EndOfData, v.start)
    } else if unused > 7 {
        der::fault(Reason::ManyUnusedBits, v.start)
    } else if v.end == v.start + 1 && unused > 0 {
        der::fault(Reason::UnusedBitsOfNone, v.start)
    } else if v.end > s.len() {
        der::fault(Reason::EndOfData, v.start + 1)
    } else if v.end > v.start + 1 && !unused_are_zero(s[v.end - 1], unused) {
        der::fault(Reason::UnusedBitsSet, v.start)
    } else {
        Ok(der::content(s, v))
    }
}

/// The bit string that may stand at `i`, with the place behind it.
pub open spec fn bit_string_at(s: Seq<u8>, i: int, limit: int) -> Result<(int, Option<Seq<u8>>), Fault> {
    match der::tagged_at(s, i, limit, BIT_STRING) {
        Ok(Some(v)) => match bit_string_of(s, v) {
            Ok(octets) => Ok((v.end, Some(octets))),
            Err(f) => Err(f),
        },
        Ok(None) => Ok((i, None)),
        Err(f) => Err(f),
    }
}

/// The answer that a sequence stands for: a status, texts, which may be missing, and a bit string,
/// which may be missing.
pub open spec fn status_info_of(s: Seq<u8>, v: Value) -> Result<StatusModel, Fault> {
    match rfc5652::small_number_at(s, v.start, v.end) {
        Ok((at_texts, number)) => match status_of(number) {
            Some(status) => match text_list_at(s, at_texts, v.end) {
                Ok((at_fail, status_string)) => match bit_string_at(s, at_fail, v.end) {
                    Ok((end, fail_info)) => match der::ends_at(v, end) {
                        Ok(_) => Ok(StatusModel { status, status_string, fail_info }),
                        Err(f) => Err(f),
                    },
                    Err(f) => Err(f),
                },
                Err(f) => Err(f),
            },
            None => der::fault(Reason::UnknownStatus, v.start),
        },
        Err(f) => Err(f),
    }
}

/// The token that may stand at `i`, with the place behind it.
pub open spec fn token_at(s: Seq<u8>, i: int, limit: int) -> Result<(int, Option<ContentModel>), Fault> {
    match der::tagged_at(s, i, limit, SEQUENCE) {
        Ok(Some(v)) => match rfc5652::content_of(s, v) {
            Ok(token) => Ok((v.end, Some(token))),
            Err(f) => Err(f),
        },
        Ok(None) => Ok((i, None)),
        Err(f) => Err(f),
    }
}

/// The response that a sequence stands for: an answer and a token, which may be missing.
pub open spec fn response_of(s: Seq<u8>, v: Value) -> Result<ResponseModel, Fault> {
    match der::needed_at(s, v.start, v.end, SEQUENCE) {
        Ok(a) => match status_info_of(s, a) {
            Ok(status) => match token_at(s, a.end, v.end) {
                Ok((end, time_stamp_token)) => match der::ends_at(v, end) {
                    Ok(_) => Ok(ResponseModel { status, time_stamp_token }),
                    Err(f) => Err(f),
                },
                Err(f) => Err(f),
            },
            Err(f) => Err(f),
        },
        Err(f) => Err(f),
    }
}

/// The response at the beginning of the octets. What follows it is ignored.
pub open spec fn response_in(s: Seq<u8>) -> Result<ResponseModel, Fault> {
    match der::needed_at(s, 0, der::no_limit(s), SEQUENCE) {
        Ok(v) => response_of(s, v),
        Err(f) => Err(f),
    }
}

/// Reads the status that a number stands for.
fn read_status(number: u8) -> (res: Option<PkiStatus>)
    ensures
        res == status_of(number),
{
    match number {
        0 => Some(PkiStatus::Granted),
        1 => Some(PkiStatus::GrantedWithMods),
        2 => Some(PkiStatus::Rejection),
        3 => Some(PkiStatus::Waiting),
        4 => Some(PkiStatus::RevocationWarning),
        5 => Some(PkiStatus::RevocationNotification),
        _ => None,
    }
}


/// Reads the texts in the content from `i` up to the limit.
fn read_texts(data: &[u8], i: usize, limit: u128) -> (res: Result<Vec<String>, DecodeError>)
    requires
        i <= limit,
        i <= data@.len(),
        limit <= der::no_limit(data@),
    ensures
        match res {
            Ok(list) => {
                &&& texts_from(data@, i as int, limit as int, Seq::empty()) matches Ok(m)
                &&& m == text::texts(list@)
                &&& limit <= data@.len()
                &&& limit <= usize::MAX
            },
            Err(e) => texts_from(data@, i as int, limit as int, Seq::empty()) matches Err(f) && f == e@ && f.position
                <= data@.len(),
        },
{
    let mut list: Vec<String> = Vec::new();
    let mut at: usize = i;
    assert(text::texts(list@) =~= Seq::empty());
    loop
        invariant
            i <= at <= data@.len(),
            at <= limit <= der::no_limit(data@),
            texts_from(data@, i as int, limit as int, Seq::empty()) == texts_from(
                data@,
                at as int,
                limit as int,
                text::texts(list@),
            ),
        decreases data@.len() - at,
    {
        match read_tagged(data, at, limit, UTF8_STRING) {
            Ok(Some(v)) => {
                let octets = match v.octets(data) {
                    Ok(found) => found,
                    Err(e) => {
                        return Err(e);
                    },
                };
                match utf8_text(octets) {
                    Some(found) => {
                        let ghost seen = list@;
                        let ghost model = found@;
                        list.push(found);
                        at = v.end as usize;
                        assert(text::texts(list@) =~= text::texts(seen).push(model));
                    },
                    None => {
                        return failed(Reason::InvalidCharacter, v.start);
                    },
                }
            },
            Ok(None) => {
                if at as u128 != limit {
                    return failed(Reason::TrailingData, at);
                }
                return Ok(list);
            },
            Err(e) => {
                return Err(e);
            },
        }
    }
}

/// Reads the texts that may stand at `i`. Gives them with the place behind them.
fn read_text_list(data: &[u8], i: usize, limit: u128) -> (res: Result<(Option<Vec<String>>, usize), DecodeError>)
    requires
        i <= limit,
        i <= data@.len(),
        limit <= der::no_limit(data@),
    ensures
        match res {
            Ok((x, next)) => {
                &&& text_list_at(data@, i as int, limit as int) matches Ok((at, m))
                &&& m == optional_texts(x)
                &&& at == next
                &&& i <= next <= limit
                &&& next <= data@.len()
            },
            Err(e) => text_list_at(data@, i as int, limit as int) matches Err(f) && f == e@ && f.position <= data@.len(),
        },
{
    match read_tagged(data, i, limit, SEQUENCE) {
        Ok(Some(v)) => {
            let list = match read_texts(data, v.start, v.end) {
                Ok(found) => found,
                Err(e) => {
                    return Err(e);
                },
            };
            Ok((Some(list), v.end as usize))
        },
        Ok(None) => Ok((None, i)),
        Err(e) => Err(e),
    }
}

/// Whether the last bits of an octet, as many as are unused, are zero.
fn check_unused(last: u8, unused: u8) -> (res: bool)
    ensures
        res == unused_are_zero(last, unused),
{
    match unused {
        0 => true,
        1 => last % 2 == 0,
        2 => last % 4 == 0,
        3 => last % 8 == 0,
        4 => last % 16 == 0,
        5 => last % 32 == 0,
        6 => last % 64 == 0,
        _ => last % 128 == 0,
    }
}

/// Reads the content of the bit string that a value stands for.
fn read_bit_string_of(data: &[u8], v: ReadValue) -> (res: Result<Vec<u8>, DecodeError>)
    requires
        v.fits(data@),
    ensures
        match res {
            Ok(x) => bit_string_of(data@, v@) matches Ok(m) && m == x@ && v.end <= data@.len() && v.end <= usize::MAX,
            Err(e) => bit_string_of(data@, v@) matches Err(f) && f == e@ && f.position <= data@.len(),
        },
{
    let n: usize = data.len();
    if v.start as u128 == v.end || v.start == n {
        return failed(Reason::EndOfData, v.start);
    }
    let unused: u8 = data[v.start];
    if unused > 7 {
        return failed(Reason::ManyUnusedBits, v.start);
    }
    if v.end == v.start as u128 + 1 && unused > 0 {
        return failed(Reason::UnusedBitsOfNone, v.start);
    }
    if v.end > n as u128 {
        return failed(Reason::EndOfData, v.start + 1);
    }
    let end: usize = v.end as usize;
    if end > v.start + 1 && !check_unused(data[end - 1], unused) {
        return failed(Reason::UnusedBitsSet, v.start);
    }
    v.octets(data)
}

/// Reads the bit string that may stand at `i`. Gives it with the place behind it.
fn read_bit_string(data: &[u8], i: usize, limit: u128) -> (res: Result<(Option<Vec<u8>>, usize), DecodeError>)
    requires
        i <= limit,
        i <= data@.len(),
        limit <= der::no_limit(data@),
    ensures
        match res {
            Ok((x, next)) => {
                &&& bit_string_at(data@, i as int, limit as int) matches Ok((at, m))
                &&& m == der::optional_octets(x)
                &&& at == next
                &&& i <= next <= limit
                &&& next <= data@.len()
            },
            Err(e) => bit_string_at(data@, i as int, limit as int) matches Err(f) && f == e@ && f.position <= data@.len(),
        },
{
    match read_tagged(data, i, limit, BIT_STRING) {
        Ok(Some(v)) => {
            let octets = match read_bit_string_of(data, v) {
                Ok(found) => found,
                Err(e) => {
                    return Err(e);
                },
            };
            Ok((Some(octets), v.end as usize))
        },
        Ok(None) => Ok((None, i)),
        Err(e) => Err(e),
    }
}

/// Reads the answer that a sequence stands for.
fn read_status_info(data: &[u8], v: ReadValue) -> (res: Result<PkiStatusInfo, DecodeError>)
    requires
        v.fits(data@),
    ensures
        match res {
            Ok(x) => status_info_of(data@, v@) matches Ok(m) && m == x@ && v.end <= data@.len() && v.end <= usize::MAX,
            Err(e) => status_info_of(data@, v@) matches Err(f) && f == e@ && f.position <= data@.len(),
        },
{
    let (number, at_texts) = match read_small_number(data, v.start, v.end) {
        Ok(found) => found,
        Err(e) => {
            return Err(e);
        },
    };
    let status: PkiStatus = match read_status(number) {
        Some(status) => status,
        None => {
            return failed(Reason::UnknownStatus, v.start);
        },
    };
    let (status_string, at_fail) = match read_text_list(data, at_texts, v.end) {
        Ok(found) => found,
        Err(e) => {
            return Err(e);
        },
    };
    let (fail_info, end) = match read_bit_string(data, at_fail, v.end) {
        Ok(found) => found,
        Err(e) => {
            return Err(e);
        },
    };
    if let Err(e) = v.check_end(end) {
        return Err(e);
    }
    Ok(PkiStatusInfo { status, status_string, fail_info })
}

/// The token that may be there.
pub open spec fn optional_token(token: Option<ContentInfo>) -> Option<ContentModel> {
    match token {
        Some(token) => Some(token@),
        None => None,
    }
}

/// Reads the token that may stand at `i`. Gives it with the place behind it.
fn read_token(data: &[u8], i: usize, limit: u128) -> (res: Result<(Option<ContentInfo>, usize), DecodeError>)
    requires
        i <= limit,
        i <= data@.len(),
        limit <= der::no_limit(data@),
    ensures
        match res {
            Ok((x, next)) => {
                &&& token_at(data@, i as int, limit as int) matches Ok((at, m))
                &&& m == optional_token(x)
                &&& at == next
                &&& i <= next <= limit
                &&& next <= data@.len()
            },
            Err(e) => token_at(data@, i as int, limit as int) matches Err(f) && f == e@ && f.position <= data@.len(),
        },
{
    match read_tagged(data, i, limit, SEQUENCE) {
        Ok(Some(v)) => {
            let token = match read_content_info(data, v) {
                Ok(found) => found,
                Err(e) => {
                    return Err(e);
                },
            };
            Ok((Some(token), v.end as usize))
        },
        Ok(None) => Ok((None, i)),
        Err(e) => Err(e),
    }
}

impl TimeStampResp {
    /// Reads the response at the beginning of the octets. What follows it is ignored.
    pub fn decode(data: &[u8]) -> (res: Result<TimeStampResp, DecodeError>)
        ensures
            match res {
                Ok(x) => response_in(data@) matches Ok(m) && m == x@,
                Err(e) => response_in(data@) matches Err(f) && f == e@ && f.position <= data@.len(),
            },
    {
        let v = match read_needed(data, 0, unlimited(data), SEQUENCE) {
            Ok(found) => found,
            Err(e) => {
                return Err(e);
            },
        };
        let a = match read_needed(data, v.start, v.end, SEQUENCE) {
            Ok(found) => found,
            Err(e) => {
                return Err(e);
            },
        };
        let status = match read_status_info(data, a) {
            Ok(found) => found,
            Err(e) => {
                return Err(e);
            },
        };
        let (time_stamp_token, end) = match read_token(data, a.end as usize, v.end) {
            Ok(found) => found,
            Err(e) => {
                return Err(e);
            },
        };
        if let Err(e) = v.check_end(end) {
            return Err(e);
        }
        Ok(TimeStampResp { status, time_stamp_token })
    }
}

/// The digest of a message, with the algorithm that it was made with.
#[derive(Clone, Debug)]
pub struct MessageImprint {
    pub hash_algorithm: AlgorithmIdentifier,
    pub hashed_message: Vec<u8>,
}

/// What a [`MessageImprint`] holds.
pub struct ImprintModel {
    pub hash_algorithm: AlgorithmModel,
    pub hashed_message: Seq<u8>,
}

impl View for MessageImprint {
    type V = ImprintModel;

    open spec fn view(&self) -> ImprintModel {
        ImprintModel { hash_algorithm: self.hash_algorithm@, hashed_message: self.hashed_message@ }
    }
}

/// The imprint at `i`, with the place behind it: a sequence of an algorithm and an octet string.
pub open spec fn imprint_at(s: Seq<u8>, i: int, limit: int) -> Result<(int, ImprintModel), Fault> {
    match der::needed_at(s, i, limit, SEQUENCE) {
        Ok(v) => match rfc5652::algorithm_at(s, v.start, v.end) {
            Ok((j, hash_algorithm)) => match der::octet_string_at(s, j, v.end, v.start) {
                Ok((end, hashed_message)) => match der::ends_at(v, end) {
                    Ok(_) => Ok((v.end, ImprintModel { hash_algorithm, hashed_message })),
                    Err(f) => Err(f),
                },
                Err(f) => Err(f),
            },
            Err(f) => Err(f),
        },
        Err(f) => Err(f),
    }
}

/// Reads the imprint at `i`. Gives it with the place behind it.
fn read_imprint(data: &[u8], i: usize, limit: u128) -> (res: Result<(MessageImprint, usize), DecodeError>)
    requires
        i <= limit,
        i <= data@.len(),
        limit <= der::no_limit(data@),
    ensures
        match res {
            Ok((x, next)) => {
                &&& imprint_at(data@, i as int, limit as int) matches Ok((at, m))
                &&& m == x@
                &&& at == next
                &&& i < next <= limit
                &&& next <= data@.len()
            },
            Err(e) => imprint_at(data@, i as int, limit as int) matches Err(f) && f == e@ && f.position <= data@.len(),
        },
{
    let v = match read_needed(data, i, limit, SEQUENCE) {
        Ok(found) => found,
        Err(e) => {
            return Err(e);
        },
    };
    let (hash_algorithm, j) = match read_algorithm(data, v.start, v.end) {
        Ok(found) => found,
        Err(e) => {
            return Err(e);
        },
    };
    let (hashed_message, end) = match read_octet_string(data, j, v.end, v.start) {
        Ok(found) => found,
        Err(e) => {
            return Err(e);
        },
    };
    if let Err(e) = v.check_end(end) {
        return Err(e);
    }
    Ok((MessageImprint { hash_algorithm, hashed_message }, end))
}

/// The number that may be there.
pub open spec fn optional_number(number: Option<Integer>) -> Option<int> {
    match number {
        Some(number) => Some(number@),
        None => None,
    }
}

/// The number that a value stands for.
pub open spec fn number_of(s: Seq<u8>, v: Value) -> Result<int, Fault> {
    match der::octets_of(s, v) {
        Ok(octets) => if integer::is_integer(octets) {
            Ok(integer::integer_value(octets))
        } else {
            der::fault(Reason::InvalidInteger, v.end)
        },
        Err(f) => Err(f),
    }
}

/// The number at `i`, with the place behind it.
pub open spec fn number_at(s: Seq<u8>, i: int, limit: int) -> Result<(int, int), Fault> {
    match der::needed_at(s, i, limit, INTEGER) {
        Ok(v) => match number_of(s, v) {
            Ok(n) => Ok((v.end, n)),
            Err(f) => Err(f),
        },
        Err(f) => Err(f),
    }
}

/// The number that may stand at `i` under a tag, with the place behind it.
pub open spec fn optional_number_at(s: Seq<u8>, i: int, limit: int, tag: u8) -> Result<(int, Option<int>), Fault> {
    match der::tagged_at(s, i, limit, tag) {
        Ok(Some(v)) => match number_of(s, v) {
            Ok(n) => Ok((v.end, Some(n))),
            Err(f) => Err(f),
        },
        Ok(None) => Ok((i, None)),
        Err(f) => Err(f),
    }
}

/// Reads the number that a value stands for.
fn read_number_of(data: &[u8], v: ReadValue) -> (res: Result<Integer, DecodeError>)
    requires
        v.fits(data@),
    ensures
        match res {
            Ok(x) => number_of(data@, v@) matches Ok(m) && m == x@ && v.end <= data@.len() && v.end <= usize::MAX,
            Err(e) => number_of(data@, v@) matches Err(f) && f == e@ && f.position <= data@.len(),
        },
{
    let octets = match v.octets(data) {
        Ok(found) => found,
        Err(e) => {
            return Err(e);
        },
    };
    match Integer::from_octets(octets) {
        Some(number) => Ok(number),
        None => failed(Reason::InvalidInteger, v.end as usize),
    }
}

/// Reads the number at `i`. Gives it with the place behind it.
fn read_number(data: &[u8], i: usize, limit: u128) -> (res: Result<(Integer, usize), DecodeError>)
    requires
        i <= limit,
        i <= data@.len(),
        limit <= der::no_limit(data@),
    ensures
        match res {
            Ok((x, next)) => {
                &&& number_at(data@, i as int, limit as int) matches Ok((at, m))
                &&& m == x@
                &&& at == next
                &&& i < next <= limit
                &&& next <= data@.len()
            },
            Err(e) => number_at(data@, i as int, limit as int) matches Err(f) && f == e@ && f.position <= data@.len(),
        },
{
    let v = match read_needed(data, i, limit, INTEGER) {
        Ok(found) => found,
        Err(e) => {
            return Err(e);
        },
    };
    let number = match read_number_of(data, v) {
        Ok(found) => found,
        Err(e) => {
            return Err(e);
        },
    };
    Ok((number, v.end as usize))
}

/// Reads the number that may stand at `i` under a tag. Gives it with the place behind it.
fn read_optional_number(data: &[u8], i: usize, limit: u128, tag: u8) -> (res: Result<(Option<Integer>, usize), DecodeError>)
    requires
        i <= limit,
        i <= data@.len(),
        limit <= der::no_limit(data@),
    ensures
        match res {
            Ok((x, next)) => {
                &&& optional_number_at(data@, i as int, limit as int, tag) matches Ok((at, m))
                &&& m == optional_number(x)
                &&& at == next
                &&& i <= next <= limit
                &&& next <= data@.len()
            },
            Err(e) => optional_number_at(data@, i as int, limit as int, tag) matches Err(f) && f == e@ && f.position
                <= data@.len(),
        },
{
    match read_tagged(data, i, limit, tag) {
        Ok(Some(v)) => {
            let number = match read_number_of(data, v) {
                Ok(found) => found,
                Err(e) => {
                    return Err(e);
                },
            };
            Ok((Some(number), v.end as usize))
        },
        Ok(None) => Ok((None, i)),
        Err(e) => Err(e),
    }
}

/// The truth value that a value stands for.
pub open spec fn truth_of(s: Seq<u8>, v: Value) -> Result<bool, Fault> {
    if v.start >= der::readable(s, v.end) {
        der::fault(Reason::EndOfData, v.start)
    } else if s[v.start] != 0x00 && s[v.start] != 0xff {
        der::fault(Reason::InvalidBoolean, v.start + 1)
    } else if v.end != v.start + 1 {
        der::fault(Reason::TrailingData, v.start + 1)
    } else {
        Ok(s[v.start] == 0xff)
    }
}

/// The truth value that may stand at `i`, with the place behind it.
pub open spec fn truth_at(s: Seq<u8>, i: int, limit: int) -> Result<(int, Option<bool>), Fault> {
    match der::tagged_at(s, i, limit, BOOLEAN) {
        Ok(Some(v)) => match truth_of(s, v) {
            Ok(truth) => Ok((v.end, Some(truth))),
            Err(f) => Err(f),
        },
        Ok(None) => Ok((i, None)),
        Err(f) => Err(f),
    }
}

/// Reads the truth value that may stand at `i`. Gives it with the place behind it.
fn read_truth(data: &[u8], i: usize, limit: u128) -> (res: Result<(Option<bool>, usize), DecodeError>)
    requires
        i <= limit,
        i <= data@.len(),
        limit <= der::no_limit(data@),
    ensures
        match res {
            Ok((x, next)) => {
                &&& truth_at(data@, i as int, limit as int) matches Ok((at, m))
                &&& m == x
                &&& at == next
                &&& i <= next <= limit
                &&& next <= data@.len()
            },
            Err(e) => truth_at(data@, i as int, limit as int) matches Err(f) && f == e@ && f.position <= data@.len(),
        },
{
    match read_tagged(data, i, limit, BOOLEAN) {
        Ok(Some(v)) => {
            if v.start as u128 == v.end || v.start == data.len() {
                return failed(Reason::EndOfData, v.start);
            }
            let octet: u8 = data[v.start];
            if octet != 0x00 && octet != 0xff {
                return failed(Reason::InvalidBoolean, v.start + 1);
            }
            if v.end != v.start as u128 + 1 {
                return failed(Reason::TrailingData, v.start + 1);
            }
            Ok((Some(octet == 0xff), v.start + 1))
        },
        Ok(None) => Ok((None, i)),
        Err(e) => Err(e),
    }
}

/// How exact a time is: in seconds, thousandths and millionths.
#[derive(Debug)]
pub struct Accuracy {
    pub seconds: Option<Integer>,
    pub millis: Option<Integer>,
    pub micros: Option<Integer>,
}

/// What an [`Accuracy`] holds.
pub struct AccuracyModel {
    pub seconds: Option<int>,
    pub millis: Option<int>,
    pub micros: Option<int>,
}

impl View for Accuracy {
    type V = AccuracyModel;

    open spec fn view(&self) -> AccuracyModel {
        AccuracyModel {
            seconds: optional_number(self.seconds),
            millis: optional_number(self.millis),
            micros: optional_number(self.micros),
        }
    }
}

/// The accuracy that a sequence stands for: three numbers, the second tagged `[0]` and the third
/// tagged `[1]`, each of which may be missing.
pub open spec fn accuracy_of(s: Seq<u8>, v: Value) -> Result<AccuracyModel, Fault> {
    match optional_number_at(s, v.start, v.end, INTEGER) {
        Ok((at_millis, seconds)) => match optional_number_at(s, at_millis, v.end, PRIMITIVE_0) {
            Ok((at_micros, millis)) => match optional_number_at(s, at_micros, v.end, PRIMITIVE_1) {
                Ok((end, micros)) => match der::ends_at(v, end) {
                    Ok(_) => Ok(AccuracyModel { seconds, millis, micros }),
                    Err(f) => Err(f),
                },
                Err(f) => Err(f),
            },
            Err(f) => Err(f),
        },
        Err(f) => Err(f),
    }
}

/// The accuracy that may stand at `i`, with the place behind it.
pub open spec fn accuracy_at(s: Seq<u8>, i: int, limit: int) -> Result<(int, Option<AccuracyModel>), Fault> {
    match der::tagged_at(s, i, limit, SEQUENCE) {
        Ok(Some(v)) => match accuracy_of(s, v) {
            Ok(accuracy) => Ok((v.end, Some(accuracy))),
            Err(f) => Err(f),
        },
        Ok(None) => Ok((i, None)),
        Err(f) => Err(f),
    }
}

/// What an accuracy that may be there holds.
pub open spec fn optional_accuracy(accuracy: Option<Accuracy>) -> Option<AccuracyModel> {
    match accuracy {
        Some(accuracy) => Some(accuracy@),
        None => None,
    }
}

/// Reads the accuracy that a sequence stands for.
fn read_accuracy_of(data: &[u8], v: ReadValue) -> (res: Result<Accuracy, DecodeError>)
    requires
        v.fits(data@),
    ensures
        match res {
            Ok(x) => accuracy_of(data@, v@) matches Ok(m) && m == x@ && v.end <= data@.len() && v.end <= usize::MAX,
            Err(e) => accuracy_of(data@, v@) matches Err(f) && f == e@ && f.position <= data@.len(),
        },
{
    let (seconds, at_millis) = match read_optional_number(data, v.start, v.end, INTEGER) {
        Ok(found) => found,
        Err(e) => {
            return Err(e);
        },
    };
    let (millis, at_micros) = match read_optional_number(data, at_millis, v.end, PRIMITIVE_0) {
        Ok(found) => found,
        Err(e) => {
            return Err(e);
        },
    };
    let (micros, end) = match read_optional_number(data, at_micros, v.end, PRIMITIVE_1) {
        Ok(found) => found,
        Err(e) => {
            return Err(e);
        },
    };
    if let Err(e) = v.check_end(end) {
        return Err(e);
    }
    Ok(Accuracy { seconds, millis, micros })
}

/// Reads the accuracy that may stand at `i`. Gives it with the place behind it.
fn read_accuracy(data: &[u8], i: usize, limit: u128) -> (res: Result<(Option<Accuracy>, usize), DecodeError>)
    requires
        i <= limit,
        i <= data@.len(),
        limit <= der::no_limit(data@),
    ensures
        match res {
            Ok((x, next)) => {
                &&& accuracy_at(data@, i as int, limit as int) matches Ok((at, m))
                &&& m == optional_accuracy(x)
                &&& at == next
                &&& i <= next <= limit
                &&& next <= data@.len()
            },
            Err(e) => accuracy_at(data@, i as int, limit as int) matches Err(f) && f == e@ && f.position <= data@.len(),
        },
{
    match read_tagged(data, i, limit, SEQUENCE) {
        Ok(Some(v)) => {
            let accuracy = match read_accuracy_of(data, v) {
                Ok(found) => found,
                Err(e) => {
                    return Err(e);
                },
            };
            Ok((Some(accuracy), v.end as usize))
        },
        Ok(None) => Ok((None, i)),
        Err(e) => Err(e),
    }
}

/// Whether an octet is a decimal digit.
pub open spec fn is_digit(octet: u8) -> bool {
    0x30 <= octet <= 0x39
}

/// The number that the two digits at `i` stand for.
pub open spec fn two_digits(octets: Seq<u8>, i: int) -> int {
    (octets[i] - 0x30) * 10 + (octets[i + 1] - 0x30)
}

/// The number of days of a month.
pub open spec fn days_of_month(year: int, month: int) -> int {
    if month == 2 {
        if year % 400 == 0 || year % 4 == 0 && year % 100 != 0 {
            29
        } else {
            28
        }
    } else if month == 4 || month == 6 || month == 9 || month == 11 {
        30
    } else {
        31
    }
}

/// Whether octets are a point in time: year, month, day, hour, minute and second in digits, which
/// a point and more digits may follow, and a `Z`.
pub open spec fn is_time(octets: Seq<u8>) -> bool {
    let year = two_digits(octets, 0) * 100 + two_digits(octets, 2);
    let month = two_digits(octets, 4);
    let day = two_digits(octets, 6);
    &&& octets.len() >= 15
    &&& forall|k: int| 0 <= k < 14 ==> is_digit(#[trigger] octets[k])
    &&& 1 <= month <= 12
    &&& 1 <= day <= days_of_month(year, month)
    &&& two_digits(octets, 8) < 24
    &&& two_digits(octets, 10) < 60
    &&& two_digits(octets, 12) < 60
    &&& octets.last() == 0x5a
    &&& octets.len() > 15 ==> octets.len() > 16 && octets[14] == 0x2e
    &&& forall|k: int| 15 <= k < octets.len() - 1 ==> is_digit(#[trigger] octets[k])
}

/// Whether the octets from `from` up to `to` are digits.
fn are_digits(octets: &[u8], from: usize, to: usize) -> (res: bool)
    requires
        from <= to <= octets@.len(),
    ensures
        res == (forall|k: int| from <= k < to ==> is_digit(#[trigger] octets@[k])),
{
    let mut i: usize = from;
    while i < to
        invariant
            from <= i <= to <= octets@.len(),
            forall|k: int| from <= k < i ==> is_digit(#[trigger] octets@[k]),
        decreases to - i,
    {
        if octets[i] < 0x30 || octets[i] > 0x39 {
            assert(!is_digit(octets@[i as int]));
            return false;
        }
        i += 1;
    }
    true
}

/// Reads the number that two digits stand for.
fn read_two_digits(octets: &[u8], i: usize) -> (res: u32)
    requires
        i + 1 < octets@.len(),
        i + 1 < usize::MAX,
        is_digit(octets@[i as int]),
        is_digit(octets@[i + 1]),
    ensures
        res == two_digits(octets@, i as int),
        res < 100,
{
    (octets[i] - 0x30) as u32 * 10 + (octets[i + 1] - 0x30) as u32
}

/// Whether octets are a point in time.
fn check_time(octets: &[u8]) -> (res: bool)
    ensures
        res == is_time(octets@),
{
    let len: usize = octets.len();
    if len < 15 || !are_digits(octets, 0, 14) {
        return false;
    }
    let year: u32 = read_two_digits(octets, 0) * 100 + read_two_digits(octets, 2);
    let month: u32 = read_two_digits(octets, 4);
    let day: u32 = read_two_digits(octets, 6);
    let days: u32 = if month == 2 {
        if year % 400 == 0 || year % 4 == 0 && year % 100 != 0 {
            29
        } else {
            28
        }
    } else if month == 4 || month == 6 || month == 9 || month == 11 {
        30
    } else {
        31
    };
    if month < 1 || month > 12 || day < 1 || day > days {
        return false;
    }
    if read_two_digits(octets, 8) >= 24 || read_two_digits(octets, 10) >= 60 || read_two_digits(octets, 12) >= 60 {
        return false;
    }
    if octets[len - 1] != 0x5a {
        return false;
    }
    if len == 15 {
        return true;
    }
    len > 16 && octets[14] == 0x2e && are_digits(octets, 15, len - 1)
}

/// The information that a time-stamp token carries.
#[derive(Debug)]
pub struct TstInfo {
    pub version: Integer,
    pub policy: Vec<u8>,
    pub message_imprint: MessageImprint,
    pub serial_number: Integer,
    pub gen_time: Vec<u8>,
    pub accuracy: Option<Accuracy>,
    pub ordering: Option<bool>,
    pub nonce: Option<Integer>,
    pub tsa: Option<Vec<u8>>,
    pub extensions: Option<Vec<u8>>,
}

/// What a [`TstInfo`] holds.
pub struct TstModel {
    pub version: int,
    pub policy: Seq<u8>,
    pub message_imprint: ImprintModel,
    pub serial_number: int,
    pub gen_time: Seq<u8>,
    pub accuracy: Option<AccuracyModel>,
    pub ordering: Option<bool>,
    pub nonce: Option<int>,
    pub tsa: Option<Seq<u8>>,
    pub extensions: Option<Seq<u8>>,
}

impl View for TstInfo {
    type V = TstModel;

    open spec fn view(&self) -> TstModel {
        TstModel {
            version: self.version@,
            policy: self.policy@,
            message_imprint: self.message_imprint@,
            serial_number: self.serial_number@,
            gen_time: self.gen_time@,
            accuracy: optional_accuracy(self.accuracy),
            ordering: self.ordering,
            nonce: optional_number(self.nonce),
            tsa: der::optional_octets(self.tsa),
            extensions: der::optional_octets(self.extensions),
        }
    }
}

/// The point in time at `i`, with the place behind it.
pub open spec fn time_at(s: Seq<u8>, i: int, limit: int) -> Result<(int, Seq<u8>), Fault> {
    match der::needed_at(s, i, limit, GENERALIZED_TIME) {
        Ok(v) => match der::octets_of(s, v) {
            Ok(octets) => if is_time(octets) {
                Ok((v.end, octets))
            } else {
                der::fault(Reason::InvalidTime, v.start)
            },
            Err(f) => Err(f),
        },
        Err(f) => Err(f),
    }
}

/// What stands in a token's information from `i` on, up to the end of the sequence: an accuracy, a
/// truth value, a number, and values tagged `[0]` and `[1]`, each of which may be missing. `rest`
/// has the other fields.
pub open spec fn tst_rest_at(s: Seq<u8>, i: int, v: Value, rest: TstModel) -> Result<TstModel, Fault> {
    match accuracy_at(s, i, v.end) {
        Ok((at_ordering, accuracy)) => match truth_at(s, at_ordering, v.end) {
            Ok((at_nonce, ordering)) => match optional_number_at(s, at_nonce, v.end, INTEGER) {
                Ok((at_tsa, nonce)) => match der::captured_at(s, at_tsa, v.end, CONSTRUCTED_0) {
                    Ok((at_extensions, tsa)) => match der::captured_at(s, at_extensions, v.end, CONSTRUCTED_1) {
                        Ok((end, extensions)) => match der::ends_at(v, end) {
                            Ok(_) => Ok(TstModel { accuracy, ordering, nonce, tsa, extensions, ..rest }),
                            Err(f) => Err(f),
                        },
                        Err(f) => Err(f),
                    },
                    Err(f) => Err(f),
                },
                Err(f) => Err(f),
            },
            Err(f) => Err(f),
        },
        Err(f) => Err(f),
    }
}

/// The information that a sequence stands for: a version, a policy, an imprint, a serial number, a
/// point in time, and what may follow.
pub open spec fn tst_info_of(s: Seq<u8>, v: Value) -> Result<TstModel, Fault> {
    match number_at(s, v.start, v.end) {
        Ok((at_policy, version)) => match der::identifier_at(s, at_policy, v.end) {
            Ok((at_imprint, policy)) => match imprint_at(s, at_imprint, v.end) {
                Ok((at_serial, message_imprint)) => match number_at(s, at_serial, v.end) {
                    Ok((at_time, serial_number)) => match time_at(s, at_time, v.end) {
                        Ok((at_rest, gen_time)) => tst_rest_at(
                            s,
                            at_rest,
                            v,
                            TstModel {
                                version,
                                policy,
                                message_imprint,
                                serial_number,
                                gen_time,
                                accuracy: None,
                                ordering: None,
                                nonce: None,
                                tsa: None,
                                extensions: None,
                            },
                        ),
                        Err(f) => Err(f),
                    },
                    Err(f) => Err(f),
                },
                Err(f) => Err(f),
            },
            Err(f) => Err(f),
        },
        Err(f) => Err(f),
    }
}

/// The information at the beginning of the octets. What follows it is ignored.
pub open spec fn tst_info_in(s: Seq<u8>) -> Result<TstModel, Fault> {
    match der::needed_at(s, 0, der::no_limit(s), SEQUENCE) {
        Ok(v) => tst_info_of(s, v),
        Err(f) => Err(f),
    }
}

/// Reads the point in time at `i`. Gives it with the place behind it.
fn read_time(data: &[u8], i: usize, limit: u128) -> (res: Result<(Vec<u8>, usize), DecodeError>)
    requires
        i <= limit,
        i <= data@.len(),
        limit <= der::no_limit(data@),
    ensures
        match res {
            Ok((x, next)) => {
                &&& time_at(data@, i as int, limit as int) matches Ok((at, m))
                &&& m == x@
                &&& at == next
                &&& i < next <= limit
                &&& next <= data@.len()
            },
            Err(e) => time_at(data@, i as int, limit as int) matches Err(f) && f == e@ && f.position <= data@.len(),
        },
{
    let v = match read_needed(data, i, limit, GENERALIZED_TIME) {
        Ok(found) => found,
        Err(e) => {
            return Err(e);
        },
    };
    let octets = match v.octets(data) {
        Ok(found) => found,
        Err(e) => {
            return Err(e);
        },
    };
    if !check_time(octets.as_slice()) {
        return failed(Reason::InvalidTime, v.start);
    }
    Ok((octets, v.end as usize))
}

impl TstInfo {
    /// Reads the information at the beginning of the octets. What follows it is ignored.
    pub fn decode(data: &[u8]) -> (res: Result<TstInfo, DecodeError>)
        ensures
            match res {
                Ok(x) => tst_info_in(data@) matches Ok(m) && m == x@,
                Err(e) => tst_info_in(data@) matches Err(f) && f == e@ && f.position <= data@.len(),
            },
    {
        let v = match read_needed(data, 0, unlimited(data), SEQUENCE) {
            Ok(found) => found,
            Err(e) => {
                return Err(e);
            },
        };
        let (version, at_policy) = match read_number(data, v.start, v.end) {
            Ok(found) => found,
            Err(e) => {
                return Err(e);
            },
        };
        let (policy, at_imprint) = match read_identifier(data, at_policy, v.end) {
            Ok(found) => found,
            Err(e) => {
                return Err(e);
            },
        };
        let (message_imprint, at_serial) = match read_imprint(data, at_imprint, v.end) {
            Ok(found) => found,
            Err(e) => {
                return Err(e);
            },
        };
        let (serial_number, at_time) = match read_number(data, at_serial, v.end) {
            Ok(found) => found,
            Err(e) => {
                return Err(e);
            },
        };
        let (gen_time, at_rest) = match read_time(data, at_time, v.end) {
            Ok(found) => found,
            Err(e) => {
                return Err(e);
            },
        };
        let (accuracy, at_ordering) = match read_accuracy(data, at_rest, v.end) {
            Ok(found) => found,
            Err(e) => {
                return Err(e);
            },
        };
        let (ordering, at_nonce) = match read_truth(data, at_ordering, v.end) {
            Ok(found) => found,
            Err(e) => {
                return Err(e);
            },
        };
        let (nonce, at_tsa) = match read_optional_number(data, at_nonce, v.end, INTEGER) {
            Ok(found) => found,
            Err(e) => {
                return Err(e);
            },
        };
        let (tsa, at_extensions) = match read_captured(data, at_tsa, v.end, CONSTRUCTED_0) {
            Ok(found) => found,
            Err(e) => {
                return Err(e);
            },
        };
        let (extensions, end) = match read_captured(data, at_extensions, v.end, CONSTRUCTED_1) {
            Ok(found) => found,
            Err(e) => {
                return Err(e);
            },
        };
        if let Err(e) = v.check_end(end) {
            return Err(e);
        }
        Ok(
            TstInfo {
                version,
                policy,
                message_imprint,
                serial_number,
                gen_time,
                accuracy,
                ordering,
                nonce,
                tsa,
                extensions,
            },
        )
    }
}

/// A request for a time stamp.
#[derive(Debug)]
pub struct TimeStampReq {
    pub version: Integer,
    pub message_imprint: MessageImprint,
    pub req_policy: Option<Vec<u8>>,
    pub nonce: Option<Integer>,
    pub cert_req: Option<bool>,
    pub extensions: Option<Vec<u8>>,
}

/// What a [`TimeStampReq`] holds.
pub struct RequestModel {
    pub version: int,
    pub message_imprint: ImprintModel,
    pub req_policy: Option<Seq<u8>>,
    pub nonce: Option<int>,
    pub cert_req: Option<bool>,
    pub extensions: Option<Seq<u8>>,
}

impl View for TimeStampReq {
    type V = RequestModel;

    open spec fn view(&self) -> RequestModel {
        RequestModel {
            version: self.version@,
            message_imprint: self.message_imprint@,
            req_policy: der::optional_octets(self.req_policy),
            nonce: optional_number(self.nonce),
            cert_req: self.cert_req,
            extensions: der::optional_octets(self.extensions),
        }
    }
}

/// The parameters of an algorithm as they are written: a null value where there are none.
pub open spec fn parameter_octets(parameters: Option<Seq<u8>>) -> Seq<u8> {
    match parameters {
        Some(parameters) => parameters,
        None => der::written(NULL, Seq::empty()),
    }
}

/// The octets of an algorithm.
pub open spec fn algorithm_octets(a: AlgorithmModel) -> Seq<u8> {
    der::written(SEQUENCE, der::written(OBJECT_IDENTIFIER, a.algorithm) + parameter_octets(a.parameters))
}

/// The octets of an imprint.
pub open spec fn imprint_octets(m: ImprintModel) -> Seq<u8> {
    der::written(SEQUENCE, algorithm_octets(m.hash_algorithm) + der::written(OCTET_STRING, m.hashed_message))
}

/// The octets of a value, or none where it is missing.
pub open spec fn optional_written(tag: u8, octets: Option<Seq<u8>>) -> Seq<u8> {
    match octets {
        Some(octets) => der::written(tag, octets),
        None => Seq::empty(),
    }
}

/// The content octets of a number that may be there.
pub open spec fn number_octets(number: Option<int>) -> Option<Seq<u8>> {
    match number {
        Some(number) => Some(integer::integer_octets(number)),
        None => None,
    }
}

/// The content octets of a truth value that may be there.
pub open spec fn truth_octets(truth: Option<bool>) -> Option<Seq<u8>> {
    match truth {
        Some(truth) => Some(
            seq![
                if truth {
                    0xffu8
                } else {
                    0x00u8
                },
            ],
        ),
        None => None,
    }
}

/// The content octets of a request.
pub open spec fn request_content(r: RequestModel) -> Seq<u8> {
    der::written(INTEGER, integer::integer_octets(r.version)) + imprint_octets(r.message_imprint) + optional_written(
        OBJECT_IDENTIFIER,
        r.req_policy,
    ) + optional_written(INTEGER, number_octets(r.nonce)) + optional_written(BOOLEAN, truth_octets(r.cert_req))
        + optional_written(CONSTRUCTED_0, r.extensions)
}

/// The octets of a request.
pub open spec fn request_octets(r: RequestModel) -> Seq<u8> {
    der::written(SEQUENCE, request_content(r))
}

/// Appends the octets of a value, if it is there.
fn write_optional(out: &mut Vec<u8>, tag: u8, octets: &Option<Vec<u8>>)
    requires
        der::optional_octets(*octets) matches Some(o) ==> der::is_writable(o),
    ensures
        final(out)@ == old(out)@ + optional_written(tag, der::optional_octets(*octets)),
{
    match octets {
        Some(octets) => {
            write_value(out, tag, octets.as_slice());
        },
        None => {},
    }
    assert(out@ =~= old(out)@ + optional_written(tag, der::optional_octets(*octets)));
}

/// Appends the octets of an imprint.
fn write_imprint(out: &mut Vec<u8>, imprint: &MessageImprint)
    requires
        der::is_writable(imprint_octets(imprint@)),
    ensures
        final(out)@ == old(out)@ + imprint_octets(imprint@),
{
    let ghost a = imprint.hash_algorithm@;
    let mut algorithm: Vec<u8> = Vec::new();
    write_value(&mut algorithm, OBJECT_IDENTIFIER, imprint.hash_algorithm.algorithm.as_slice());
    match &imprint.hash_algorithm.parameters {
        Some(parameters) => {
            write_octets(&mut algorithm, parameters.as_slice());
        },
        None => {
            let empty: Vec<u8> = Vec::new();
            assert(empty@ =~= Seq::<u8>::empty());
            write_value(&mut algorithm, NULL, empty.as_slice());
        },
    }
    assert(algorithm@ =~= der::written(OBJECT_IDENTIFIER, a.algorithm) + parameter_octets(a.parameters));
    let mut content: Vec<u8> = Vec::new();
    write_value(&mut content, SEQUENCE, algorithm.as_slice());
    write_value(&mut content, OCTET_STRING, imprint.hashed_message.as_slice());
    assert(content@ =~= algorithm_octets(a) + der::written(OCTET_STRING, imprint.hashed_message@));
    write_value(out, SEQUENCE, content.as_slice());
}

/// Appends the octets of a number, if it is there.
fn write_nonce(out: &mut Vec<u8>, number: &Option<Integer>)
    requires
        number_octets(optional_number(*number)) matches Some(o) ==> der::is_writable(o),
    ensures
        final(out)@ == old(out)@ + optional_written(INTEGER, number_octets(optional_number(*number))),
{
    match number {
        Some(number) => {
            write_value(out, INTEGER, number.as_slice());
        },
        None => {
            assert(out@ =~= old(out)@ + Seq::empty());
        },
    }
}

/// Appends the octets of a truth value, if it is there.
fn write_truth(out: &mut Vec<u8>, truth: Option<bool>)
    ensures
        final(out)@ == old(out)@ + optional_written(BOOLEAN, truth_octets(truth)),
{
    match truth {
        Some(is_true) => {
            let mut octets: Vec<u8> = Vec::new();
            octets.push(
                if is_true {
                    0xff
                } else {
                    0x00
                },
            );
            assert(octets@ =~= truth_octets(truth)->0);
            write_value(out, BOOLEAN, octets.as_slice());
        },
        None => {
            assert(out@ =~= old(out)@ + Seq::empty());
        },
    }
}

impl TimeStampReq {
    /// The octets of the request.
    pub fn encode(&self) -> (res: Vec<u8>)
        requires
            der::is_writable(request_content(self@)),
        ensures
            res@ == request_octets(self@),
    {
        let mut content: Vec<u8> = Vec::new();
        write_value(&mut content, INTEGER, self.version.as_slice());
        assert(content@ =~= der::written(INTEGER, integer::integer_octets(self@.version)));
        write_imprint(&mut content, &self.message_imprint);
        write_optional(&mut content, OBJECT_IDENTIFIER, &self.req_policy);
        write_nonce(&mut content, &self.nonce);
        write_truth(&mut content, self.cert_req);
        write_optional(&mut content, CONSTRUCTED_0, &self.extensions);
        let mut res: Vec<u8> = Vec::new();
        write_value(&mut res, SEQUENCE, content.as_slice());
        assert(res@ =~= request_octets(self@));
        res
    }
}

/// The object identifier that may stand at `i`, with the place behind it.
pub open spec fn policy_at(s: Seq<u8>, i: int, limit: int) -> Result<(int, Option<Seq<u8>>), Fault> {
    match der::tagged_at(s, i, limit, OBJECT_IDENTIFIER) {
        Ok(Some(v)) => match der::identifier_of(s, v) {
            Ok(octets) => Ok((v.end, Some(octets))),
            Err(f) => Err(f),
        },
        Ok(None) => Ok((i, None)),
        Err(f) => Err(f),
    }
}

/// What stands in a request from `i` on, up to the end of the sequence: a policy, a nonce, a truth
/// value and values tagged `[0]`, each of which may be missing. `rest` has the other fields.
pub open spec fn request_rest_at(s: Seq<u8>, i: int, v: Value, rest: RequestModel) -> Result<RequestModel, Fault> {
    match policy_at(s, i, v.end) {
        Ok((at_nonce, req_policy)) => match optional_number_at(s, at_nonce, v.end, INTEGER) {
            Ok((at_cert, nonce)) => match truth_at(s, at_cert, v.end) {
                Ok((at_extensions, cert_req)) => match der::captured_at(s, at_extensions, v.end, CONSTRUCTED_0) {
                    Ok((end, extensions)) => match der::ends_at(v, end) {
                        Ok(_) => Ok(RequestModel { req_policy, nonce, cert_req, extensions, ..rest }),
                        Err(f) => Err(f),
                    },
                    Err(f) => Err(f),
                },
                Err(f) => Err(f),
            },
            Err(f) => Err(f),
        },
        Err(f) => Err(f),
    }
}

/// The request that a sequence stands for: a version, an imprint, and what may follow.
pub open spec fn request_of(s: Seq<u8>, v: Value) -> Result<RequestModel, Fault> {
    match number_at(s, v.start, v.end) {
        Ok((at_imprint, version)) => match imprint_at(s, at_imprint, v.end) {
            Ok((at_rest, message_imprint)) => request_rest_at(
                s,
                at_rest,
                v,
                RequestModel {
                    version,
                    message_imprint,
                    req_policy: None,
                    nonce: None,
                    cert_req: None,
                    extensions: None,
                },
            ),
            Err(f) => Err(f),
        },
        Err(f) => Err(f),
    }
}

/// The request at the beginning of the octets. What follows it is ignored.
pub open spec fn request_in(s: Seq<u8>) -> Result<RequestModel, Fault> {
    match der::needed_at(s, 0, der::no_limit(s), SEQUENCE) {
        Ok(v) => request_of(s, v),
        Err(f) => Err(f),
    }
}

/// Reads the object identifier that may stand at `i`. Gives it with the place behind it.
fn read_policy(data: &[u8], i: usize, limit: u128) -> (res: Result<(Option<Vec<u8>>, usize), DecodeError>)
    requires
        i <= limit,
        i <= data@.len(),
        limit <= der::no_limit(data@),
    ensures
        match res {
            Ok((x, next)) => {
                &&& policy_at(data@, i as int, limit as int) matches Ok((at, m))
                &&& m == der::optional_octets(x)
                &&& at == next
                &&& i <= next <= limit
                &&& next <= data@.len()
            },
            Err(e) => policy_at(data@, i as int, limit as int) matches Err(f) && f == e@ && f.position <= data@.len(),
        },
{
    match read_tagged(data, i, limit, OBJECT_IDENTIFIER) {
        Ok(Some(v)) => {
            let octets = match v.identifier(data) {
                Ok(found) => found,
                Err(e) => {
                    return Err(e);
                },
            };
            Ok((Some(octets), v.end as usize))
        },
        Ok(None) => Ok((None, i)),
        Err(e) => Err(e),
    }
}

impl TimeStampReq {
    /// Reads the request at the beginning of the octets. What follows it is ignored.
    pub fn decode(data: &[u8]) -> (res: Result<TimeStampReq, DecodeError>)
        ensures
            match res {
                Ok(x) => request_in(data@) matches Ok(m) && m == x@,
                Err(e) => request_in(data@) matches Err(f) && f == e@ && f.position <= data@.len(),
            },
    {
        let v = match read_needed(data, 0, unlimited(data), SEQUENCE) {
            Ok(found) => found,
            Err(e) => {
                return Err(e);
            },
        };
        let (version, at_imprint) = match read_number(data, v.start, v.end) {
            Ok(found) => found,
            Err(e) => {
                return Err(e);
            },
        };
        let (message_imprint, at_policy) = match read_imprint(data, at_imprint, v.end) {
            Ok(found) => found,
            Err(e) => {
                return Err(e);
            },
        };
        let (req_policy, at_nonce) = match read_policy(data, at_policy, v.end) {
            Ok(found) => found,
            Err(e) => {
                return Err(e);
            },
        };
        let (nonce, at_cert) = match read_optional_number(data, at_nonce, v.end, INTEGER) {
            Ok(found) => found,
            Err(e) => {
                return Err(e);
            },
        };
        let (cert_req, at_extensions) = match read_truth(data, at_cert, v.end) {
            Ok(found) => found,
            Err(e) => {
                return Err(e);
            },
        };
        let (extensions, end) = match read_captured(data, at_extensions, v.end, CONSTRUCTED_0) {
            Ok(found) => found,
            Err(e) => {
                return Err(e);
            },
        };
        if let Err(e) = v.check_end(end) {
            return Err(e);
        }
        Ok(TimeStampReq { version, message_imprint, req_policy, nonce, cert_req, extensions })
    }
}

/// Octets that are values are values where they are held.
proof fn lemma_held_values(s: Seq<u8>, i: int, octets: Seq<u8>)
    requires
        der::holds_at(s, i, octets),
    ensures
        der::values_fill(s, i, i + octets.len(), i) is Ok == der::values_fill(octets, 0, octets.len() as int, 0) is Ok,
{
    assert forall|k: int| 0 <= k < octets.len() implies #[trigger] octets[k] == s[k + i] by {
        assert(s.subrange(i, i + octets.len())[k] == octets[k]);
    }
    der::lemma_same_fill(s, octets, i, 0, octets.len() as int, 0);
}

/// Whether octets are values, one after the other.
pub open spec fn are_values(octets: Seq<u8>) -> bool {
    der::are_values(octets)
}

/// Whether an algorithm is named by an object identifier and its parameters are values.
pub open spec fn is_algorithm(a: AlgorithmModel) -> bool {
    &&& der::is_object_identifier(a.algorithm)
    &&& a.parameters matches Some(p) ==> are_values(p)
}

/// An algorithm as it is read once it was written: with a null value for parameters where there
/// were none.
pub open spec fn algorithm_as_read(a: AlgorithmModel) -> AlgorithmModel {
    let octets = parameter_octets(a.parameters);
    AlgorithmModel {
        algorithm: a.algorithm,
        parameters: if octets.len() == 0 {
            None
        } else {
            Some(octets)
        },
    }
}

/// A null value is a value.
proof fn lemma_null()
    ensures
        are_values(der::written(NULL, Seq::empty())),
{
    let null = der::written(NULL, Seq::empty());
    assert(null =~= seq![5u8, 0u8]);
    reveal_with_fuel(der::values_fill, 3);
    reveal_with_fuel(der::value_end, 3);
    assert(der::identifier_end(null, 0, 2) == Ok::<int, Fault>(1));
    assert(der::length_at(null, 1, 2) == Ok::<(Option<int>, int), Fault>((Some(0int), 2)));
    assert(der::value_end(null, 0, 2, 0) == Ok::<int, Fault>(2));
}

proof fn lemma_algorithm_read(s: Seq<u8>, i: int, limit: int, a: AlgorithmModel)
    requires
        is_algorithm(a),
        der::is_writable(algorithm_octets(a)),
        der::holds_at(s, i, algorithm_octets(a)),
        i + algorithm_octets(a).len() <= limit,
    ensures
        rfc5652::algorithm_at(s, i, limit) matches Ok((at, model)) && model == algorithm_as_read(a) && at == i
            + algorithm_octets(a).len(),
{
    let name = der::written(OBJECT_IDENTIFIER, a.algorithm);
    let parameters = parameter_octets(a.parameters);
    der::written_is_read_back(s, i, limit, SEQUENCE, name + parameters);
    let v = der::tagged_at(s, i, limit, SEQUENCE)->Ok_0->0;
    der::lemma_holds_parts(s, v.start, name, parameters);
    der::written_is_read_back(s, v.start, v.end, OBJECT_IDENTIFIER, a.algorithm);
    let end = v.start + name.len();
    lemma_held_values(s, end, parameters);
    lemma_null();
    assert(s.subrange(end, v.end) =~= parameters);
}

proof fn lemma_imprint_read(s: Seq<u8>, i: int, limit: int, m: ImprintModel)
    requires
        is_algorithm(m.hash_algorithm),
        der::is_writable(imprint_octets(m)),
        der::holds_at(s, i, imprint_octets(m)),
        i + imprint_octets(m).len() <= limit,
    ensures
        imprint_at(s, i, limit) matches Ok((at, model)) && model == (ImprintModel {
            hash_algorithm: algorithm_as_read(m.hash_algorithm),
            ..m
        }) && at == i + imprint_octets(m).len(),
{
    let algorithm = algorithm_octets(m.hash_algorithm);
    let digest = der::written(OCTET_STRING, m.hashed_message);
    der::written_is_read_back(s, i, limit, SEQUENCE, algorithm + digest);
    let v = der::tagged_at(s, i, limit, SEQUENCE)->Ok_0->0;
    der::lemma_holds_parts(s, v.start, algorithm, digest);
    lemma_algorithm_read(s, v.start, v.end, m.hash_algorithm);
    der::written_is_read_back(s, v.start + algorithm.len(), v.end, OCTET_STRING, m.hashed_message);
}

/// What a value that may be missing is read as, once it was written: nothing, where the value that
/// follows has another tag.
proof fn lemma_optional(s: Seq<u8>, i: int, limit: int, tag: u8, octets: Option<Seq<u8>>)
    requires
        tag % 32 != 31,
        octets matches Some(o) ==> der::is_writable(o),
        der::holds_at(s, i, optional_written(tag, octets)),
        i + optional_written(tag, octets).len() <= limit,
        octets is None ==> der::tagged_at(s, i, limit, tag) == Ok::<Option<Value>, Fault>(None),
    ensures
        match octets {
            Some(o) => {
                &&& der::tagged_at(s, i, limit, tag) matches Ok(Some(v))
                &&& v.end == i + optional_written(tag, octets).len()
                &&& v.end == v.start + o.len()
                &&& der::content(s, v) == o
                &&& v.end <= s.len()
                &&& der::holds_at(s, v.start, o)
            },
            None => der::tagged_at(s, i, limit, tag) == Ok::<Option<Value>, Fault>(None) && optional_written(
                tag,
                octets,
            ).len() == 0,
        },
        octets is Some ==> forall|other: u8|
            der::bare_tag(other) != der::bare_tag(tag) ==> #[trigger] der::tagged_at(s, i, limit, other) == Ok::<
                Option<Value>,
                Fault,
            >(None),
{
    match octets {
        Some(octets) => {
            der::written_is_read_back(s, i, limit, tag, octets);
        },
        None => {},
    }
}

/// Whether a request can be read once it was written: its object identifiers are such, and its
/// algorithm's parameters and its extensions are values.
pub open spec fn is_request(r: RequestModel) -> bool {
    &&& is_algorithm(r.message_imprint.hash_algorithm)
    &&& r.req_policy matches Some(p) ==> der::is_object_identifier(p)
    &&& r.extensions matches Some(e) ==> are_values(e)
}

/// What the octets of a request give back: the same request, with a null value for parameters of
/// its algorithm where there were none.
pub open spec fn request_as_read(r: RequestModel) -> RequestModel {
    RequestModel {
        message_imprint: ImprintModel {
            hash_algorithm: algorithm_as_read(r.message_imprint.hash_algorithm),
            ..r.message_imprint
        },
        ..r
    }
}

/// The parts of a request's content are held one behind the other.
proof fn lemma_request_parts(s: Seq<u8>, at: int, r: RequestModel)
    requires
        der::holds_at(s, at, request_content(r)),
    ensures
        ({
            let first = der::written(INTEGER, integer::integer_octets(r.version));
            let imprint = imprint_octets(r.message_imprint);
            let policy = optional_written(OBJECT_IDENTIFIER, r.req_policy);
            let nonce = optional_written(INTEGER, number_octets(r.nonce));
            let cert = optional_written(BOOLEAN, truth_octets(r.cert_req));
            let extensions = optional_written(CONSTRUCTED_0, r.extensions);
            let a1 = at + first.len();
            let a2 = a1 + imprint.len();
            let a3 = a2 + policy.len();
            let a4 = a3 + nonce.len();
            let a5 = a4 + cert.len();
            &&& der::holds_at(s, at, first)
            &&& der::holds_at(s, a1, imprint)
            &&& der::holds_at(s, a2, policy)
            &&& der::holds_at(s, a3, nonce)
            &&& der::holds_at(s, a4, cert)
            &&& der::holds_at(s, a5, extensions)
            &&& a5 + extensions.len() == at + request_content(r).len()
        }),
{
    let first = der::written(INTEGER, integer::integer_octets(r.version));
    let imprint = imprint_octets(r.message_imprint);
    let policy = optional_written(OBJECT_IDENTIFIER, r.req_policy);
    let nonce = optional_written(INTEGER, number_octets(r.nonce));
    let cert = optional_written(BOOLEAN, truth_octets(r.cert_req));
    let extensions = optional_written(CONSTRUCTED_0, r.extensions);
    der::lemma_holds_parts(s, at, first + imprint + policy + nonce + cert, extensions);
    der::lemma_holds_parts(s, at, first + imprint + policy + nonce, cert);
    der::lemma_holds_parts(s, at, first + imprint + policy, nonce);
    der::lemma_holds_parts(s, at, first + imprint, policy);
    der::lemma_holds_parts(s, at, first, imprint);
}

/// What may be missing in a request is read back from `at` up to the end of its content.
proof fn lemma_request_tail(s: Seq<u8>, at: int, v: Value, r: RequestModel, rest: RequestModel)
    requires
        is_request(r),
        der::is_writable(request_content(r)),
        v.end <= s.len(),
        rest.version == r.version,
        ({
            let policy = optional_written(OBJECT_IDENTIFIER, r.req_policy);
            let nonce = optional_written(INTEGER, number_octets(r.nonce));
            let cert = optional_written(BOOLEAN, truth_octets(r.cert_req));
            let extensions = optional_written(CONSTRUCTED_0, r.extensions);
            let a3 = at + policy.len();
            let a4 = a3 + nonce.len();
            let a5 = a4 + cert.len();
            &&& der::holds_at(s, at, policy)
            &&& der::holds_at(s, a3, nonce)
            &&& der::holds_at(s, a4, cert)
            &&& der::holds_at(s, a5, extensions)
            &&& a5 + extensions.len() == v.end
        }),
    ensures
        request_rest_at(s, at, v, rest) == Ok::<RequestModel, Fault>(
            RequestModel { message_imprint: rest.message_imprint, ..r },
        ),
{
    let a3 = at + optional_written(OBJECT_IDENTIFIER, r.req_policy).len();
    let a4 = a3 + optional_written(INTEGER, number_octets(r.nonce)).len();
    let a5 = a4 + optional_written(BOOLEAN, truth_octets(r.cert_req)).len();
    let end = v.end;
    der::lemma_nothing_at_limit(s, end);
    lemma_optional(s, a5, end, CONSTRUCTED_0, r.extensions);
    lemma_optional(s, a4, end, BOOLEAN, truth_octets(r.cert_req));
    lemma_optional(s, a3, end, INTEGER, number_octets(r.nonce));
    lemma_optional(s, at, end, OBJECT_IDENTIFIER, r.req_policy);
    assert(policy_at(s, at, end) == Ok::<(int, Option<Seq<u8>>), Fault>((a3, r.req_policy)));
    if r.nonce is Some {
        integer::octets_give_back_value(r.nonce->0);
    }
    assert(optional_number_at(s, a3, end, INTEGER) == Ok::<(int, Option<int>), Fault>((a4, r.nonce)));
    if r.cert_req is Some {
        let c = der::tagged_at(s, a4, end, BOOLEAN)->Ok_0->0;
        assert(der::content(s, c)[0] == truth_octets(r.cert_req)->0[0]);
    }
    assert(truth_at(s, a4, end) == Ok::<(int, Option<bool>), Fault>((a5, r.cert_req)));
    if r.extensions is Some {
        lemma_held_values(s, der::tagged_at(s, a5, end, CONSTRUCTED_0)->Ok_0->0.start, r.extensions->0);
    }
    assert(der::captured_at(s, a5, end, CONSTRUCTED_0) == Ok::<(int, Option<Seq<u8>>), Fault>((end, r.extensions)));
}

/// A request that was written is read back, whatever follows it.
pub proof fn request_is_read_back(r: RequestModel, rest: Seq<u8>)
    requires
        is_request(r),
        der::is_writable(request_content(r)),
    ensures
        request_in(request_octets(r) + rest) == Ok::<RequestModel, Fault>(request_as_read(r)),
{
    let s = request_octets(r) + rest;
    let limit = der::no_limit(s);
    assert(s.subrange(0, request_octets(r).len() as int) =~= request_octets(r));
    der::written_is_read_back(s, 0, limit, SEQUENCE, request_content(r));
    let v = der::tagged_at(s, 0, limit, SEQUENCE)->Ok_0->0;
    let version = integer::integer_octets(r.version);
    let at_imprint = v.start + der::written(INTEGER, version).len();
    let at_tail = at_imprint + imprint_octets(r.message_imprint).len();
    lemma_request_parts(s, v.start, r);
    integer::octets_give_back_value(r.version);
    der::written_is_read_back(s, v.start, v.end, INTEGER, version);
    lemma_imprint_read(s, at_imprint, v.end, r.message_imprint);
    lemma_request_tail(
        s,
        at_tail,
        v,
        r,
        RequestModel {
            version: r.version,
            message_imprint: request_as_read(r).message_imprint,
            req_policy: None,
            nonce: None,
            cert_req: None,
            extensions: None,
        },
    );
}

/// Two requests that are written in the same way are read as the same request.
pub proof fn same_octets_are_same_request(a: RequestModel, b: RequestModel)
    requires
        is_request(a),
        is_request(b),
        der::is_writable(request_content(a)),
        der::is_writable(request_content(b)),
        request_octets(a) == request_octets(b),
    ensures
        request_as_read(a) == request_as_read(b),
{
    request_is_read_back(a, Seq::empty());
    request_is_read_back(b, Seq::empty());
}

proof fn lemma_same_texts(s: Seq<u8>, t: Seq<u8>, limit: int, i: int, l: int, seen: Seq<Seq<char>>)
    requires
        0 <= limit <= s.len(),
        limit <= t.len(),
        s.take(limit) == t.take(limit),
        0 <= i,
        l <= limit,
    ensures
        texts_from(s, i, l, seen) == texts_from(t, i, l, seen),
    decreases l - i,
{
    der::lemma_same_start(s, t, limit);
    match der::tagged_at(s, i, l, UTF8_STRING) {
        Ok(Some(v)) => {
            assert(der::content(s, v) == der::content(t, v));
            if utf8::valid_utf8(der::content(s, v)) {
                lemma_same_texts(s, t, limit, v.end, l, seen.push(utf8::decode_utf8(der::content(s, v))));
            }
        },
        _ => {},
    }
}

proof fn lemma_same_status(s: Seq<u8>, t: Seq<u8>, limit: int, v: Value)
    requires
        0 <= limit <= s.len(),
        limit <= t.len(),
        s.take(limit) == t.take(limit),
        0 <= v.start <= v.end <= limit,
    ensures
        status_info_of(s, v) == status_info_of(t, v),
{
    der::lemma_same_start(s, t, limit);
    match der::tagged_at(s, v.start, v.end, INTEGER) {
        Ok(Some(n)) => {
            if n.start < n.end {
                assert(s[n.start] == t[n.start]);
            }
            if n.start + 1 < n.end {
                assert(s[n.start + 1] == t[n.start + 1]);
            }
            assert(rfc5652::small_number_of(s, n) == rfc5652::small_number_of(t, n));
            match der::tagged_at(s, n.end, v.end, SEQUENCE) {
                Ok(Some(list)) => {
                    lemma_same_texts(s, t, limit, list.start, list.end, Seq::empty());
                },
                _ => {},
            }
            assert(text_list_at(s, n.end, v.end) == text_list_at(t, n.end, v.end));
            match text_list_at(s, n.end, v.end) {
                Ok((at, _)) => {
                    match der::tagged_at(s, at, v.end, BIT_STRING) {
                        Ok(Some(b)) => {
                            if b.start < b.end {
                                assert(s[b.start] == t[b.start]);
                                assert(s[b.end - 1] == t[b.end - 1]);
                            }
                            assert(der::content(s, b) == der::content(t, b));
                            assert(bit_string_of(s, b) == bit_string_of(t, b));
                        },
                        _ => {},
                    }
                    assert(bit_string_at(s, at, v.end) == bit_string_at(t, at, v.end));
                },
                Err(_) => {},
            }
        },
        _ => {},
    }
}

proof fn lemma_same_content(s: Seq<u8>, t: Seq<u8>, limit: int, v: Value)
    requires
        0 <= limit <= s.len(),
        limit <= t.len(),
        s.take(limit) == t.take(limit),
        0 <= v.start <= v.end <= limit,
    ensures
        rfc5652::content_of(s, v) == rfc5652::content_of(t, v),
{
    der::lemma_same_start(s, t, limit);
    match der::tagged_at(s, v.start, v.end, OBJECT_IDENTIFIER) {
        Ok(Some(o)) => {
            assert(der::content(s, o) == der::content(t, o));
            match der::tagged_at(s, o.end, v.end, CONSTRUCTED_0) {
                Ok(Some(c)) => {
                    assert(der::values_fill(s, c.start, c.end, c.start) == der::values_fill(t, c.start, c.end, c.start));
                    assert(der::content(s, c) == der::content(t, c));
                },
                _ => {},
            }
        },
        _ => {},
    }
}

/// A response that is all there is read from its own octets alone: what follows it is ignored.
pub proof fn response_ignores_rest(s: Seq<u8>, rest: Seq<u8>)
    requires
        der::first_is_whole(s, SEQUENCE),
    ensures
        response_in(s + rest) == response_in(s),
{
    let t = s + rest;
    let limit = s.len() as int;
    assert(t.take(limit) =~= s.take(limit));
    der::first_value_ignores_rest(s, rest, SEQUENCE);
    der::lemma_tagged_bounds(s, 0, der::no_limit(s), SEQUENCE);
    let v = der::tagged_at(s, 0, der::no_limit(s), SEQUENCE)->Ok_0->0;
    der::lemma_same_start(s, t, limit);
    match der::tagged_at(s, v.start, v.end, SEQUENCE) {
        Ok(Some(a)) => {
            lemma_same_status(s, t, limit, a);
            match der::tagged_at(s, a.end, v.end, SEQUENCE) {
                Ok(Some(token)) => {
                    lemma_same_content(s, t, limit, token);
                },
                _ => {},
            }
        },
        _ => {},
    }
}

/// The number of octets of a value that may be missing.
fn len_of_optional(octets: &Option<Vec<u8>>, tag: u8) -> (res: u128)
    ensures
        res == optional_written(tag, der::optional_octets(*octets)).len(),
        res <= usize::MAX + 6,
{
    match octets {
        Some(octets) => len_of_value(octets.len() as u128),
        None => 0,
    }
}

impl TimeStampReq {
    /// Whether the lengths in the request's octets can be written.
    pub fn is_encodable(&self) -> (res: bool)
        ensures
            res == der::is_writable(request_content(self@)),
    {
        let parameters: u128 = match &self.message_imprint.hash_algorithm.parameters {
            Some(parameters) => parameters.len() as u128,
            None => 2,
        };
        let algorithm: u128 = len_of_value(
            len_of_value(self.message_imprint.hash_algorithm.algorithm.len() as u128) + parameters,
        );
        let imprint: u128 = len_of_value(
            algorithm + len_of_value(self.message_imprint.hashed_message.len() as u128),
        );
        let version: u128 = len_of_value(self.version.as_slice().len() as u128);
        let nonce: u128 = match &self.nonce {
            Some(nonce) => len_of_value(nonce.as_slice().len() as u128),
            None => 0,
        };
        let cert: u128 = match self.cert_req {
            Some(_) => 3,
            None => 0,
        };
        let policy: u128 = len_of_optional(&self.req_policy, OBJECT_IDENTIFIER);
        let extensions: u128 = len_of_optional(&self.extensions, CONSTRUCTED_0);
        assert(parameters == parameter_octets(self@.message_imprint.hash_algorithm.parameters).len());
        assert(algorithm == algorithm_octets(self@.message_imprint.hash_algorithm).len());
        assert(imprint == imprint_octets(self@.message_imprint).len());
        assert(nonce == optional_written(INTEGER, number_octets(self@.nonce)).len());
        assert(cert == optional_written(BOOLEAN, truth_octets(self@.cert_req)).len());
        version + imprint + policy + nonce + cert + extensions <= 0xffff_ffff
    }
}

} // verus!
