//! DNS wire handling: the one-question parser and the locally answered
//! responses.

use crate::address::IpAddress;
use crate::config::{query_type_code, DnsRecord};
use crate::text::{ascii_lower, to_ascii_lowercase, utf8_error_text, utf8_text};
use vstd::prelude::*;
use vstd::slice::{slice_subrange, slice_to_vec};

verus! {

/// Why a request could not be answered locally.
#[derive(Clone, Debug, PartialEq, Eq)]
pub enum DnsError {
    /// Shorter than a header, or the question count is not one.
    OneQuestionRequired,
    /// The name runs past the end of the request.
    NameIncomplete,
    /// A label length above 63: compression pointers are not supported.
    CompressedName,
    /// The end of a label does not fit in a `usize`.
    LabelPositionOverflow,
    /// A label runs past the end of the request.
    LabelIncomplete,
    /// A label is not valid UTF-8; the UTF-8 decoder's own message says
    /// where the bytes go wrong.
    InvalidLabel(String),
    /// A two-byte field runs past the end of the bytes.
    FieldIncomplete,
    /// The position of a field's second byte does not fit in a `usize`.
    FieldPositionOverflow,
    /// The position after the question does not fit in a `usize`.
    QuestionPositionOverflow,
    /// The response is shorter than its header.
    HeaderIncomplete,
}

/// A DNS error as a value: the decoder's message as characters.
pub enum DnsErrorView {
    OneQuestionRequired,
    NameIncomplete,
    CompressedName,
    LabelPositionOverflow,
    LabelIncomplete,
    InvalidLabel(Seq<char>),
    FieldIncomplete,
    FieldPositionOverflow,
    QuestionPositionOverflow,
    HeaderIncomplete,
}

impl View for DnsError {
    type V = DnsErrorView;

    open spec fn view(&self) -> DnsErrorView {
        match self {
            DnsError::OneQuestionRequired => DnsErrorView::OneQuestionRequired,
            DnsError::NameIncomplete => DnsErrorView::NameIncomplete,
            DnsError::CompressedName => DnsErrorView::CompressedName,
            DnsError::LabelPositionOverflow => DnsErrorView::LabelPositionOverflow,
            DnsError::LabelIncomplete => DnsErrorView::LabelIncomplete,
            DnsError::InvalidLabel(reason) => DnsErrorView::InvalidLabel(reason@),
            DnsError::FieldIncomplete => DnsErrorView::FieldIncomplete,
            DnsError::FieldPositionOverflow => DnsErrorView::FieldPositionOverflow,
            DnsError::QuestionPositionOverflow => DnsErrorView::QuestionPositionOverflow,
            DnsError::HeaderIncomplete => DnsErrorView::HeaderIncomplete,
        }
    }
}

/// A result with its error taken by its view.
pub open spec fn viewed<T>(result: Result<T, DnsError>) -> Result<T, DnsErrorView> {
    match result {
        Ok(value) => Ok(value),
        Err(error) => Err(error@),
    }
}

/// The message that reports a DNS error.
pub open spec fn dns_error_text(error: DnsErrorView) -> Seq<char> {
    match error {
        DnsErrorView::OneQuestionRequired => "DNS request must contain one question"@,
        DnsErrorView::NameIncomplete => "DNS name is incomplete"@,
        DnsErrorView::CompressedName => "compressed or invalid DNS question is unsupported"@,
        DnsErrorView::LabelPositionOverflow => "DNS label position overflow"@,
        DnsErrorView::LabelIncomplete => "DNS label is incomplete"@,
        DnsErrorView::InvalidLabel(reason) => reason,
        DnsErrorView::FieldIncomplete => "DNS field is incomplete"@,
        DnsErrorView::FieldPositionOverflow => "DNS field position overflow"@,
        DnsErrorView::QuestionPositionOverflow => "DNS question position overflow"@,
        DnsErrorView::HeaderIncomplete => "DNS header is incomplete"@,
    }
}

impl DnsError {
    /// The message that reports this error.
    pub fn message(&self) -> (text: String)
        ensures
            text@ == dns_error_text(self@),
    {
        match self {
            DnsError::OneQuestionRequired => String::from_str("DNS request must contain one question"),
            DnsError::NameIncomplete => String::from_str("DNS name is incomplete"),
            DnsError::CompressedName => String::from_str(
                "compressed or invalid DNS question is unsupported",
            ),
            DnsError::LabelPositionOverflow => String::from_str("DNS label position overflow"),
            DnsError::LabelIncomplete => String::from_str("DNS label is incomplete"),
            DnsError::InvalidLabel(reason) => reason.clone(),
            DnsError::FieldIncomplete => String::from_str("DNS field is incomplete"),
            DnsError::FieldPositionOverflow => String::from_str("DNS field position overflow"),
            DnsError::QuestionPositionOverflow => String::from_str("DNS question position overflow"),
            DnsError::HeaderIncomplete => String::from_str("DNS header is incomplete"),
        }
    }
}

/// Big-endian value of the two bytes at `position`.
pub open spec fn be_u16(bytes: Seq<u8>, position: int) -> u16 {
    ((bytes[position] as int) * 256 + (bytes[position + 1] as int)) as u16
}

/// What `read_u16` gives for `bytes` at `position`.
pub open spec fn read_u16_spec(bytes: Seq<u8>, position: int) -> Result<u16, DnsErrorView> {
    if position >= bytes.len() {
        Err(DnsErrorView::FieldIncomplete)
    } else if position + 1 > usize::MAX {
        Err(DnsErrorView::FieldPositionOverflow)
    } else if position + 1 >= bytes.len() {
        Err(DnsErrorView::FieldIncomplete)
    } else {
        Ok(be_u16(bytes, position))
    }
}

/// Reads the big-endian 16-bit field at `position`.
pub fn read_u16(bytes: &[u8], position: usize) -> (result: Result<u16, DnsError>)
    ensures
        viewed(result) == read_u16_spec(bytes@, position as int),
{
    if position >= bytes.len() {
        return Err(DnsError::FieldIncomplete);
    }
    let high = bytes[position] as u16;
    let low_position = match position.checked_add(1) {
        Some(value) => value,
        None => return Err(DnsError::FieldPositionOverflow),
    };
    if low_position >= bytes.len() {
        return Err(DnsError::FieldIncomplete);
    }
    let low = bytes[low_position] as u16;
    assert((high << 8) | low == high * 256 + low) by (bit_vector)
        requires
            high < 256,
            low < 256,
    ;
    Ok((high << 8) | low)
}


/// The flags byte of a locally produced response: QR and AA set, the
/// request's RD bit kept, opcode and everything else cleared.
pub open spec fn response_flags(request_flags: u8) -> u8 {
    0x84 | (request_flags & 0x01)
}

/// What `set_header` leaves in `bytes`, and whether it succeeded. The header
/// is written field by field: where the bytes end first, the fields before
/// that point are already written and the call fails.
pub open spec fn set_header_spec(bytes: Seq<u8>, has_answer: bool) -> (Seq<u8>, bool) {
    let n = bytes.len();
    if n < 3 {
        (bytes, false)
    } else {
        let with_flags = bytes.update(2, response_flags(bytes[2]));
        if n < 4 {
            (with_flags, false)
        } else {
            let with_code = with_flags.update(3, 0);
            if n < 7 {
                (with_code, false)
            } else {
                let with_high = with_code.update(6, 0);
                if n < 8 {
                    (with_high, false)
                } else {
                    let with_count = with_high.update(7, if has_answer { 1u8 } else { 0u8 });
                    (zero_range(with_count, 8, 12), n >= 12)
                }
            }
        }
    }
}

/// `bytes` with the positions in `from..to` that it has set to zero.
pub open spec fn zero_range(bytes: Seq<u8>, from: int, to: int) -> Seq<u8> {
    Seq::new(bytes.len(), |i: int| if from <= i < to { 0u8 } else { bytes[i] })
}

/// Turns the copied request header at the start of `response` into a
/// response header: QR and AA set with RD kept, RCODE 0, one answer or none,
/// no authority or additional records.
pub fn set_header(response: &mut Vec<u8>, has_answer: bool) -> (result: Result<(), DnsError>)
    ensures
        final(response)@ == set_header_spec(old(response)@, has_answer).0,
        result is Ok <==> set_header_spec(old(response)@, has_answer).1,
        result matches Err(error) ==> error@ == DnsErrorView::HeaderIncomplete,
{
    let n = response.len();
    if n < 3 {
        return Err(DnsError::HeaderIncomplete);
    }
    let request_flags = response[2];
    response.set(2, 0x84 | (request_flags & 0x01));
    if n < 4 {
        return Err(DnsError::HeaderIncomplete);
    }
    response.set(3, 0);
    let count: u8 = if has_answer { 1 } else { 0 };
    if n < 7 {
        return Err(DnsError::HeaderIncomplete);
    }
    response.set(6, 0);
    if n < 8 {
        return Err(DnsError::HeaderIncomplete);
    }
    response.set(7, count);
    let ghost written = response@;
    assert(written =~= old(response)@.update(2, response_flags(old(response)@[2])).update(3, 0)
        .update(6, 0).update(7, count));
    let mut position: usize = 8;
    while position < 12
        invariant
            8 <= position <= 12,
            position <= n,
            n == written.len(),
            set_header_spec(old(response)@, has_answer).0 == zero_range(written, 8, 12),
            set_header_spec(old(response)@, has_answer).1 == (n >= 12),
            response@ == zero_range(written, 8, position as int),
        decreases 12 - position,
    {
        if position >= n {
            proof {
                assert(zero_range(written, 8, position as int) =~= zero_range(written, 8, 12));
            }
            return Err(DnsError::HeaderIncomplete);
        }
        response.set(position, 0);
        assert(response@ =~= zero_range(written, 8, position + 1));
        position = position + 1;
    }
    Ok(())
}


/// The text of one name label: its bytes decoded as UTF-8, ASCII letters
/// lower-cased.
pub open spec fn label_text(label: Seq<u8>) -> Seq<char> {
    ascii_lower(vstd::utf8::decode_utf8(label))
}

/// Labels joined with `'.'`, as `[String]::join(".")` joins them.
pub open spec fn join_labels(labels: Seq<Seq<char>>) -> Seq<char>
    decreases labels.len(),
{
    if labels.len() == 0 {
        Seq::empty()
    } else if labels.len() == 1 {
        labels[0]
    } else {
        join_labels(labels.drop_last()) + seq!['.'] + labels.last()
    }
}

/// Reads the labels of an uncompressed name that starts at `position`, after
/// the labels already read (`labels`): the labels and the position just past
/// the terminating zero length, or why the name is refused.
pub open spec fn parse_name(request: Seq<u8>, position: int, labels: Seq<Seq<char>>) -> Result<
    (Seq<Seq<char>>, int),
    DnsErrorView,
>
    decreases request.len() - position,
{
    if position < 0 || position >= request.len() {
        Err(DnsErrorView::NameIncomplete)
    } else {
        let length = request[position] as int;
        let start = position + 1;
        if length == 0 {
            Ok((labels, start))
        } else if length > 63 {
            Err(DnsErrorView::CompressedName)
        } else if start + length > usize::MAX {
            Err(DnsErrorView::LabelPositionOverflow)
        } else if start + length > request.len() {
            Err(DnsErrorView::LabelIncomplete)
        } else if !vstd::utf8::valid_utf8(request.subrange(start, start + length)) {
            Err(DnsErrorView::InvalidLabel(utf8_error_text(request.subrange(start, start + length))))
        } else {
            parse_name(
                request,
                start + length,
                labels.push(label_text(request.subrange(start, start + length))),
            )
        }
    }
}

/// The single question of a request: its name (labels lower-cased and joined
/// with dots), the position just past the question, its QTYPE and its QCLASS.
pub open spec fn question_spec(request: Seq<u8>) -> Result<(Seq<char>, int, u16, u16), DnsErrorView> {
    if request.len() < 12 || be_u16(request, 4) != 1 {
        Err(DnsErrorView::OneQuestionRequired)
    } else {
        match parse_name(request, 12, Seq::empty()) {
            Err(error) => Err(error),
            Ok((labels, position)) => match read_u16_spec(request, position) {
                Err(error) => Err(error),
                Ok(query_type) => if position + 2 > usize::MAX {
                    Err(DnsErrorView::QuestionPositionOverflow)
                } else {
                    match read_u16_spec(request, position + 2) {
                        Err(error) => Err(error),
                        Ok(query_class) => if position + 4 > usize::MAX {
                            Err(DnsErrorView::QuestionPositionOverflow)
                        } else {
                            Ok((join_labels(labels), position + 4, query_type, query_class))
                        },
                    }
                },
            },
        }
    }
}

/// Whether an executed question parse agrees with `question_spec`.
pub open spec fn question_agrees(
    result: Result<(String, usize, u16, u16), DnsError>,
    expected: Result<(Seq<char>, int, u16, u16), DnsErrorView>,
) -> bool {
    match (result, expected) {
        (Ok(found), Ok(wanted)) => found.0@ == wanted.0 && found.1 == wanted.1 && found.2
            == wanted.2 && found.3 == wanted.3,
        (Err(found), Err(wanted)) => found@ == wanted,
        _ => false,
    }
}

/// The texts of a list of strings.
pub open spec fn texts(strings: Seq<String>) -> Seq<Seq<char>> {
    strings.map_values(|s: String| s@)
}

/// Joins label texts with `'.'`.
fn join_with_dots(labels: &Vec<String>) -> (joined: String)
    ensures
        joined@ == join_labels(texts(labels@)),
{
    let mut joined = String::new();
    let mut i: usize = 0;
    proof {
        reveal_strlit(".");
    }
    while i < labels.len()
        invariant
            i <= labels.len(),
            joined@ == join_labels(texts(labels@).take(i as int)),
            "."@ == seq!['.'],
        decreases labels.len() - i,
    {
        if i != 0 {
            joined.append(".");
        }
        joined.append(labels[i].as_str());
        assert(texts(labels@).take(i + 1).drop_last() =~= texts(labels@).take(i as int));
        i = i + 1;
    }
    assert(texts(labels@).take(labels.len() as int) =~= texts(labels@));
    joined
}

/// Parses the one question of a DNS request: the lower-cased name, the
/// position just past the question, QTYPE and QCLASS.
pub fn question(request: &[u8]) -> (result: Result<(String, usize, u16, u16), DnsError>)
    ensures
        question_agrees(result, question_spec(request@)),
{
    if request.len() < 12 {
        return Err(DnsError::OneQuestionRequired);
    }
    let count = read_u16(request, 4);
    match count {
        Ok(value) => {
            if value != 1 {
                return Err(DnsError::OneQuestionRequired);
            }
        },
        Err(error) => return Err(error),
    }
    let mut position: usize = 12;
    let mut labels: Vec<String> = Vec::new();
    assert(texts(labels@) =~= Seq::<Seq<char>>::empty());
    loop
        invariant_except_break
            12 <= position <= request.len(),
            be_u16(request@, 4) == 1,
            parse_name(request@, 12, Seq::empty()) == parse_name(
                request@,
                position as int,
                texts(labels@),
            ),
        ensures
            parse_name(request@, 12, Seq::empty()) == Ok::<(Seq<Seq<char>>, int), DnsErrorView>(
                (texts(labels@), position as int),
            ),
        decreases request.len() - position,
    {
        if position >= request.len() {
            return Err(DnsError::NameIncomplete);
        }
        let length = request[position] as usize;
        position = position + 1;
        if length == 0 {
            break ;
        }
        if length > 63 {
            return Err(DnsError::CompressedName);
        }
        let end = match position.checked_add(length) {
            Some(value) => value,
            None => return Err(DnsError::LabelPositionOverflow),
        };
        if end > request.len() {
            return Err(DnsError::LabelIncomplete);
        }
        let label = slice_subrange(request, position, end);
        let ghost before = texts(labels@);
        match utf8_text(label) {
            Ok(text) => labels.push(to_ascii_lowercase(text)),
            Err(reason) => return Err(DnsError::InvalidLabel(reason)),
        }
        assert(texts(labels@) =~= before.push(label_text(label@)));
        position = end;
    }
    let query_type = match read_u16(request, position) {
        Ok(value) => value,
        Err(error) => return Err(error),
    };
    let class_position = match position.checked_add(2) {
        Some(value) => value,
        None => return Err(DnsError::QuestionPositionOverflow),
    };
    let query_class = match read_u16(request, class_position) {
        Ok(value) => value,
        Err(error) => return Err(error),
    };
    let question_end = match class_position.checked_add(2) {
        Some(value) => value,
        None => return Err(DnsError::QuestionPositionOverflow),
    };
    Ok((join_with_dots(&labels), question_end, query_type, query_class))
}


/// A parsed question ends inside the request, after a full header and at
/// least one name byte and the two fields.
pub proof fn lemma_question_bounds(request: Seq<u8>)
    ensures
        question_spec(request) matches Ok(q) ==> 17 <= q.1 <= request.len(),
{
    lemma_parse_name_bounds(request, 12, Seq::empty());
}

/// A name that parses ends after its start and inside the request.
pub proof fn lemma_parse_name_bounds(request: Seq<u8>, position: int, labels: Seq<Seq<char>>)
    requires
        0 <= position,
    ensures
        parse_name(request, position, labels) matches Ok(r) ==> position < r.1 <= request.len(),
    decreases request.len() - position,
{
    if 0 <= position < request.len() {
        let length = request[position] as int;
        let start = position + 1;
        if length != 0 && length <= 63 && start + length <= request.len() {
            lemma_parse_name_bounds(
                request,
                start + length,
                labels.push(label_text(request.subrange(start, start + length))),
            );
        }
    }
}

/// Big-endian bytes of a 16-bit value.
pub open spec fn be16_bytes(value: u16) -> Seq<u8> {
    seq![(value / 256) as u8, (value % 256) as u8]
}

/// The answer section written for a local record: a pointer to the question
/// name, the record's type, class IN, a TTL of 60 seconds, and the address.
pub open spec fn answer_record(record: DnsRecord) -> Seq<u8> {
    seq![0xc0u8, 0x0cu8] + be16_bytes(query_type_code(record.record_type)) + be16_bytes(1)
        + seq![0u8, 0u8, 0u8, 60u8] + match record.ip {
        IpAddress::V4(octets) => be16_bytes(4) + octets@,
        IpAddress::V6(octets) => be16_bytes(16) + octets@,
    }
}

/// Whether a record answers a question for `name` of type `query_type`.
pub open spec fn answers(record: DnsRecord, name: Seq<char>, query_type: u16) -> bool {
    record.name@ == name && query_type_code(record.record_type) == query_type
}

/// The first record, in order, that answers the question.
pub open spec fn first_match(records: Seq<DnsRecord>, name: Seq<char>, query_type: u16) -> Option<
    DnsRecord,
>
    decreases records.len(),
{
    if records.len() == 0 {
        None
    } else if answers(records[0], name, query_type) {
        Some(records[0])
    } else {
        first_match(records.drop_first(), name, query_type)
    }
}

/// Whether some record is registered under `name`, whatever its type.
pub open spec fn has_name(records: Seq<DnsRecord>, name: Seq<char>) -> bool {
    exists|i: int| 0 <= i < records.len() && #[trigger] records[i].name@ == name
}

/// The question section of a request echoed under a response header.
pub open spec fn echoed(request: Seq<u8>, end: int, has_answer: bool) -> Seq<u8> {
    set_header_spec(request.take(end), has_answer).0
}

/// What the service answers from its own records: the answer for the first
/// matching record (with the answer section only for class IN), an empty
/// answer when the name is registered under another type only, or nothing
/// when the name is not registered.
pub open spec fn local_response_spec(request: Seq<u8>, records: Seq<DnsRecord>) -> Result<
    Option<Seq<u8>>,
    DnsErrorView,
> {
    match question_spec(request) {
        Err(error) => Err(error),
        Ok((name, end, query_type, query_class)) => match first_match(records, name, query_type) {
            None => if has_name(records, name) {
                Ok(Some(echoed(request, end, false)))
            } else {
                Ok(None)
            },
            Some(record) => if query_class == 1 {
                Ok(Some(echoed(request, end, true) + answer_record(record)))
            } else {
                Ok(Some(echoed(request, end, false)))
            },
        },
    }
}

/// The response that tells a client the name does not exist (NXDOMAIN).
pub open spec fn negative_response_spec(request: Seq<u8>) -> Result<Seq<u8>, DnsErrorView> {
    match question_spec(request) {
        Err(error) => Err(error),
        Ok((_, end, _, _)) => {
            let header = echoed(request, end, false);
            Ok(header.update(3, (header[3] & 0xf0) | 0x03))
        },
    }
}

/// The byte views of an optional response.
pub open spec fn bytes_of(response: Option<Vec<u8>>) -> Option<Seq<u8>> {
    match response {
        Some(bytes) => Some(bytes@),
        None => None,
    }
}

/// Appends the big-endian bytes of `value`.
fn push_u16(response: &mut Vec<u8>, value: u16)
    ensures
        final(response)@ == old(response)@ + be16_bytes(value),
{
    let high = (value >> 8) as u8;
    let low = (value & 0xff) as u8;
    assert(high == value / 256 && low == value % 256) by (bit_vector)
        requires
            high == (value >> 8) as u8,
            low == (value & 0xff) as u8,
    ;
    response.push(high);
    response.push(low);
    assert(final(response)@ =~= old(response)@ + be16_bytes(value));
}

/// Appends `bytes`.
fn push_all(response: &mut Vec<u8>, bytes: &[u8])
    ensures
        final(response)@ == old(response)@ + bytes@,
{
    let mut i: usize = 0;
    while i < bytes.len()
        invariant
            i <= bytes.len(),
            response@ == old(response)@ + bytes@.take(i as int),
        decreases bytes.len() - i,
    {
        response.push(bytes[i]);
        assert(bytes@.take(i + 1) =~= bytes@.take(i as int).push(bytes@[i as int]));
        i = i + 1;
    }
    assert(bytes@.take(bytes.len() as int) =~= bytes@);
}

/// Appends the answer section for `record`.
fn push_answer(response: &mut Vec<u8>, record: &DnsRecord)
    ensures
        final(response)@ == old(response)@ + answer_record(*record),
{
    response.push(0xc0);
    response.push(0x0c);
    push_u16(response, record.record_type.query_type());
    push_u16(response, 1);
    response.push(0);
    response.push(0);
    response.push(0);
    response.push(60);
    match &record.ip {
        IpAddress::V4(octets) => {
            push_u16(response, 4);
            push_all(response, octets);
        },
        IpAddress::V6(octets) => {
            push_u16(response, 16);
            push_all(response, octets);
        },
    }
    assert(final(response)@ =~= old(response)@ + answer_record(*record));
}

/// The request up to `end` under a response header.
fn echo_question(request: &[u8], end: usize, has_answer: bool) -> (response: Vec<u8>)
    requires
        12 <= end <= request@.len(),
    ensures
        response@ == echoed(request@, end as int, has_answer),
{
    let mut response = slice_to_vec(slice_subrange(request, 0, end));
    assert(response@ =~= request@.take(end as int));
    let _ = set_header(&mut response, has_answer);
    response
}

/// Answers a request from the local records: `Some` response when the name
/// is registered, `None` when the request is left for the upstream resolver.
pub fn local_response(request: &[u8], records: &[DnsRecord]) -> (result: Result<
    Option<Vec<u8>>,
    DnsError,
>)
    ensures
        match (result, local_response_spec(request@, records@)) {
            (Ok(found), Ok(wanted)) => bytes_of(found) == wanted,
            (Err(found), Err(wanted)) => found@ == wanted,
            _ => false,
        },
{
    let (name, question_end, query_type, query_class) = match question(request) {
        Ok(parsed) => parsed,
        Err(error) => return Err(error),
    };
    proof {
        lemma_question_bounds(request@);
    }
    let mut i: usize = 0;
    let mut found: Option<usize> = None;
    assert(records@.skip(0) =~= records@);
    while i < records.len()
        invariant_except_break
            found is None,
        invariant
            i <= records.len(),
            first_match(records@, name@, query_type) == first_match(
                records@.skip(i as int),
                name@,
                query_type,
            ),
        ensures
            match found {
                Some(index) => index < records.len() && first_match(records@, name@, query_type)
                    == Some(records@[index as int]),
                None => first_match(records@, name@, query_type) is None,
            },
        decreases records.len() - i,
    {
        assert(records@.skip(i as int).drop_first() =~= records@.skip(i + 1));
        if records[i].name == name && records[i].record_type.query_type() == query_type {
            found = Some(i);
            break ;
        }
        i = i + 1;
    }
    match found {
        Some(index) => {
            let has_answer = query_class == 1;
            let mut response = echo_question(request, question_end, has_answer);
            if has_answer {
                push_answer(&mut response, &records[index]);
            }
            Ok(Some(response))
        },
        None => {
            let mut j: usize = 0;
            while j < records.len()
                invariant
                    j <= records.len(),
                    forall|k: int| 0 <= k < j ==> records@[k].name@ != name@,
                    12 <= question_end <= request@.len(),
                    question_spec(request@) == Ok::<(Seq<char>, int, u16, u16), DnsErrorView>(
                        (name@, question_end as int, query_type, query_class),
                    ),
                    first_match(records@, name@, query_type) is None,
                decreases records.len() - j,
            {
                if records[j].name == name {
                    return Ok(Some(echo_question(request, question_end, false)));
                }
                j = j + 1;
            }
            Ok(None)
        },
    }
}

/// The NXDOMAIN response to a request: the question echoed under a response
/// header with RCODE 3 and no answer.
pub fn negative_response(request: &[u8]) -> (result: Result<Vec<u8>, DnsError>)
    ensures
        match (result, negative_response_spec(request@)) {
            (Ok(found), Ok(wanted)) => found@ == wanted,
            (Err(found), Err(wanted)) => found@ == wanted,
            _ => false,
        },
{
    let question_end = match question(request) {
        Ok(parsed) => parsed.1,
        Err(error) => return Err(error),
    };
    proof {
        lemma_question_bounds(request@);
    }
    let mut response = echo_question(request, question_end, false);
    let flags = response[3];
    response.set(3, (flags & 0xf0) | 0x03);
    Ok(response)
}


/// What to do with one request.
#[derive(Debug)]
pub enum Resolution {
    /// Send these bytes back to the client.
    Reply(Vec<u8>),
    /// Send the request, unchanged, to the upstream resolver.
    Forward,
    /// Answer nothing: the request is not one this service can read.
    Discard(DnsError),
}

/// What `resolve` decides for a request.
pub open spec fn resolve_agrees(
    result: Resolution,
    request: Seq<u8>,
    records: Seq<DnsRecord>,
    has_upstream: bool,
) -> bool {
    match local_response_spec(request, records) {
        Err(error) => result matches Resolution::Discard(found) && found@ == error,
        Ok(Some(bytes)) => result matches Resolution::Reply(reply) && reply@ == bytes,
        Ok(None) => if has_upstream {
            result is Forward
        } else {
            result matches Resolution::Reply(reply) && negative_response_spec(request) == Ok::<
                Seq<u8>,
                DnsErrorView,
            >(reply@)
        },
    }
}

/// Decides what to do with one request: answer it from the local records,
/// forward it when the name is not registered and an upstream is configured,
/// or answer NXDOMAIN when there is no upstream.
pub fn resolve(request: &[u8], records: &[DnsRecord], has_upstream: bool) -> (result: Resolution)
    ensures
        resolve_agrees(result, request@, records@, has_upstream),
{
    match local_response(request, records) {
        Err(error) => Resolution::Discard(error),
        Ok(Some(response)) => Resolution::Reply(response),
        Ok(None) => {
            if has_upstream {
                Resolution::Forward
            } else {
                match negative_response(request) {
                    Ok(response) => Resolution::Reply(response),
                    Err(error) => Resolution::Discard(error),
                }
            }
        },
    }
}

/// The answer count of a response, from its header.
pub open spec fn answer_count(response: Seq<u8>) -> u16 {
    be_u16(response, 6)
}

/// Local records take precedence: a well-formed question for a registered
/// name is always answered locally, whatever type it asks for, and never
/// forwarded.
pub proof fn law_registered_names_answered_locally(request: Seq<u8>, records: Seq<DnsRecord>)
    requires
        question_spec(request) is Ok,
        has_name(records, question_spec(request)->Ok_0.0),
    ensures
        local_response_spec(request, records) matches Ok(Some(_)),
{
}

/// Every other name is left to the upstream resolver: a well-formed question
/// for an unregistered name is not answered locally.
pub proof fn law_unregistered_names_forwarded(request: Seq<u8>, records: Seq<DnsRecord>)
    requires
        question_spec(request) is Ok,
        !has_name(records, question_spec(request)->Ok_0.0),
    ensures
        local_response_spec(request, records) == Ok::<Option<Seq<u8>>, DnsErrorView>(None),
{
    lemma_first_match_has_name(records, question_spec(request)->Ok_0.0, question_spec(request)->Ok_0.2);
}

/// A record that answers a name also registers it.
pub proof fn lemma_first_match_has_name(records: Seq<DnsRecord>, name: Seq<char>, query_type: u16)
    ensures
        first_match(records, name, query_type) is Some ==> has_name(records, name),
        first_match(records, name, query_type) matches Some(record) ==> answers(record, name, query_type),
    decreases records.len(),
{
    if records.len() > 0 && !answers(records[0], name, query_type) {
        lemma_first_match_has_name(records.drop_first(), name, query_type);
        if first_match(records, name, query_type) is Some {
            let i = choose|i: int| 0 <= i < records.drop_first().len() && #[trigger] records.drop_first()[i].name@ == name;
            assert(records[i + 1].name@ == name);
        }
    } else if records.len() > 0 {
        assert(records[0].name@ == name);
    }
}

/// A registered name and type asked for in class IN is answered with the
/// configured address: one answer, the record's address as the last bytes.
pub proof fn law_answer_carries_configured_address(request: Seq<u8>, records: Seq<DnsRecord>)
    requires
        question_spec(request) is Ok,
        question_spec(request)->Ok_0.3 == 1,
        first_match(records, question_spec(request)->Ok_0.0, question_spec(request)->Ok_0.2) is Some,
    ensures
        ({
            let record = first_match(
                records,
                question_spec(request)->Ok_0.0,
                question_spec(request)->Ok_0.2,
            )->Some_0;
            let octets = record.ip.octets();
            &&& local_response_spec(request, records) matches Ok(Some(response))
            &&& answer_count(response) == 1
            &&& response.subrange(response.len() - octets.len(), response.len() as int) == octets
        }),
{
    lemma_question_bounds(request);
    let q = question_spec(request)->Ok_0;
    let record = first_match(records, q.0, q.2)->Some_0;
    let header = echoed(request, q.1, true);
    let response = header + answer_record(record);
    let octets = record.ip.octets();
    assert(response.subrange(response.len() - octets.len(), response.len() as int) =~= octets);
}

/// Every local response keeps the request's transaction ID and echoes its
/// question section unchanged.
pub proof fn law_local_response_echoes_question(request: Seq<u8>, records: Seq<DnsRecord>)
    requires
        local_response_spec(request, records) matches Ok(Some(_)),
    ensures
        ({
            let response = local_response_spec(request, records)->Ok_0->Some_0;
            let end = question_spec(request)->Ok_0.1;
            &&& response[0] == request[0]
            &&& response[1] == request[1]
            &&& response.subrange(12, end) == request.subrange(12, end)
        }),
{
    lemma_question_bounds(request);
    let end = question_spec(request)->Ok_0.1;
    let response = local_response_spec(request, records)->Ok_0->Some_0;
    assert(response.subrange(12, end) =~= request.subrange(12, end));
}

/// Without an upstream, an unregistered name gets NXDOMAIN: a response with
/// RCODE 3, no answer, and the question echoed.
pub proof fn law_negative_response_is_nxdomain(request: Seq<u8>)
    requires
        question_spec(request) is Ok,
    ensures
        ({
            let end = question_spec(request)->Ok_0.1;
            &&& negative_response_spec(request) matches Ok(response)
            &&& response.len() == end
            &&& response[0] == request[0] && response[1] == request[1]
            &&& response[2] == (0x84u8 | (request[2] & 0x01u8)) && response[3] == 3
            &&& response[4] == request[4] && response[5] == request[5]
            &&& response[6] == 0 && response[7] == 0 && response[8] == 0 && response[9] == 0
                && response[10] == 0 && response[11] == 0
            &&& response[3] & 0x0f == 3
            &&& response[2] & 0x80 == 0x80
            &&& answer_count(response) == 0
            &&& response.subrange(12, end) == request.subrange(12, end)
        }),
{
    lemma_question_bounds(request);
    let end = question_spec(request)->Ok_0.1;
    let header = echoed(request, end, false);
    lemma_echoed_header(request, end, false);
    let response = header.update(3, (header[3] & 0xf0) | 0x03);
    assert(header[3] == 0);
    assert(((0u8 & 0xf0u8) | 0x03u8) & 0x0fu8 == 3) by (bit_vector);
    assert(((0u8 & 0xf0u8) | 0x03u8) == 3u8) by (bit_vector);
    let flags = header[2];
    let r2 = request[2];
    assert((0x84u8 | (r2 & 0x01u8)) & 0x80u8 == 0x80u8) by (bit_vector);
    assert(response.subrange(12, end) =~= request.subrange(12, end));
}

/// A parsed question's QTYPE and QCLASS are the last four bytes of the
/// question, read big-endian.
proof fn lemma_question_fields(request: Seq<u8>)
    requires
        question_spec(request) is Ok,
    ensures
        ({
            let q = question_spec(request)->Ok_0;
            &&& 17 <= q.1 <= request.len()
            &&& q.2 == be_u16(request, q.1 - 4)
            &&& q.3 == be_u16(request, q.1 - 2)
        }),
{
    lemma_question_bounds(request);
}

/// The big-endian bytes of a two-byte field are those bytes.
proof fn lemma_be16_of_field(bytes: Seq<u8>, position: int)
    requires
        0 <= position,
        position + 1 < bytes.len(),
    ensures
        be16_bytes(be_u16(bytes, position)) == seq![bytes[position], bytes[position + 1]],
{
    let a = bytes[position];
    let b = bytes[position + 1];
    let v: int = (a as int) * 256 + (b as int);
    assert(0 <= v < 65536 && v / 256 == a as int && v % 256 == b as int) by (nonlinear_arith)
        requires
            v == (a as int) * 256 + (b as int),
            0 <= a < 256,
            0 <= b < 256,
    ;
    assert(be_u16(bytes, position) as int == v);
    assert(be16_bytes(be_u16(bytes, position)) =~= seq![a, b]);
}

/// The header of an echoed question: the request's ID and question count,
/// QR and AA set with the request's RD kept, RCODE 0, one answer or none, no
/// other records; then the question unchanged.
proof fn lemma_echoed_header(request: Seq<u8>, end: int, has_answer: bool)
    requires
        12 <= end <= request.len(),
    ensures
        ({
            let header = echoed(request, end, has_answer);
            &&& header.len() == end
            &&& header[0] == request[0] && header[1] == request[1]
            &&& header[2] == (0x84u8 | (request[2] & 0x01u8)) && header[3] == 0
            &&& header[4] == request[4] && header[5] == request[5]
            &&& header[6] == 0 && header[7] == (if has_answer { 1u8 } else { 0u8 })
            &&& header[8] == 0 && header[9] == 0 && header[10] == 0 && header[11] == 0
            &&& header.subrange(12, end) == request.subrange(12, end)
        }),
{
    let header = echoed(request, end, has_answer);
    assert(header.subrange(12, end) =~= request.subrange(12, end));
}

/// A class-IN question for a registered name and type gets exactly one
/// answer record after the echoed question: the pointer to the question
/// name, the question's own QTYPE bytes (so the type code of the matched
/// record), class IN, a TTL of 60 seconds, the address length (4 for an A
/// record, 16 for an AAAA record) and the configured address.
pub proof fn law_answer_record_layout(request: Seq<u8>, records: Seq<DnsRecord>)
    requires
        question_spec(request) is Ok,
        question_spec(request)->Ok_0.3 == 1,
        first_match(records, question_spec(request)->Ok_0.0, question_spec(request)->Ok_0.2) is Some,
    ensures
        ({
            let q = question_spec(request)->Ok_0;
            let end = q.1;
            let record = first_match(records, q.0, q.2)->Some_0;
            let octets = record.ip.octets();
            &&& record.name@ == q.0
            &&& query_type_code(record.record_type) == be_u16(request, end - 4)
            &&& octets.len() == (if record.ip is V4 { 4int } else { 16int })
            &&& local_response_spec(request, records) matches Ok(Some(response))
            &&& response.len() == end + 12 + octets.len()
            &&& response.subrange(0, end) == echoed(request, end, true)
            &&& response[0] == request[0] && response[1] == request[1]
            &&& response[2] == (0x84u8 | (request[2] & 0x01u8)) && response[3] == 0
            &&& response[4] == request[4] && response[5] == request[5]
            &&& response[6] == 0 && response[7] == 1
            &&& response[8] == 0 && response[9] == 0 && response[10] == 0 && response[11] == 0
            &&& response.subrange(12, end) == request.subrange(12, end)
            &&& response[end] == 0xc0 && response[end + 1] == 0x0c
            &&& response[end + 2] == request[end - 4] && response[end + 3] == request[end - 3]
            &&& response[end + 4] == 0 && response[end + 5] == 1
            &&& response[end + 6] == 0 && response[end + 7] == 0 && response[end + 8] == 0
                && response[end + 9] == 60
            &&& response[end + 10] == 0 && response[end + 11] == octets.len()
            &&& response.subrange(end + 12, response.len() as int) == octets
        }),
{
    lemma_question_fields(request);
    let q = question_spec(request)->Ok_0;
    let end = q.1;
    lemma_first_match_has_name(records, q.0, q.2);
    let record = first_match(records, q.0, q.2)->Some_0;
    let octets = record.ip.octets();
    lemma_be16_of_field(request, end - 4);
    let header = echoed(request, end, true);
    lemma_echoed_header(request, end, true);
    let answer = answer_record(record);
    let response = header + answer;
    assert(header.len() == end);
    assert(answer[2] == request[end - 4] && answer[3] == request[end - 3]);
    assert(response.subrange(0, end) =~= header);
    assert(response.subrange(end + 12, response.len() as int) =~= octets);
    match record.ip {
        IpAddress::V4(_) => {
            assert(be16_bytes(4) =~= seq![0u8, 4u8]);
        },
        IpAddress::V6(_) => {
            assert(be16_bytes(16) =~= seq![0u8, 16u8]);
        },
    }
    assert(be16_bytes(1) =~= seq![0u8, 1u8]);
}

/// The record that answers is the first record, in stored order, with the
/// question's name and type.
pub proof fn law_first_matching_record_answers(
    records: Seq<DnsRecord>,
    name: Seq<char>,
    query_type: u16,
)
    ensures
        first_match(records, name, query_type) matches Some(record) ==> exists|i: int|
            0 <= i < records.len() && records[i] == record && records[i].name@ == name
                && query_type_code(records[i].record_type) == query_type && forall|j: int|
                0 <= j < i ==> !(#[trigger] records[j].name@ == name && query_type_code(
                    records[j].record_type,
                ) == query_type),
        first_match(records, name, query_type) is None ==> forall|j: int|
            0 <= j < records.len() ==> !(#[trigger] records[j].name@ == name && query_type_code(
                records[j].record_type,
            ) == query_type),
    decreases records.len(),
{
    if records.len() > 0 && !answers(records[0], name, query_type) {
        let rest = records.drop_first();
        law_first_matching_record_answers(rest, name, query_type);
        if first_match(records, name, query_type) is Some {
            let i = choose|i: int|
                0 <= i < rest.len() && rest[i] == first_match(records, name, query_type)->Some_0
                    && rest[i].name@ == name && query_type_code(rest[i].record_type) == query_type
                    && forall|j: int|
                    0 <= j < i ==> !(#[trigger] rest[j].name@ == name && query_type_code(
                        rest[j].record_type,
                    ) == query_type);
            assert(records[i + 1] == rest[i]);
            assert forall|j: int| 0 <= j < i + 1 implies !(#[trigger] records[j].name@ == name
                && query_type_code(records[j].record_type) == query_type) by {
                if j > 0 {
                    assert(records[j] == rest[j - 1]);
                }
            }
        } else {
            assert forall|j: int| 0 <= j < records.len() implies !(#[trigger] records[j].name@
                == name && query_type_code(records[j].record_type) == query_type) by {
                if j > 0 {
                    assert(records[j] == rest[j - 1]);
                }
            }
        }
    }
}

/// A registered name asked for a type it has no record of, or asked for in
/// a class other than IN, gets the question echoed under a response header
/// with no answer record.
pub proof fn law_no_answer_record_without_match(request: Seq<u8>, records: Seq<DnsRecord>)
    requires
        question_spec(request) is Ok,
        has_name(records, question_spec(request)->Ok_0.0),
        first_match(records, question_spec(request)->Ok_0.0, question_spec(request)->Ok_0.2) is None
            || question_spec(request)->Ok_0.3 != 1,
    ensures
        ({
            let end = question_spec(request)->Ok_0.1;
            &&& local_response_spec(request, records) matches Ok(Some(response))
            &&& response.len() == end
            &&& response[0] == request[0] && response[1] == request[1]
            &&& response[2] == (0x84u8 | (request[2] & 0x01u8)) && response[3] == 0
            &&& response[6] == 0 && response[7] == 0
            &&& response.subrange(12, end) == request.subrange(12, end)
        }),
{
    lemma_question_bounds(request);
    lemma_echoed_header(request, question_spec(request)->Ok_0.1, false);
}

} // verus!
