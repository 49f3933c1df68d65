use autobricks_dns::address::IpAddress;
use autobricks_dns::config::{DnsRecord, RecordType};
use autobricks_dns::dns::{
    local_response, negative_response, question, read_u16, resolve, set_header, DnsError,
    Resolution,
};

fn query(name: &str, query_type: u16) -> Vec<u8> {
    let mut value = vec![0x12, 0x34, 0x01, 0x00, 0x00, 0x01, 0, 0, 0, 0, 0, 0];
    for label in name.split('.') {
        value.push(u8::try_from(label.len()).unwrap());
        value.extend_from_slice(label.as_bytes());
    }
    value.push(0);
    value.extend_from_slice(&query_type.to_be_bytes());
    value.extend_from_slice(&1_u16.to_be_bytes());
    value
}

fn records() -> Vec<DnsRecord> {
    vec![DnsRecord {
        name: "pki.autobricks.internal".to_owned(),
        record_type: RecordType::A,
        ip: IpAddress::V4([10, 10, 254, 2]),
    }]
}

#[test]
fn returns_configured_ipv4_for_internal_name() {
    let response = local_response(&query("pki.autobricks.internal", 1), &records())
        .unwrap()
        .expect("configured response is missing");
    assert_eq!(read_u16(&response, 6).unwrap(), 1);
    assert!(response.ends_with(&[10, 10, 254, 2]));
}

#[test]
fn forwards_name_outside_internal_registry() {
    assert!(local_response(&query("example.com", 1), &records()).unwrap().is_none());
}

#[test]
fn returns_empty_ipv6_answer_for_known_internal_name() {
    let response = local_response(&query("pki.autobricks.internal", 28), &records())
        .unwrap()
        .expect("configured response is missing");
    assert_eq!(read_u16(&response, 6).unwrap(), 0);
}

#[test]
fn returns_configured_ipv6_for_aaaa_record() {
    let localhost = [0, 0, 0, 0, 0, 0, 0, 0, 0, 0, 0, 0, 0, 0, 0, 1];
    let records = vec![DnsRecord {
        name: "ipv6.autobricks.internal".to_owned(),
        record_type: RecordType::Aaaa,
        ip: IpAddress::V6(localhost),
    }];
    let response = local_response(&query("ipv6.autobricks.internal", 28), &records)
        .unwrap()
        .expect("configured response is missing");
    assert_eq!(read_u16(&response, 6).unwrap(), 1);
    assert!(response.ends_with(&localhost));
}

#[test]
fn returns_nxdomain_when_upstream_is_not_configured() {
    let response = negative_response(&query("unregistered.example", 1)).unwrap();
    let flags = *response.get(3).expect("DNS response flags are missing");
    assert_eq!(flags & 0x0f, 3);
    assert_eq!(read_u16(&response, 6).unwrap(), 0);
}

#[test]
fn answer_section_is_exact() {
    let request = query("pki.autobricks.internal", 1);
    let response = local_response(&request, &records()).unwrap().unwrap();
    let end = request.len();
    assert_eq!(&response[..2], &request[..2]);
    assert_eq!(response[2], 0x84 | (request[2] & 0x01));
    assert_eq!(response[3], 0);
    assert_eq!(&response[4..12], &[0, 1, 0, 1, 0, 0, 0, 0]);
    assert_eq!(&response[12..end], &request[12..end]);
    assert_eq!(
        &response[end..],
        &[0xc0, 0x0c, 0, 1, 0, 1, 0, 0, 0, 60, 0, 4, 10, 10, 254, 2]
    );
}

#[test]
fn question_lowercases_labels_and_reports_position() {
    let request = query("PKI.AutoBricks.Internal", 28);
    let (name, end, query_type, query_class) = question(&request).unwrap();
    assert_eq!(name, "pki.autobricks.internal");
    assert_eq!(end, request.len());
    assert_eq!(query_type, 28);
    assert_eq!(query_class, 1);
    let response = local_response(&request, &records()).unwrap().unwrap();
    assert_eq!(read_u16(&response, 6).unwrap(), 0);
}

#[test]
fn answer_omitted_outside_class_in() {
    let mut request = query("pki.autobricks.internal", 1);
    let n = request.len();
    request[n - 1] = 3;
    let response = local_response(&request, &records()).unwrap().unwrap();
    assert_eq!(response.len(), request.len());
    assert_eq!(read_u16(&response, 6).unwrap(), 0);
}

#[test]
fn first_matching_record_answers() {
    let records = vec![
        DnsRecord {
            name: "a.internal".to_owned(),
            record_type: RecordType::A,
            ip: IpAddress::V4([1, 2, 3, 4]),
        },
        DnsRecord {
            name: "a.internal".to_owned(),
            record_type: RecordType::A,
            ip: IpAddress::V4([5, 6, 7, 8]),
        },
    ];
    let response = local_response(&query("a.internal", 1), &records).unwrap().unwrap();
    assert!(response.ends_with(&[1, 2, 3, 4]));
}

#[test]
fn question_errors() {
    assert_eq!(question(&[0; 11]), Err(DnsError::OneQuestionRequired));
    let mut two = query("a.b", 1);
    two[5] = 2;
    assert_eq!(question(&two), Err(DnsError::OneQuestionRequired));
    let header = vec![0, 0, 0, 0, 0, 1, 0, 0, 0, 0, 0, 0];
    assert_eq!(question(&header), Err(DnsError::NameIncomplete));
    let mut compressed = header.clone();
    compressed.extend_from_slice(&[0xc0, 0x0c, 0, 1, 0, 1]);
    assert_eq!(question(&compressed), Err(DnsError::CompressedName));
    let mut short_label = header.clone();
    short_label.extend_from_slice(&[5, b'a', b'b']);
    assert_eq!(question(&short_label), Err(DnsError::LabelIncomplete));
    let mut bad_utf8 = header.clone();
    bad_utf8.extend_from_slice(&[1, 0xff, 0, 0, 1, 0, 1]);
    let invalid = question(&bad_utf8).unwrap_err();
    assert_eq!(
        invalid,
        DnsError::InvalidLabel("invalid utf-8 sequence of 1 bytes from index 0".to_string())
    );
    assert_eq!(invalid.message(), "invalid utf-8 sequence of 1 bytes from index 0");
    let mut cut_utf8 = header.clone();
    cut_utf8.extend_from_slice(&[2, b'a', 0xc3, 0, 0, 1, 0, 1]);
    assert_eq!(
        question(&cut_utf8).unwrap_err().message(),
        "incomplete utf-8 byte sequence from index 1"
    );
    let mut no_type = header.clone();
    no_type.extend_from_slice(&[1, b'a', 0, 0]);
    assert_eq!(question(&no_type), Err(DnsError::FieldIncomplete));
    let mut no_class = header.clone();
    no_class.extend_from_slice(&[1, b'a', 0, 0, 1, 0]);
    assert_eq!(question(&no_class), Err(DnsError::FieldIncomplete));
    assert_eq!(DnsError::CompressedName.message(), "compressed or invalid DNS question is unsupported");
}

#[test]
fn read_u16_reads_big_endian() {
    assert_eq!(read_u16(&[0x12, 0x34, 0x56], 1), Ok(0x3456));
    assert_eq!(read_u16(&[0x12, 0x34], 1), Err(DnsError::FieldIncomplete));
    assert_eq!(read_u16(&[0x12], 5), Err(DnsError::FieldIncomplete));
}

#[test]
fn set_header_writes_fields_until_the_bytes_end() {
    let mut full = vec![0xaa; 14];
    assert_eq!(set_header(&mut full, true), Ok(()));
    assert_eq!(
        full,
        vec![0xaa, 0xaa, 0x84, 0, 0xaa, 0xaa, 0, 1, 0, 0, 0, 0, 0xaa, 0xaa]
    );
    let mut short = vec![0x01; 9];
    assert_eq!(set_header(&mut short, false), Err(DnsError::HeaderIncomplete));
    assert_eq!(short, vec![0x01, 0x01, 0x85, 0, 0x01, 0x01, 0, 0, 0]);
    let mut tiny = vec![7, 7];
    assert_eq!(set_header(&mut tiny, false), Err(DnsError::HeaderIncomplete));
    assert_eq!(tiny, vec![7, 7]);
}

#[test]
fn resolve_decides_between_local_forward_and_nxdomain() {
    let records = records();
    match resolve(&query("pki.autobricks.internal", 1), &records, true) {
        Resolution::Reply(response) => assert!(response.ends_with(&[10, 10, 254, 2])),
        other => panic!("unexpected {:?}", other),
    }
    match resolve(&query("pki.autobricks.internal", 28), &records, true) {
        Resolution::Reply(response) => assert_eq!(read_u16(&response, 6).unwrap(), 0),
        other => panic!("unexpected {:?}", other),
    }
    assert!(matches!(
        resolve(&query("example.com", 1), &records, true),
        Resolution::Forward
    ));
    match resolve(&query("example.com", 1), &records, false) {
        Resolution::Reply(response) => assert_eq!(response[3] & 0x0f, 3),
        other => panic!("unexpected {:?}", other),
    }
    assert!(matches!(
        resolve(&[0; 4], &records, true),
        Resolution::Discard(DnsError::OneQuestionRequired)
    ));
}
