use autobricks_dns::address::{IpAddress, SocketAddress};
use autobricks_dns::config::{validate, DnsConfig, DnsRecord, RecordType};
use autobricks_dns::control::{
    add, apply_request, delete, ensure_success, error_response, frame_accepted, list,
    listed_records, restart, success, Outcome, Request, Response,
};
use autobricks_dns::ini_config::{encode_ini, finish_config, parse_ini, AddressText, ParsedAddress};

fn fixture() -> DnsConfig {
    DnsConfig {
        bind: SocketAddress::V4 { ip: [127, 0, 0, 1], port: 5353 },
        upstream: None,
        records: vec![DnsRecord {
            name: "pki.autobricks.internal".to_owned(),
            record_type: RecordType::A,
            ip: IpAddress::V4([10, 10, 254, 1]),
        }],
    }
}

fn render_ip(ip: &IpAddress) -> String {
    match ip {
        IpAddress::V4(octets) => format!("{}.{}.{}.{}", octets[0], octets[1], octets[2], octets[3]),
        IpAddress::V6(_) => panic!("only IPv4 records in these tests"),
    }
}

fn read_ip(text: &str) -> IpAddress {
    let parts: Vec<u8> = text.split('.').map(|part| part.parse().unwrap()).collect();
    IpAddress::V4([parts[0], parts[1], parts[2], parts[3]])
}

/// Stores a configuration as its INI text, as the service does.
fn store(configuration: &DnsConfig) -> String {
    let addresses = configuration.records.iter().map(|record| render_ip(&record.ip)).collect();
    encode_ini(configuration, "127.0.0.1:5353", None, &addresses)
}

/// Loads a configuration from its INI text, as the service does.
fn load(text: &str) -> DnsConfig {
    let outline = parse_ini(text);
    let parsed = outline
        .entries
        .iter()
        .map(|entry| match entry {
            AddressText::Bind(_) | AddressText::Upstream(_) => {
                ParsedAddress::Socket(SocketAddress::V4 { ip: [127, 0, 0, 1], port: 5353 })
            }
            AddressText::Record { value, .. } => ParsedAddress::Ip(read_ip(value)),
        })
        .collect();
    let mut configuration = finish_config(outline, parsed).unwrap();
    validate(&mut configuration).unwrap();
    configuration
}

/// Applies a request to the stored text and stores what it saves.
fn apply_stored(stored: &mut String, request: Request) -> (Response, bool) {
    match apply_request(load(stored), request) {
        Outcome::Reply(response) => (response, false),
        Outcome::Save { configuration, response } => {
            *stored = store(&configuration);
            (response, false)
        }
        Outcome::Restart(response) => (response, true),
    }
}

#[test]
fn add_and_delete_persist_configuration() {
    let mut stored = store(&fixture());
    let record = DnsRecord {
        name: "CADDY.AUTOBRICKS.INTERNAL".to_owned(),
        record_type: RecordType::A,
        ip: IpAddress::V4([10, 10, 254, 20]),
    };
    assert_eq!(apply_stored(&mut stored, Request::Add { record }).0.result, "ADDED");
    assert!(load(&stored)
        .records
        .iter()
        .any(|value| value.name == "caddy.autobricks.internal"));
    assert_eq!(
        apply_stored(
            &mut stored,
            Request::Delete { name: "caddy.autobricks.internal".to_owned() }
        )
        .0
        .result,
        "DELETED"
    );
    assert!(!load(&stored)
        .records
        .iter()
        .any(|value| value.name == "caddy.autobricks.internal"));
}

#[test]
fn restart_sets_stop_after_response_is_prepared() {
    let mut stored = store(&fixture());
    let (response, stop) = apply_stored(&mut stored, Request::Restart);
    assert_eq!(response.result, "RESTARTING");
    assert!(stop);
}

#[test]
fn adding_an_existing_record_is_unchanged_or_conflicting() {
    let same = DnsRecord {
        name: "PKI.autobricks.internal".to_owned(),
        record_type: RecordType::A,
        ip: IpAddress::V4([10, 10, 254, 1]),
    };
    match apply_request(fixture(), Request::Add { record: same }) {
        Outcome::Reply(response) => {
            assert!(response.ok);
            assert_eq!(response.result, "UNCHANGED");
        }
        other => panic!("unexpected {:?}", other),
    }
    let other_ip = DnsRecord {
        name: "pki.autobricks.internal".to_owned(),
        record_type: RecordType::A,
        ip: IpAddress::V4([10, 10, 254, 9]),
    };
    match apply_request(fixture(), Request::Add { record: other_ip }) {
        Outcome::Reply(response) => {
            assert!(!response.ok);
            assert_eq!(response.result, "CONFLICT");
            assert_eq!(
                response.detail.as_deref(),
                Some("record name and type already exist with a different IP")
            );
        }
        other => panic!("unexpected {:?}", other),
    }
}

#[test]
fn added_record_is_appended_after_the_others() {
    let record = DnsRecord {
        name: "Cache.Internal".to_owned(),
        record_type: RecordType::A,
        ip: IpAddress::V4([10, 0, 0, 20]),
    };
    match apply_request(fixture(), Request::Add { record }) {
        Outcome::Save { configuration, response } => {
            assert_eq!(response.result, "ADDED");
            assert_eq!(configuration.records.len(), 2);
            assert_eq!(configuration.records[0].name, "pki.autobricks.internal");
            assert_eq!(configuration.records[1].name, "cache.internal");
        }
        other => panic!("unexpected {:?}", other),
    }
}

#[test]
fn add_with_invalid_name_fails_validation() {
    let record = DnsRecord {
        name: "bad_name".to_owned(),
        record_type: RecordType::A,
        ip: IpAddress::V4([10, 0, 0, 20]),
    };
    match apply_request(fixture(), Request::Add { record }) {
        Outcome::Reply(response) => {
            assert_eq!(response.result, "FAILED");
            assert_eq!(response.detail.as_deref(), Some("invalid DNS record name bad_name"));
        }
        other => panic!("unexpected {:?}", other),
    }
}

#[test]
fn delete_removes_all_types_of_a_name() {
    let mut configuration = fixture();
    configuration.records.push(DnsRecord {
        name: "pki.autobricks.internal".to_owned(),
        record_type: RecordType::Aaaa,
        ip: IpAddress::V6([0; 16]),
    });
    configuration.records.push(DnsRecord {
        name: "other.internal".to_owned(),
        record_type: RecordType::A,
        ip: IpAddress::V4([1, 1, 1, 1]),
    });
    match apply_request(configuration, Request::Delete { name: "PKI.AUTOBRICKS.INTERNAL".to_owned() }) {
        Outcome::Save { configuration, response } => {
            assert_eq!(response.result, "DELETED");
            assert_eq!(configuration.records.len(), 1);
            assert_eq!(configuration.records[0].name, "other.internal");
        }
        other => panic!("unexpected {:?}", other),
    }
    match apply_request(fixture(), Request::Delete { name: "missing.internal".to_owned() }) {
        Outcome::Reply(response) => {
            assert_eq!(response.result, "NOT_FOUND");
            assert_eq!(response.detail.as_deref(), Some("record does not exist"));
        }
        other => panic!("unexpected {:?}", other),
    }
}

#[test]
fn list_returns_the_records() {
    match apply_request(fixture(), list()) {
        Outcome::Reply(response) => {
            assert!(response.ok);
            assert_eq!(response.result, "LISTED");
            let records = listed_records(response).unwrap();
            assert_eq!(records.len(), 1);
            assert_eq!(records[0].name, "pki.autobricks.internal");
        }
        other => panic!("unexpected {:?}", other),
    }
}

#[test]
fn client_requests_and_replies() {
    assert!(matches!(restart(), Request::Restart));
    assert!(matches!(delete("a".to_owned()), Request::Delete { name } if name == "a"));
    let record = DnsRecord {
        name: "a".to_owned(),
        record_type: RecordType::A,
        ip: IpAddress::V4([1, 2, 3, 4]),
    };
    assert!(matches!(add(record), Request::Add { .. }));
    assert_eq!(ensure_success(success("DELETED", None)), Ok(()));
    assert_eq!(
        ensure_success(error_response("NOT_FOUND", "record does not exist")),
        Err("record does not exist".to_owned())
    );
    let bare = Response { ok: false, result: "FAILED".to_owned(), records: None, detail: None };
    assert_eq!(ensure_success(bare), Err("FAILED".to_owned()));
    assert_eq!(
        listed_records(success("LISTED", None)).unwrap_err(),
        "DNS control response is missing records"
    );
}

#[test]
fn frames_are_bounded_lines() {
    assert!(frame_accepted(5, "LIST\n"));
    assert!(!frame_accepted(0, ""));
    assert!(!frame_accepted(4, "LIST"));
    assert!(!frame_accepted(1048577, "x\n"));
    assert!(frame_accepted(1048576, "x\n"));
}

#[test]
fn deleted_name_leaves_the_written_file() {
    let mut configuration = fixture();
    configuration.records.push(DnsRecord {
        name: "other.internal".to_owned(),
        record_type: RecordType::A,
        ip: IpAddress::V4([1, 1, 1, 1]),
    });
    let mut stored = store(&configuration);
    assert!(stored.contains("\n[pki.autobricks.internal]\n"));
    let (response, _) = apply_stored(
        &mut stored,
        Request::Delete { name: "PKI.Autobricks.Internal".to_owned() },
    );
    assert_eq!(response.result, "DELETED");
    assert!(!stored.contains("[pki.autobricks.internal]"));
    assert_eq!(
        stored,
        "[server]\nbind = 127.0.0.1:5353\n\n[other.internal]\nA = 1.1.1.1\n"
    );
}

#[test]
fn added_record_is_written_last_in_its_section() {
    let mut stored = store(&fixture());
    let record = DnsRecord {
        name: "PKI.AUTOBRICKS.INTERNAL".to_owned(),
        record_type: RecordType::Aaaa,
        ip: IpAddress::V6([0; 16]),
    };
    let mut configuration = load(&stored);
    match apply_request(configuration, Request::Add { record }) {
        Outcome::Save { configuration: saved, response } => {
            assert_eq!(response.result, "ADDED");
            configuration = saved;
        }
        other => panic!("unexpected {:?}", other),
    }
    let addresses = vec!["10.10.254.1".to_owned(), "::".to_owned()];
    stored = encode_ini(&configuration, "127.0.0.1:5353", None, &addresses);
    assert_eq!(
        stored,
        "[server]\nbind = 127.0.0.1:5353\n\n[pki.autobricks.internal]\nA = 10.10.254.1\nAAAA = ::\n"
    );
}
