use autobricks_dns::address::{IpAddress, SocketAddress};
use autobricks_dns::config::{
    config_error_message, valid_name, validate, ConfigError, DnsConfig, DnsRecord, RecordType,
};
use autobricks_dns::ini_config::{
    encode_ini, finish_config, parse_ini, AddressText, IniError, ParsedAddress,
};

fn configuration() -> DnsConfig {
    DnsConfig {
        bind: SocketAddress::V4 { ip: [127, 0, 0, 1], port: 5353 },
        upstream: Some(SocketAddress::V4 { ip: [8, 8, 8, 8], port: 53 }),
        records: vec![DnsRecord {
            name: "PKI.AUTOBRICKS.INTERNAL".to_owned(),
            record_type: RecordType::A,
            ip: IpAddress::V4([10, 10, 254, 2]),
        }],
    }
}

/// Reads the address texts these tests use, as the service reads them.
fn read_address(entry: &AddressText) -> ParsedAddress {
    match entry {
        AddressText::Bind(text) | AddressText::Upstream(text) => match text.as_str() {
            "127.0.0.1:5353" => ParsedAddress::Socket(SocketAddress::V4 { ip: [127, 0, 0, 1], port: 5353 }),
            "8.8.8.8:53" => ParsedAddress::Socket(SocketAddress::V4 { ip: [8, 8, 8, 8], port: 53 }),
            _ => ParsedAddress::Invalid("invalid socket address syntax".to_owned()),
        },
        AddressText::Record { value, .. } => match value.as_str() {
            "10.10.254.2" => ParsedAddress::Ip(IpAddress::V4([10, 10, 254, 2])),
            "10.10.254.1" => ParsedAddress::Ip(IpAddress::V4([10, 10, 254, 1])),
            "fd00::2" => ParsedAddress::Ip(IpAddress::V6([0xfd, 0, 0, 0, 0, 0, 0, 0, 0, 0, 0, 0, 0, 0, 0, 2])),
            _ => ParsedAddress::Invalid("invalid IP address syntax".to_owned()),
        },
    }
}

fn load(source: &str) -> Result<DnsConfig, IniError> {
    let outline = parse_ini(source);
    let parsed = outline.entries.iter().map(read_address).collect();
    finish_config(outline, parsed)
}

#[test]
fn normalizes_and_accepts_exact_records() {
    let mut value = configuration();
    validate(&mut value).unwrap();
    let name = value
        .records
        .first()
        .map(|record| record.name.as_str())
        .expect("normalized test record is missing");
    assert_eq!(name, "pki.autobricks.internal");
}

#[test]
fn rejects_duplicate_records() {
    let mut value = configuration();
    value.records.push(DnsRecord {
        name: "pki.autobricks.internal".to_owned(),
        record_type: RecordType::A,
        ip: IpAddress::V4([10, 10, 254, 3]),
    });
    assert!(validate(&mut value).is_err());
}

#[test]
fn parses_ini_configuration() {
    let mut value = load(
        "[server]\nbind = 127.0.0.1:5353\nupstream = 8.8.8.8:53\n\
         \n[PKI.AUTOBRICKS.INTERNAL]\nA = 10.10.254.2\nAAAA = fd00::2\n",
    )
    .unwrap();
    validate(&mut value).unwrap();
    assert_eq!(value.records.len(), 2);
    assert_eq!(value.records[0].name, "pki.autobricks.internal");
    assert_eq!(value.records[1].record_type, RecordType::Aaaa);
}

#[test]
fn rejects_unknown_ini_configuration_keys() {
    let ini = "[server]\nbind = 127.0.0.1:5353\nunexpected = true\n\
               \n[pki.autobricks.internal]\nCNAME = target.autobricks.internal\n";
    assert!(load(ini).is_err());
}

#[test]
fn rejects_record_type_and_ip_mismatch() {
    let mut value = configuration();
    let record = value.records.first_mut().expect("test record is missing");
    record.record_type = RecordType::Aaaa;
    assert!(validate(&mut value).is_err());
}

#[test]
fn accepts_configuration_without_upstream() {
    let mut value = configuration();
    value.upstream = None;
    validate(&mut value).unwrap();
}

#[test]
fn accepts_configuration_without_local_records() {
    let mut value = configuration();
    value.records.clear();
    validate(&mut value).unwrap();
}

#[test]
fn validate_reports_each_problem() {
    let mut looped = configuration();
    looped.upstream = Some(looped.bind);
    assert_eq!(validate(&mut looped), Err(ConfigError::UpstreamIsBind));
    assert_eq!(looped.records[0].name, "PKI.AUTOBRICKS.INTERNAL");

    let mut bad_name = configuration();
    bad_name.records[0].name = "-bad.internal".to_owned();
    assert_eq!(validate(&mut bad_name), Err(ConfigError::InvalidName { index: 0 }));
    assert_eq!(
        config_error_message(ConfigError::InvalidName { index: 0 }, &bad_name.records),
        "invalid DNS record name -bad.internal"
    );

    let mut duplicate = configuration();
    duplicate.records.push(DnsRecord {
        name: "Pki.Autobricks.Internal".to_owned(),
        record_type: RecordType::A,
        ip: IpAddress::V4([10, 10, 254, 3]),
    });
    assert_eq!(validate(&mut duplicate), Err(ConfigError::DuplicateRecord { index: 1 }));
    assert_eq!(duplicate.records[1].name, "pki.autobricks.internal");
    assert_eq!(
        config_error_message(ConfigError::DuplicateRecord { index: 1 }, &duplicate.records),
        "duplicate DNS record name and type pki.autobricks.internal A"
    );

    let mut mismatch = configuration();
    mismatch.records[0].ip = IpAddress::V6([0; 16]);
    assert_eq!(validate(&mut mismatch), Err(ConfigError::TypeMismatch { index: 0 }));

    let mut same_name_other_type = configuration();
    same_name_other_type.records.push(DnsRecord {
        name: "pki.autobricks.internal".to_owned(),
        record_type: RecordType::Aaaa,
        ip: IpAddress::V6([0; 16]),
    });
    assert_eq!(validate(&mut same_name_other_type), Ok(()));
}

#[test]
fn valid_name_checks_each_label() {
    assert!(valid_name("pki.autobricks.internal"));
    assert!(valid_name("a-b.c1"));
    assert!(!valid_name(""));
    assert!(!valid_name("a..b"));
    assert!(!valid_name("a."));
    assert!(!valid_name("-a.b"));
    assert!(!valid_name("a-.b"));
    assert!(!valid_name("A.b"));
    assert!(!valid_name("a_b"));
    assert!(valid_name(&"a".repeat(63)));
    assert!(!valid_name(&"a".repeat(64)));
    let long = vec!["a".repeat(63); 4].join(".");
    assert_eq!(long.len(), 255);
    assert!(!valid_name(&long));
    assert!(valid_name(&long[..253]));
}

#[test]
fn parse_ini_reports_structure_problems() {
    assert!(matches!(load("[server"), Err(IniError::Syntax(_))));
    let refusal = parse_ini("[server").error.unwrap().message();
    assert_eq!(refusal, ini::Ini::load_from_str("[server").unwrap_err().to_string());
    assert!(refusal.starts_with("1:"));
    assert!(matches!(load("[other]\nA = 10.10.254.2\n"), Err(IniError::MissingServer)));
    assert!(matches!(load("[server]\nupstream = 8.8.8.8:53\n"), Err(IniError::MissingBind)));
    assert!(matches!(
        load("top = 1\n[server]\nbind = 127.0.0.1:5353\n"),
        Err(IniError::TopLevelKeys)
    ));
    match load("[server]\nbind = 127.0.0.1:5353\n[Host.Internal]\nMX = 10.10.254.2\n") {
        Err(IniError::UnknownRecordKey { section }) => assert_eq!(section, "Host.Internal"),
        other => panic!("unexpected {:?}", other),
    }
    assert!(matches!(
        load("[server]\nbind = nowhere\n[h]\nMX = x\n"),
        Err(IniError::InvalidBind(_))
    ));
    assert!(matches!(
        load("[server]\nbind = 127.0.0.1:5353\nupstream = nowhere\n"),
        Err(IniError::InvalidUpstream(_))
    ));
    assert!(matches!(
        load("[server]\nbind = 127.0.0.1:5353\n[h]\nA = x\nMX = y\n"),
        Err(IniError::InvalidRecordIp(_))
    ));
    let without_upstream = load("[server]\nbind = 127.0.0.1:5353\nupstream =\n").unwrap();
    assert!(without_upstream.upstream.is_none());
    assert_eq!(
        IniError::UnknownRecordKey { section: "h".to_owned() }.message(),
        "DNS INI section [h] only accepts A and AAAA keys"
    );
}

#[test]
fn parse_ini_lists_address_texts_in_file_order() {
    let outline = parse_ini(
        "[server]\nbind = 127.0.0.1:5353\nupstream = 8.8.8.8:53\n[b]\nA = 10.10.254.1\n[a]\nAAAA = fd00::2\nA = 10.10.254.2\n",
    );
    assert!(outline.error.is_none());
    let texts: Vec<String> = outline
        .entries
        .iter()
        .map(|entry| match entry {
            AddressText::Bind(text) => format!("bind {}", text),
            AddressText::Upstream(text) => format!("upstream {}", text),
            AddressText::Record { name, record_type, value } => {
                format!("{} {:?} {}", name, record_type, value)
            }
        })
        .collect();
    assert_eq!(
        texts,
        vec![
            "bind 127.0.0.1:5353",
            "upstream 8.8.8.8:53",
            "b A 10.10.254.1",
            "a Aaaa fd00::2",
            "a A 10.10.254.2",
        ]
    );
}

#[test]
fn encode_ini_groups_records_by_sorted_name() {
    let value = DnsConfig {
        bind: SocketAddress::V4 { ip: [127, 0, 0, 1], port: 5353 },
        upstream: None,
        records: vec![
            DnsRecord { name: "b.internal".to_owned(), record_type: RecordType::A, ip: IpAddress::V4([10, 10, 254, 1]) },
            DnsRecord { name: "a.internal".to_owned(), record_type: RecordType::Aaaa, ip: IpAddress::V6([0; 16]) },
            DnsRecord { name: "b.internal".to_owned(), record_type: RecordType::Aaaa, ip: IpAddress::V6([0; 16]) },
            DnsRecord { name: "a.internal".to_owned(), record_type: RecordType::A, ip: IpAddress::V4([10, 10, 254, 2]) },
        ],
    };
    let addresses = vec![
        "10.10.254.1".to_owned(),
        "fd00::2".to_owned(),
        "::".to_owned(),
        "10.10.254.2".to_owned(),
    ];
    let text = encode_ini(&value, "127.0.0.1:5353", None, &addresses);
    assert_eq!(
        text,
        "[server]\nbind = 127.0.0.1:5353\n\n[a.internal]\nAAAA = fd00::2\nA = 10.10.254.2\n\n[b.internal]\nA = 10.10.254.1\nAAAA = ::\n"
    );
    let with_upstream = encode_ini(&configuration(), "127.0.0.1:5353", Some("8.8.8.8:53"), &vec!["10.10.254.2".to_owned()]);
    assert_eq!(
        with_upstream,
        "[server]\nbind = 127.0.0.1:5353\nupstream = 8.8.8.8:53\n\n[PKI.AUTOBRICKS.INTERNAL]\nA = 10.10.254.2\n"
    );
}

#[test]
fn encoded_configuration_reads_back() {
    let mut value = configuration();
    validate(&mut value).unwrap();
    let text = encode_ini(&value, "127.0.0.1:5353", Some("8.8.8.8:53"), &vec!["10.10.254.2".to_owned()]);
    let mut again = load(&text).unwrap();
    validate(&mut again).unwrap();
    assert_eq!(again.records.len(), 1);
    assert_eq!(again.records[0].name, "pki.autobricks.internal");
    assert!(again.upstream.is_some());
}

#[test]
fn validating_a_valid_configuration_changes_nothing() {
    let mut value = configuration();
    validate(&mut value).unwrap();
    let names: Vec<String> = value.records.iter().map(|record| record.name.clone()).collect();
    validate(&mut value).unwrap();
    let again: Vec<String> = value.records.iter().map(|record| record.name.clone()).collect();
    assert_eq!(names, again);
    assert_eq!(again, vec!["pki.autobricks.internal".to_owned()]);
}

#[test]
fn written_configuration_reads_back_grouped_by_name() {
    let value = DnsConfig {
        bind: SocketAddress::V4 { ip: [127, 0, 0, 1], port: 5353 },
        upstream: None,
        records: vec![
            DnsRecord {
                name: "zeta.internal".to_owned(),
                record_type: RecordType::A,
                ip: IpAddress::V4([10, 10, 254, 2]),
            },
            DnsRecord {
                name: "alpha.internal".to_owned(),
                record_type: RecordType::A,
                ip: IpAddress::V4([10, 10, 254, 1]),
            },
            DnsRecord {
                name: "zeta.internal".to_owned(),
                record_type: RecordType::Aaaa,
                ip: IpAddress::V6([0xfd, 0, 0, 0, 0, 0, 0, 0, 0, 0, 0, 0, 0, 0, 0, 2]),
            },
        ],
    };
    let addresses = vec!["10.10.254.2".to_owned(), "10.10.254.1".to_owned(), "fd00::2".to_owned()];
    let text = encode_ini(&value, "127.0.0.1:5353", None, &addresses);
    let document = ini::Ini::load_from_str(&text).unwrap();
    let sections: Vec<Option<&str>> = document.iter().map(|(name, _)| name).collect();
    assert_eq!(sections, vec![None, Some("server"), Some("alpha.internal"), Some("zeta.internal")]);
    let zeta: Vec<(&str, &str)> = document.section(Some("zeta.internal")).unwrap().iter().collect();
    assert_eq!(zeta, vec![("A", "10.10.254.2"), ("AAAA", "fd00::2")]);
    let again = load(&text).unwrap();
    assert_eq!(format!("{:?}", again.bind), format!("{:?}", value.bind));
    assert!(again.upstream.is_none());
    let grouped = vec![value.records[1].clone(), value.records[0].clone(), value.records[2].clone()];
    assert_eq!(format!("{:?}", again.records), format!("{:?}", grouped));
    let mut checked = again;
    assert_eq!(validate(&mut checked), Ok(()));
    assert_eq!(format!("{:?}", checked.records), format!("{:?}", grouped));
}
