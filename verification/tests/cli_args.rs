use autobricks_dns::address::IpAddress;
use autobricks_dns::cli::{
    add_record, parse_arguments, record_type, required, usage, CliError, Command, Flag, Mode,
};
use autobricks_dns::config::RecordType;

fn arguments(values: &[&str]) -> Vec<String> {
    values.iter().map(|value| value.to_string()).collect()
}

#[test]
fn parses_a_record_type() {
    assert_eq!(record_type("A").unwrap(), RecordType::A);
    assert!(record_type("MX").is_err());
}

#[test]
fn modes_and_commands() {
    assert!(matches!(parse_arguments(&arguments(&[])), Ok(Mode::Server)));
    assert!(matches!(parse_arguments(&arguments(&["list"])), Ok(Mode::Command(Command::List))));
    assert!(matches!(parse_arguments(&arguments(&["restart"])), Ok(Mode::Command(Command::Restart))));
    assert!(matches!(parse_arguments(&arguments(&["list", "x"])), Err(CliError::Usage)));
    assert!(matches!(parse_arguments(&arguments(&["help"])), Err(CliError::Usage)));
    match parse_arguments(&arguments(&["delete", "--name", "a.internal"])) {
        Ok(Mode::Command(Command::Delete { name })) => assert_eq!(name, "a.internal"),
        other => panic!("unexpected {:?}", other),
    }
    match parse_arguments(&arguments(&["add", "--type", "AAAA", "--ip", "fd00::2", "--name", "a"])) {
        Ok(Mode::Command(Command::Add(add))) => {
            assert_eq!(add.name, "a");
            assert_eq!(add.ip, "fd00::2");
            assert!(matches!(add.record_type, Ok(RecordType::Aaaa)));
            let record = add_record(add, Ok(IpAddress::V6([0; 16]))).unwrap();
            assert_eq!(record.name, "a");
            assert_eq!(record.record_type, RecordType::Aaaa);
        }
        other => panic!("unexpected {:?}", other),
    }
}

#[test]
fn missing_flags_and_values() {
    assert!(matches!(
        parse_arguments(&arguments(&["add", "--ip", "1.2.3.4"])),
        Err(CliError::MissingFlag(Flag::Name))
    ));
    assert!(matches!(
        parse_arguments(&arguments(&["add", "--name", "--ip", "1.2.3.4"])),
        Err(CliError::MissingValue(Flag::Name))
    ));
    assert!(matches!(
        parse_arguments(&arguments(&["delete", "--name"])),
        Err(CliError::MissingValue(Flag::Name))
    ));
    assert!(matches!(
        required(&arguments(&["x", "--ip", "1", "--ip", "2"]), Flag::Ip),
        Ok(value) if value == "1"
    ));
    assert_eq!(
        CliError::MissingFlag(Flag::Type).message(),
        format!("missing required --type\n{}", usage())
    );
}

#[test]
fn invalid_address_is_reported_before_invalid_type() {
    match parse_arguments(&arguments(&["add", "--name", "a", "--ip", "nope", "--type", "MX"])) {
        Ok(Mode::Command(Command::Add(add))) => {
            assert!(matches!(add.record_type, Err(CliError::InvalidType)));
            match add_record(add, Err("invalid IP address syntax".to_owned())) {
                Err(error) => assert_eq!(error.message(), "invalid --ip value: invalid IP address syntax"),
                Ok(_) => panic!("accepted an invalid address"),
            }
        }
        other => panic!("unexpected {:?}", other),
    }
    match parse_arguments(&arguments(&["add", "--name", "a", "--ip", "1.2.3.4", "--type", "MX"])) {
        Ok(Mode::Command(Command::Add(add))) => {
            let error = add_record(add, Ok(IpAddress::V4([1, 2, 3, 4]))).unwrap_err();
            assert_eq!(error.message(), "--type must be A or AAAA");
        }
        other => panic!("unexpected {:?}", other),
    }
}

#[test]
fn usage_lists_the_commands() {
    assert!(usage().starts_with("usage:\n  autobricks-dns\n"));
    assert!(usage().ends_with("autobricks-dns restart"));
}
