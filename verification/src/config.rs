//! The service configuration: local records, their validation, and the INI
//! file that holds them.

use crate::address::{IpAddress, SocketAddress};
use crate::text::{ascii_lower, lemma_ascii_lower_idempotent, to_ascii_lowercase};
use vstd::prelude::*;
use vstd::string::StringSliceAdditionalSpecFns;

verus! {

/// The record types that can be registered locally.
#[derive(Clone, Copy, Debug, PartialEq, Eq, Structural, PartialOrd, Ord, Hash)]
pub enum RecordType {
    A,
    Aaaa,
}

/// A locally registered record: a name, its type and the address it maps to.
#[derive(Debug)]
pub struct DnsRecord {
    pub name: String,
    pub record_type: RecordType,
    pub ip: IpAddress,
}

impl Clone for DnsRecord {
    fn clone(&self) -> (copy: Self)
        ensures
            copy == *self,
    {
        DnsRecord { name: self.name.clone(), record_type: self.record_type, ip: self.ip }
    }
}

/// The whole configuration: where the service listens, where other names are
/// forwarded to, and the local records in file order.
#[derive(Debug)]
pub struct DnsConfig {
    pub bind: SocketAddress,
    pub upstream: Option<SocketAddress>,
    pub records: Vec<DnsRecord>,
}

/// The DNS QTYPE code of a record type: 1 for A, 28 for AAAA.
pub open spec fn query_type_code(record_type: RecordType) -> u16 {
    match record_type {
        RecordType::A => 1,
        RecordType::Aaaa => 28,
    }
}

/// The key under which a record type is written in the INI file.
pub open spec fn ini_name_text(record_type: RecordType) -> Seq<char> {
    match record_type {
        RecordType::A => seq!['A'],
        RecordType::Aaaa => seq!['A', 'A', 'A', 'A'],
    }
}

impl RecordType {
    /// The DNS QTYPE code of this record type.
    pub fn query_type(self) -> (code: u16)
        ensures
            code == query_type_code(self),
    {
        match self {
            RecordType::A => 1,
            RecordType::Aaaa => 28,
        }
    }

    /// The key under which this record type is written in the INI file.
    pub fn ini_name(self) -> (name: &'static str)
        ensures
            name@ == ini_name_text(self),
    {
        match self {
            RecordType::A => {
                proof {
                    reveal_strlit("A");
                }
                "A"
            },
            RecordType::Aaaa => {
                proof {
                    reveal_strlit("AAAA");
                }
                "AAAA"
            },
        }
    }
}


/// Why a configuration is refused.
#[derive(Clone, Copy, Debug, PartialEq, Eq, Structural)]
pub enum ConfigError {
    /// The upstream is the service's own listening address: a forwarding loop.
    UpstreamIsBind,
    /// The record at `index` has a name that is not a valid DNS name.
    InvalidName { index: usize },
    /// The record at `index` repeats the name and type of an earlier record.
    DuplicateRecord { index: usize },
    /// The record at `index` has an address of the other family than its type.
    TypeMismatch { index: usize },
}

/// A byte that may stand in a label: a lower-case ASCII letter, a digit or
/// a hyphen.
pub open spec fn label_byte(byte: u8) -> bool {
    (0x61 <= byte <= 0x7a) || (0x30 <= byte <= 0x39) || byte == 0x2d
}

/// A label of a host name: 1 to 63 allowed bytes, not starting or ending with
/// a hyphen.
pub open spec fn valid_label(label: Seq<u8>) -> bool {
    &&& 0 < label.len() <= 63
    &&& label[0] != 0x2d
    &&& label.last() != 0x2d
    &&& forall|i: int| 0 <= i < label.len() ==> #[trigger] label_byte(label[i])
}

/// The pieces of `bytes` between dots, as `str::split('.')` yields them
/// (an empty input gives one empty piece).
pub open spec fn split_dots(bytes: Seq<u8>) -> Seq<Seq<u8>>
    decreases bytes.len(),
{
    if bytes.len() == 0 {
        seq![Seq::empty()]
    } else {
        let before = split_dots(bytes.drop_last());
        if bytes.last() == 0x2e {
            before.push(Seq::empty())
        } else {
            before.update(before.len() - 1, before.last().push(bytes.last()))
        }
    }
}

/// A host name that may be registered: 1 to 253 bytes, each dot-separated
/// label valid.
pub open spec fn valid_name_bytes(bytes: Seq<u8>) -> bool {
    &&& 0 < bytes.len() <= 253
    &&& forall|k: int| 0 <= k < split_dots(bytes).len() ==> #[trigger] valid_label(split_dots(bytes)[k])
}

/// Whether `bytes[start..end]` is a valid label.
fn check_label(bytes: &[u8], start: usize, end: usize) -> (valid: bool)
    requires
        start <= end <= bytes@.len(),
    ensures
        valid == valid_label(bytes@.subrange(start as int, end as int)),
{
    let ghost label = bytes@.subrange(start as int, end as int);
    if end == start || end - start > 63 {
        return false;
    }
    if bytes[start] == 0x2d || bytes[end - 1] == 0x2d {
        return false;
    }
    let mut i = start;
    while i < end
        invariant
            start <= i <= end <= bytes@.len(),
            label == bytes@.subrange(start as int, end as int),
            forall|k: int| 0 <= k < i - start ==> #[trigger] label_byte(label[k]),
        decreases end - i,
    {
        let byte = bytes[i];
        if !((0x61 <= byte && byte <= 0x7a) || (0x30 <= byte && byte <= 0x39) || byte == 0x2d) {
            assert(!label_byte(label[i - start]));
            return false;
        }
        i = i + 1;
    }
    true
}

/// Whether `value` is a host name that may be registered.
pub fn valid_name(value: &str) -> (valid: bool)
    ensures
        valid == valid_name_bytes(value.spec_bytes()),
{
    let bytes = value.as_bytes();
    let n = bytes.len();
    if n == 0 || n > 253 {
        return false;
    }
    let mut start: usize = 0;
    let mut i: usize = 0;
    assert(bytes@.take(0) =~= Seq::<u8>::empty());
    while i < n
        invariant
            n == bytes@.len(),
            bytes@ == value.spec_bytes(),
            start <= i <= n,
            split_dots(bytes@.take(i as int)).len() > 0,
            split_dots(bytes@.take(i as int)).last() == bytes@.subrange(start as int, i as int),
            forall|k: int|
                0 <= k < split_dots(bytes@.take(i as int)).len() - 1 ==> #[trigger] valid_label(
                    split_dots(bytes@.take(i as int))[k],
                ),
        decreases n - i,
    {
        let ghost pieces = split_dots(bytes@.take(i as int));
        assert(bytes@.take(i + 1).drop_last() =~= bytes@.take(i as int));
        if bytes[i] == 0x2e {
            if !check_label(bytes, start, i) {
                assert(!valid_label(split_dots(bytes@.take(i + 1))[pieces.len() - 1]));
                proof {
                    lemma_invalid_piece_stays(bytes@, i + 1, pieces.len() - 1);
                    assert(!valid_label(split_dots(bytes@)[pieces.len() - 1]));
                }
                return false;
            }
            start = i + 1;
            assert(bytes@.subrange(start as int, i + 1) =~= Seq::<u8>::empty());
        } else {
            assert(bytes@.subrange(start as int, i + 1) =~= bytes@.subrange(start as int, i as int).push(
                bytes@[i as int],
            ));
        }
        i = i + 1;
    }
    assert(bytes@.take(n as int) =~= bytes@);
    check_label(bytes, start, n)
}

/// A piece of a prefix that is followed by a dot stays a piece of the whole.
proof fn lemma_invalid_piece_stays(bytes: Seq<u8>, i: int, k: int)
    requires
        0 <= i <= bytes.len(),
        0 <= k < split_dots(bytes.take(i)).len() - 1,
    ensures
        split_dots(bytes)[k] == split_dots(bytes.take(i))[k],
        k < split_dots(bytes).len() - 1,
    decreases bytes.len() - i,
{
    if i < bytes.len() {
        let longer = bytes.take(i + 1);
        assert(longer.drop_last() =~= bytes.take(i));
        assert(split_dots(longer)[k] == split_dots(bytes.take(i))[k]);
        lemma_invalid_piece_stays(bytes, i + 1, k);
    } else {
        assert(bytes.take(i) =~= bytes);
    }
}


/// A record as a value: its name as characters.
#[verifier::ext_equal]
pub struct RecordView {
    pub name: Seq<char>,
    pub record_type: RecordType,
    pub ip: IpAddress,
}

/// A configuration as a value.
#[verifier::ext_equal]
pub struct ConfigView {
    pub bind: SocketAddress,
    pub upstream: Option<SocketAddress>,
    pub records: Seq<RecordView>,
}

impl View for DnsRecord {
    type V = RecordView;

    open spec fn view(&self) -> RecordView {
        RecordView { name: self.name@, record_type: self.record_type, ip: self.ip }
    }
}

/// The values of a list of records.
pub open spec fn record_views(records: Seq<DnsRecord>) -> Seq<RecordView> {
    records.map_values(|record: DnsRecord| record@)
}

impl View for DnsConfig {
    type V = ConfigView;

    open spec fn view(&self) -> ConfigView {
        ConfigView { bind: self.bind, upstream: self.upstream, records: record_views(self.records@) }
    }
}

/// Whether a record's address is of the family its type asks for.
pub open spec fn type_matches_address(record_type: RecordType, ip: IpAddress) -> bool {
    match (record_type, ip) {
        (RecordType::A, IpAddress::V4(_)) => true,
        (RecordType::Aaaa, IpAddress::V6(_)) => true,
        _ => false,
    }
}

/// A record with its name ASCII lower-cased.
pub open spec fn lowered(record: RecordView) -> RecordView {
    RecordView { name: ascii_lower(record.name), ..record }
}

/// What is wrong with the record at `i`, given the records before it: its
/// lower-cased name is invalid, or repeats an earlier name and type, or its
/// address does not fit its type.
pub open spec fn record_problem(records: Seq<RecordView>, i: int) -> Option<ConfigError> {
    let name = ascii_lower(records[i].name);
    if !valid_name_bytes(vstd::utf8::encode_utf8(name)) {
        Some(ConfigError::InvalidName { index: i as usize })
    } else if exists|j: int|
        0 <= j < i && #[trigger] ascii_lower(records[j].name) == name && records[j].record_type
            == records[i].record_type {
        Some(ConfigError::DuplicateRecord { index: i as usize })
    } else if !type_matches_address(records[i].record_type, records[i].ip) {
        Some(ConfigError::TypeMismatch { index: i as usize })
    } else {
        None
    }
}

/// The first record from `from` on that has a problem, with the problem.
pub open spec fn first_problem(records: Seq<RecordView>, from: int) -> Option<(int, ConfigError)>
    decreases records.len() - from,
{
    if from < 0 || from >= records.len() {
        None
    } else {
        match record_problem(records, from) {
            Some(error) => Some((from, error)),
            None => first_problem(records, from + 1),
        }
    }
}

/// Whether a configuration is accepted, and if not, why.
pub open spec fn validate_spec(config: ConfigView) -> Result<(), ConfigError> {
    if config.upstream == Some(config.bind) {
        Err(ConfigError::UpstreamIsBind)
    } else {
        match first_problem(config.records, 0) {
            Some((_, error)) => Err(error),
            None => Ok(()),
        }
    }
}

/// How many records, from the first, `validate` lower-cases before it stops:
/// all of them when it accepts, up to and including the one it refuses.
pub open spec fn lowered_count(config: ConfigView) -> int {
    if config.upstream == Some(config.bind) {
        0
    } else {
        match first_problem(config.records, 0) {
            Some((index, _)) => index + 1,
            None => config.records.len() as int,
        }
    }
}

/// `config` with the names of its first `count` records lower-cased.
pub open spec fn lower_first(config: ConfigView, count: int) -> ConfigView {
    ConfigView {
        records: Seq::new(
            config.records.len(),
            |i: int| if i < count { lowered(config.records[i]) } else { config.records[i] },
        ),
        ..config
    }
}

/// What `validate` leaves of a configuration.
pub open spec fn validated(config: ConfigView) -> ConfigView {
    lower_first(config, lowered_count(config))
}

/// A problem found at `i` is the first from `from` when none comes before it.
proof fn lemma_first_problem_step(records: Seq<RecordView>, i: int)
    requires
        0 <= i < records.len(),
    ensures
        first_problem(records, i) == match record_problem(records, i) {
            Some(error) => Some((i, error)),
            None => first_problem(records, i + 1),
        },
{
}

/// Checks the configuration and lower-cases the record names in place: the
/// upstream must not be the listening address, and each record in turn must
/// have a valid name, a name and type not used before, and an address of its
/// type's family. It stops at the first record that fails.
pub fn validate(configuration: &mut DnsConfig) -> (result: Result<(), ConfigError>)
    ensures
        result == validate_spec(old(configuration)@),
        final(configuration)@ == validated(old(configuration)@),
{
    let ghost before = configuration@;
    let is_loop = match &configuration.upstream {
        Some(upstream) => upstream.same(&configuration.bind),
        None => false,
    };
    if is_loop {
        assert(configuration@ =~= validated(before));
        return Err(ConfigError::UpstreamIsBind);
    }
    let n = configuration.records.len();
    let mut i: usize = 0;
    assert(configuration@ =~= lower_first(before, 0));
    while i < n
        invariant
            before == old(configuration)@,
            before.upstream != Some(before.bind),
            n == before.records.len(),
            n == configuration.records@.len(),
            i <= n,
            configuration@ == lower_first(before, i as int),
            first_problem(before.records, 0) == first_problem(before.records, i as int),
        decreases n - i,
    {
        proof {
            lemma_first_problem_step(before.records, i as int);
        }
        let ghost previous = configuration.records@;
        assert(record_views(previous)[i as int] == before.records[i as int]);
        let mut record = configuration.records[i].clone();
        record.name = to_ascii_lowercase(record.name.as_str());
        assert(record@ == lowered(before.records[i as int]));
        let valid = valid_name(record.name.as_str());
        configuration.records.set(i, record);
        proof {
            assert forall|k: int| 0 <= k < n implies #[trigger] record_views(
                configuration.records@,
            )[k] == lower_first(before, i + 1).records[k] by {
                if k != i {
                    assert(record_views(previous)[k] == lower_first(before, i as int).records[k]);
                }
            }
            assert(configuration@ =~= lower_first(before, i + 1));
        }
        if !valid {
            return Err(ConfigError::InvalidName { index: i });
        }
        let mut j: usize = 0;
        while j < i
            invariant
                j <= i < n,
                before == old(configuration)@,
                before.upstream != Some(before.bind),
                n == before.records.len(),
                n == configuration.records@.len(),
                first_problem(before.records, 0) == first_problem(before.records, i as int),
                valid_name_bytes(vstd::utf8::encode_utf8(ascii_lower(before.records[i as int].name))),
                configuration@ == lower_first(before, i + 1),
                forall|k: int|
                    0 <= k < j ==> !(ascii_lower(before.records[k].name) == ascii_lower(
                        before.records[i as int].name,
                    ) && before.records[k].record_type == before.records[i as int].record_type),
            decreases i - j,
        {
            assert(configuration.records@[j as int]@ == configuration@.records[j as int]);
            assert(configuration.records@[i as int]@ == configuration@.records[i as int]);
            if configuration.records[j].name == configuration.records[i].name
                && configuration.records[j].record_type == configuration.records[i].record_type {
                assert(ascii_lower(before.records[j as int].name) == ascii_lower(
                    before.records[i as int].name,
                ));
                return Err(ConfigError::DuplicateRecord { index: i });
            }
            j = j + 1;
        }
        assert(configuration.records@[i as int]@ == configuration@.records[i as int]);
        let fits = match (configuration.records[i].record_type, &configuration.records[i].ip) {
            (RecordType::A, IpAddress::V4(_)) => true,
            (RecordType::Aaaa, IpAddress::V6(_)) => true,
            _ => false,
        };
        if !fits {
            return Err(ConfigError::TypeMismatch { index: i });
        }
        i = i + 1;
    }
    Ok(())
}


/// The `Debug` text of a record type.
pub open spec fn record_type_debug(record_type: RecordType) -> Seq<char> {
    match record_type {
        RecordType::A => "A"@,
        RecordType::Aaaa => "Aaaa"@,
    }
}

/// Whether the record an error points at exists among `count` records.
pub open spec fn error_in_range(error: ConfigError, count: int) -> bool {
    match error {
        ConfigError::UpstreamIsBind => true,
        ConfigError::InvalidName { index } => index < count,
        ConfigError::DuplicateRecord { index } => index < count,
        ConfigError::TypeMismatch { index } => index < count,
    }
}

/// The message that reports a refused configuration, naming the record by
/// its (lower-cased) name.
pub open spec fn config_error_text(error: ConfigError, records: Seq<RecordView>) -> Seq<char> {
    match error {
        ConfigError::UpstreamIsBind => "DNS upstream must not point to the DNS service bind"@,
        ConfigError::InvalidName { index } => "invalid DNS record name "@ + records[index as int].name,
        ConfigError::DuplicateRecord { index } => "duplicate DNS record name and type "@
            + records[index as int].name + " "@ + record_type_debug(records[index as int].record_type),
        ConfigError::TypeMismatch { index } => "DNS record "@ + records[index as int].name
            + " type does not match its IP address"@,
    }
}

/// The message that reports a refused configuration.
pub fn config_error_message(error: ConfigError, records: &Vec<DnsRecord>) -> (text: String)
    requires
        error_in_range(error, records@.len() as int),
    ensures
        text@ == config_error_text(error, record_views(records@)),
{
    match error {
        ConfigError::UpstreamIsBind => String::from_str(
            "DNS upstream must not point to the DNS service bind",
        ),
        ConfigError::InvalidName { index } => {
            let mut text = String::from_str("invalid DNS record name ");
            text.append(records[index].name.as_str());
            text
        },
        ConfigError::DuplicateRecord { index } => {
            let mut text = String::from_str("duplicate DNS record name and type ");
            text.append(records[index].name.as_str());
            text.append(" ");
            match records[index].record_type {
                RecordType::A => text.append("A"),
                RecordType::Aaaa => text.append("Aaaa"),
            }
            text
        },
        ConfigError::TypeMismatch { index } => {
            let mut text = String::from_str("DNS record ");
            text.append(records[index].name.as_str());
            text.append(" type does not match its IP address");
            text
        },
    }
}

/// A refused record lies among the records checked.
pub proof fn lemma_first_problem_in_range(records: Seq<RecordView>, from: int)
    requires
        0 <= from,
    ensures
        first_problem(records, from) matches Some((index, error)) ==> from <= index < records.len()
            && error_in_range(error, records.len() as int) && error_in_range(error, index + 1),
    decreases records.len() - from,
{
    if from < records.len() {
        lemma_first_problem_in_range(records, from + 1);
    }
}

/// The error `validate` reports points at a record of the configuration.
pub proof fn lemma_validate_error_in_range(config: ConfigView)
    ensures
        validate_spec(config) matches Err(error) ==> error_in_range(error, config.records.len() as int),
{
    lemma_first_problem_in_range(config.records, 0);
}


/// A configuration as the service keeps it: accepted by `validate`, with
/// every record name already lower-case.
pub open spec fn config_valid(config: ConfigView) -> bool {
    &&& validate_spec(config) is Ok
    &&& forall|i: int|
        0 <= i < config.records.len() ==> #[trigger] ascii_lower(config.records[i].name)
            == config.records[i].name
}

/// Whether two record lists agree on lower-cased names, types and addresses.
pub open spec fn same_keys(a: Seq<RecordView>, b: Seq<RecordView>) -> bool {
    &&& a.len() == b.len()
    &&& forall|i: int|
        0 <= i < a.len() ==> ascii_lower(#[trigger] a[i].name) == ascii_lower(b[i].name)
            && a[i].record_type == b[i].record_type && a[i].ip == b[i].ip
}

/// Records that agree on lower-cased names, types and addresses have the
/// same problem at each position.
proof fn lemma_record_problem_same(a: Seq<RecordView>, b: Seq<RecordView>, from: int)
    requires
        0 <= from < a.len(),
        same_keys(a, b),
    ensures
        record_problem(a, from) == record_problem(b, from),
{
    let name = ascii_lower(a[from].name);
    assert(name == ascii_lower(b[from].name));
    if exists|j: int|
        0 <= j < from && #[trigger] ascii_lower(a[j].name) == name && a[j].record_type
            == a[from].record_type {
        let j = choose|j: int|
            0 <= j < from && #[trigger] ascii_lower(a[j].name) == name && a[j].record_type
                == a[from].record_type;
        assert(ascii_lower(b[j].name) == name);
    }
    if exists|j: int|
        0 <= j < from && #[trigger] ascii_lower(b[j].name) == name && b[j].record_type
            == b[from].record_type {
        let j = choose|j: int|
            0 <= j < from && #[trigger] ascii_lower(b[j].name) == name && b[j].record_type
                == b[from].record_type;
        assert(ascii_lower(a[j].name) == name);
    }
}

/// Records that agree on lower-cased names, types and addresses have the
/// same first problem.
proof fn lemma_first_problem_same(a: Seq<RecordView>, b: Seq<RecordView>, from: int)
    requires
        0 <= from,
        same_keys(a, b),
    ensures
        first_problem(a, from) == first_problem(b, from),
    decreases a.len() - from,
{
    if from < a.len() {
        lemma_record_problem_same(a, b, from);
        lemma_first_problem_same(a, b, from + 1);
    }
}

/// A configuration that `validate` accepts is left valid: accepted again,
/// with lower-case names.
pub proof fn law_validate_establishes_valid(config: ConfigView)
    requires
        validate_spec(config) is Ok,
    ensures
        config_valid(validated(config)),
{
    let after = validated(config);
    assert forall|i: int| 0 <= i < after.records.len() implies ascii_lower(
        #[trigger] after.records[i].name,
    ) == ascii_lower(config.records[i].name) && after.records[i].record_type
        == config.records[i].record_type && after.records[i].ip == config.records[i].ip by {
        lemma_ascii_lower_idempotent(config.records[i].name);
    }
    lemma_first_problem_same(after.records, config.records, 0);
    assert forall|i: int| 0 <= i < after.records.len() implies #[trigger] ascii_lower(
        after.records[i].name,
    ) == after.records[i].name by {
        lemma_ascii_lower_idempotent(config.records[i].name);
    }
}

/// Validating a valid configuration accepts it and changes nothing.
pub proof fn law_validate_keeps_valid_config(config: ConfigView)
    requires
        config_valid(config),
    ensures
        validate_spec(config) is Ok,
        validated(config) == config,
{
    assert(validated(config).records =~= config.records);
    assert(validated(config) =~= config);
}

} // verus!
