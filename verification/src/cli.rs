//! The command line: `autobricks-dns` alone runs the service; `list`, `add`,
//! `delete` and `restart` manage the records of a running service.

use crate::address::IpAddress;
use crate::config::{DnsRecord, RecordType};
use crate::text::{has_dashes, same_text, starts_with_dashes};
use vstd::prelude::*;

verus! {

/// A flag whose value a command needs.
#[derive(Clone, Copy, Debug, PartialEq, Eq, Structural)]
pub enum Flag {
    Name,
    Ip,
    Type,
}

/// Why the command line is refused.
#[derive(Debug)]
pub enum CliError {
    /// The flag is not on the command line.
    MissingFlag(Flag),
    /// The flag is last, or followed by another flag.
    MissingValue(Flag),
    /// The `--ip` value is not an IP address; the reason from the parser.
    InvalidIp(String),
    /// The `--type` value is neither `A` nor `AAAA`.
    InvalidType,
    /// Not a command: the usage text is the answer.
    Usage,
}

/// What the command line asks for.
#[derive(Debug)]
pub enum Mode {
    /// Run the service.
    Server,
    /// Send one command to the running service.
    Command(Command),
}

/// A management command.
#[derive(Debug)]
pub enum Command {
    List,
    Add(AddArguments),
    Delete { name: String },
    Restart,
}

/// The arguments of `add`, before the `--ip` value is read as an address:
/// the name, the address text, and the record type (or why `--type` is
/// refused, which is reported only when the address is valid).
#[derive(Debug)]
pub struct AddArguments {
    pub name: String,
    pub ip: String,
    pub record_type: Result<RecordType, CliError>,
}

/// A command-line error as a value.
pub enum CliErrorView {
    MissingFlag(Flag),
    MissingValue(Flag),
    InvalidIp(Seq<char>),
    InvalidType,
    Usage,
}

/// `add` arguments as a value.
pub struct AddView {
    pub name: Seq<char>,
    pub ip: Seq<char>,
    pub record_type: Result<RecordType, CliErrorView>,
}

/// A command as a value.
pub enum CommandView {
    List,
    Add(AddView),
    Delete(Seq<char>),
    Restart,
}

/// A mode as a value.
pub enum ModeView {
    Server,
    Command(CommandView),
}

impl View for CliError {
    type V = CliErrorView;

    open spec fn view(&self) -> CliErrorView {
        match self {
            CliError::MissingFlag(flag) => CliErrorView::MissingFlag(*flag),
            CliError::MissingValue(flag) => CliErrorView::MissingValue(*flag),
            CliError::InvalidIp(reason) => CliErrorView::InvalidIp(reason@),
            CliError::InvalidType => CliErrorView::InvalidType,
            CliError::Usage => CliErrorView::Usage,
        }
    }
}

impl View for Mode {
    type V = ModeView;

    open spec fn view(&self) -> ModeView {
        match self {
            Mode::Server => ModeView::Server,
            Mode::Command(Command::List) => ModeView::Command(CommandView::List),
            Mode::Command(Command::Restart) => ModeView::Command(CommandView::Restart),
            Mode::Command(Command::Delete { name }) => ModeView::Command(
                CommandView::Delete(name@),
            ),
            Mode::Command(Command::Add(arguments)) => ModeView::Command(
                CommandView::Add(
                    AddView {
                        name: arguments.name@,
                        ip: arguments.ip@,
                        record_type: match &arguments.record_type {
                            Ok(record_type) => Ok(*record_type),
                            Err(error) => Err(error@),
                        },
                    },
                ),
            ),
        }
    }
}

/// The text of a flag.
pub open spec fn flag_text(flag: Flag) -> Seq<char> {
    match flag {
        Flag::Name => "--name"@,
        Flag::Ip => "--ip"@,
        Flag::Type => "--type"@,
    }
}

/// The first position, from `from` on, of an argument equal to `text`.
pub open spec fn first_position(arguments: Seq<Seq<char>>, text: Seq<char>, from: int) -> Option<
    int,
>
    decreases arguments.len() - from,
{
    if from < 0 || from >= arguments.len() {
        None
    } else if arguments[from] == text {
        Some(from)
    } else {
        first_position(arguments, text, from + 1)
    }
}

/// The value of a flag: the argument after its first occurrence, unless
/// there is none or it is itself a flag.
pub open spec fn required_spec(arguments: Seq<Seq<char>>, flag: Flag) -> Result<
    Seq<char>,
    CliErrorView,
> {
    match first_position(arguments, flag_text(flag), 0) {
        None => Err(CliErrorView::MissingFlag(flag)),
        Some(position) => if position + 1 < arguments.len() && !starts_with_dashes(
            arguments[position + 1],
        ) {
            Ok(arguments[position + 1])
        } else {
            Err(CliErrorView::MissingValue(flag))
        },
    }
}

/// The record type a `--type` value names.
pub open spec fn record_type_spec(value: Seq<char>) -> Result<RecordType, CliErrorView> {
    if value == "A"@ {
        Ok(RecordType::A)
    } else if value == "AAAA"@ {
        Ok(RecordType::Aaaa)
    } else {
        Err(CliErrorView::InvalidType)
    }
}

/// What a command line (without the program name) asks for.
pub open spec fn parse_spec(arguments: Seq<Seq<char>>) -> Result<ModeView, CliErrorView> {
    if arguments.len() == 0 {
        Ok(ModeView::Server)
    } else {
        let command = arguments[0];
        if command == "list"@ && arguments.len() == 1 {
            Ok(ModeView::Command(CommandView::List))
        } else if command == "restart"@ && arguments.len() == 1 {
            Ok(ModeView::Command(CommandView::Restart))
        } else if command == "add"@ {
            match required_spec(arguments, Flag::Name) {
                Err(error) => Err(error),
                Ok(name) => match required_spec(arguments, Flag::Ip) {
                    Err(error) => Err(error),
                    Ok(ip) => Ok(
                        ModeView::Command(
                            CommandView::Add(
                                AddView {
                                    name,
                                    ip,
                                    record_type: match required_spec(arguments, Flag::Type) {
                                        Err(error) => Err(error),
                                        Ok(value) => record_type_spec(value),
                                    },
                                },
                            ),
                        ),
                    ),
                },
            }
        } else if command == "delete"@ {
            match required_spec(arguments, Flag::Name) {
                Err(error) => Err(error),
                Ok(name) => Ok(ModeView::Command(CommandView::Delete(name))),
            }
        } else {
            Err(CliErrorView::Usage)
        }
    }
}

/// The texts of the arguments.
pub open spec fn argument_texts(arguments: Seq<String>) -> Seq<Seq<char>> {
    arguments.map_values(|argument: String| argument@)
}

/// The usage text.
pub open spec fn usage_text() -> Seq<char> {
    "usage:\n  autobricks-dns\n  autobricks-dns list\n  autobricks-dns add --name <name> --ip <address> --type <A|AAAA>\n  autobricks-dns delete --name <name>\n  autobricks-dns restart"@
}

/// The usage text, which answers any command line that is not a command.
pub fn usage() -> (text: String)
    ensures
        text@ == usage_text(),
{
    String::from_str(
        "usage:\n  autobricks-dns\n  autobricks-dns list\n  autobricks-dns add --name <name> --ip <address> --type <A|AAAA>\n  autobricks-dns delete --name <name>\n  autobricks-dns restart",
    )
}

/// The text of a flag.
fn flag_str(flag: Flag) -> (text: &'static str)
    ensures
        text@ == flag_text(flag),
{
    match flag {
        Flag::Name => "--name",
        Flag::Ip => "--ip",
        Flag::Type => "--type",
    }
}

/// The value of `flag`: the argument after its first occurrence.
pub fn required(arguments: &Vec<String>, flag: Flag) -> (result: Result<String, CliError>)
    ensures
        match (result, required_spec(argument_texts(arguments@), flag)) {
            (Ok(value), Ok(wanted)) => value@ == wanted,
            (Err(error), Err(wanted)) => error@ == wanted,
            _ => false,
        },
{
    let ghost texts = argument_texts(arguments@);
    let text = flag_str(flag);
    let mut position: usize = 0;
    while position < arguments.len()
        invariant
            position <= arguments.len(),
            texts == argument_texts(arguments@),
            text@ == flag_text(flag),
            first_position(texts, text@, 0) == first_position(texts, text@, position as int),
        decreases arguments.len() - position,
    {
        if same_text(arguments[position].as_str(), text) {
            if position + 1 < arguments.len() && !has_dashes(arguments[position + 1].as_str()) {
                return Ok(arguments[position + 1].clone());
            }
            return Err(CliError::MissingValue(flag));
        }
        position = position + 1;
    }
    Err(CliError::MissingFlag(flag))
}

/// The record type named by a `--type` value: `A` or `AAAA`.
pub fn record_type(value: &str) -> (result: Result<RecordType, CliError>)
    ensures
        match (result, record_type_spec(value@)) {
            (Ok(found), Ok(wanted)) => found == wanted,
            (Err(error), Err(wanted)) => error@ == wanted,
            _ => false,
        },
{
    if same_text(value, "A") {
        Ok(RecordType::A)
    } else if same_text(value, "AAAA") {
        Ok(RecordType::Aaaa)
    } else {
        Err(CliError::InvalidType)
    }
}

/// Reads a command line (without the program name).
pub fn parse_arguments(arguments: &Vec<String>) -> (result: Result<Mode, CliError>)
    ensures
        match (result, parse_spec(argument_texts(arguments@))) {
            (Ok(mode), Ok(wanted)) => mode@ == wanted,
            (Err(error), Err(wanted)) => error@ == wanted,
            _ => false,
        },
{
    if arguments.len() == 0 {
        return Ok(Mode::Server);
    }
    let command = arguments[0].as_str();
    assert(argument_texts(arguments@)[0] == command@);
    if same_text(command, "list") && arguments.len() == 1 {
        Ok(Mode::Command(Command::List))
    } else if same_text(command, "restart") && arguments.len() == 1 {
        Ok(Mode::Command(Command::Restart))
    } else if same_text(command, "add") {
        let name = match required(arguments, Flag::Name) {
            Ok(value) => value,
            Err(error) => return Err(error),
        };
        let ip = match required(arguments, Flag::Ip) {
            Ok(value) => value,
            Err(error) => return Err(error),
        };
        let record_type = match required(arguments, Flag::Type) {
            Ok(value) => record_type(value.as_str()),
            Err(error) => Err(error),
        };
        Ok(Mode::Command(Command::Add(AddArguments { name, ip, record_type })))
    } else if same_text(command, "delete") {
        match required(arguments, Flag::Name) {
            Ok(name) => Ok(Mode::Command(Command::Delete { name })),
            Err(error) => Err(error),
        }
    } else {
        Err(CliError::Usage)
    }
}

/// The record that `add` registers, once its `--ip` value has been read as
/// an address (`ip`, or the reason it is not one): an invalid address is
/// reported before an invalid type.
pub fn add_record(arguments: AddArguments, ip: Result<IpAddress, String>) -> (result: Result<
    DnsRecord,
    CliError,
>)
    ensures
        match ip {
            Err(reason) => result matches Err(error) && error@ == CliErrorView::InvalidIp(reason@),
            Ok(address) => match arguments.record_type {
                Err(wanted) => result matches Err(error) && error@ == wanted@,
                Ok(record_type) => result matches Ok(record) && record@.name == arguments.name@
                    && record.record_type == record_type && record.ip == address,
            },
        },
{
    match ip {
        Err(reason) => Err(CliError::InvalidIp(reason)),
        Ok(address) => match arguments.record_type {
            Err(error) => Err(error),
            Ok(record_type) => Ok(DnsRecord { name: arguments.name, record_type, ip: address }),
        },
    }
}


/// The message that reports a refused command line.
pub open spec fn cli_error_text(error: CliErrorView) -> Seq<char> {
    match error {
        CliErrorView::MissingFlag(flag) => "missing required "@ + flag_text(flag) + "\n"@ + usage_text(),
        CliErrorView::MissingValue(flag) => "missing value for "@ + flag_text(flag) + "\n"@
            + usage_text(),
        CliErrorView::InvalidIp(reason) => "invalid --ip value: "@ + reason,
        CliErrorView::InvalidType => "--type must be A or AAAA"@,
        CliErrorView::Usage => usage_text(),
    }
}

impl CliError {
    /// The message that reports this error.
    pub fn message(&self) -> (text: String)
        ensures
            text@ == cli_error_text(self@),
    {
        match self {
            CliError::MissingFlag(flag) => {
                let mut text = String::from_str("missing required ");
                text.append(flag_str(*flag));
                text.append("\n");
                text.append(usage().as_str());
                text
            },
            CliError::MissingValue(flag) => {
                let mut text = String::from_str("missing value for ");
                text.append(flag_str(*flag));
                text.append("\n");
                text.append(usage().as_str());
                text
            },
            CliError::InvalidIp(reason) => {
                let mut text = String::from_str("invalid --ip value: ");
                text.append(reason.as_str());
                text
            },
            CliError::InvalidType => String::from_str("--type must be A or AAAA"),
            CliError::Usage => usage(),
        }
    }
}

/// The first argument equal to `text` is at `position`.
proof fn lemma_first_position_at(arguments: Seq<Seq<char>>, text: Seq<char>, from: int, position: int)
    requires
        0 <= from <= position < arguments.len(),
        arguments[position] == text,
        forall|q: int| from <= q < position ==> arguments[q] != text,
    ensures
        first_position(arguments, text, from) == Some(position),
    decreases position - from,
{
    if from < position {
        lemma_first_position_at(arguments, text, from + 1, position);
    }
}

/// The record type of `add` follows its `--type` flag: where the first
/// `--type` is followed by `A`, an `add` command line asks for an A record;
/// followed by `AAAA`, for an AAAA record.
pub proof fn law_add_type_follows_flag(arguments: Seq<Seq<char>>, position: int)
    requires
        parse_spec(arguments) matches Ok(ModeView::Command(CommandView::Add(_))),
        0 <= position,
        position + 1 < arguments.len(),
        arguments[position] == "--type"@,
        forall|q: int| 0 <= q < position ==> arguments[q] != "--type"@,
    ensures
        arguments[position + 1] == "A"@ ==> parse_spec(arguments)->Ok_0->Command_0->Add_0.record_type
            == Ok::<RecordType, CliErrorView>(RecordType::A),
        arguments[position + 1] == "AAAA"@ ==> parse_spec(arguments)->Ok_0->Command_0->Add_0.record_type
            == Ok::<RecordType, CliErrorView>(RecordType::Aaaa),
{
    reveal_strlit("A");
    reveal_strlit("AAAA");
    lemma_first_position_at(arguments, "--type"@, 0, position);
    assert(flag_text(Flag::Type) == "--type"@);
    assert(!starts_with_dashes("A"@));
    assert(!starts_with_dashes("AAAA"@));
    assert("A"@.len() != "AAAA"@.len());
}

/// The name and address text of `add` are the arguments after the first
/// `--name` and the first `--ip`.
pub proof fn law_add_values_follow_flags(arguments: Seq<Seq<char>>, name_at: int, ip_at: int)
    requires
        parse_spec(arguments) matches Ok(ModeView::Command(CommandView::Add(_))),
        0 <= name_at < arguments.len(),
        arguments[name_at] == "--name"@,
        forall|q: int| 0 <= q < name_at ==> arguments[q] != "--name"@,
        0 <= ip_at < arguments.len(),
        arguments[ip_at] == "--ip"@,
        forall|q: int| 0 <= q < ip_at ==> arguments[q] != "--ip"@,
    ensures
        name_at + 1 < arguments.len(),
        ip_at + 1 < arguments.len(),
        parse_spec(arguments)->Ok_0->Command_0->Add_0.name == arguments[name_at + 1],
        parse_spec(arguments)->Ok_0->Command_0->Add_0.ip == arguments[ip_at + 1],
{
    lemma_first_position_at(arguments, "--name"@, 0, name_at);
    lemma_first_position_at(arguments, "--ip"@, 0, ip_at);
    assert(flag_text(Flag::Name) == "--name"@);
    assert(flag_text(Flag::Ip) == "--ip"@);
}

/// The name of `delete` is the argument after the first `--name`.
pub proof fn law_delete_name_follows_flag(arguments: Seq<Seq<char>>, name_at: int)
    requires
        parse_spec(arguments) matches Ok(ModeView::Command(CommandView::Delete(_))),
        0 <= name_at < arguments.len(),
        arguments[name_at] == "--name"@,
        forall|q: int| 0 <= q < name_at ==> arguments[q] != "--name"@,
    ensures
        name_at + 1 < arguments.len(),
        parse_spec(arguments)->Ok_0->Command_0->Delete_0 == arguments[name_at + 1],
{
    lemma_first_position_at(arguments, "--name"@, 0, name_at);
    assert(flag_text(Flag::Name) == "--name"@);
}

} // verus!
