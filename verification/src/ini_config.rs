//! Reading the configuration from its INI text: a `[server]` section with
//! `bind` and an optional `upstream`, then one section per host name whose
//! `A` and `AAAA` keys give its addresses.

use crate::address::{IpAddress, SocketAddress};
use crate::config::{
    ini_name_text, record_views, ConfigView, DnsConfig, DnsRecord, RecordType, RecordView,
};
use crate::ordering::{
    bytes_less, lemma_filter_narrower, lemma_name_order, lemma_sorted_unique, name_less,
    strictly_sorted,
};
use crate::ini_file::{
    first_pair, first_section, ini_document, ini_pair_list, ini_pairs,
    ini_pairs_empty, ini_section, ini_section_list, ini_sections, ini_value, load_ini, PairsView,
    SectionsView,
};
use crate::text::same_text;
use vstd::prelude::*;

verus! {

/// An address text of the file, in the order the file is read: the
/// listening address, the upstream, and each record's address.
#[derive(Debug)]
pub enum AddressText {
    Bind(String),
    Upstream(String),
    Record { name: String, record_type: RecordType, value: String },
}

/// Why the INI text is refused.
#[derive(Debug)]
pub enum IniError {
    /// The INI reader refused the text; its message.
    Syntax(String),
    /// There is no `[server]` section.
    MissingServer,
    /// `[server]` has a key other than `bind` and `upstream`.
    UnknownServerKey,
    /// `[server]` has no `bind`.
    MissingBind,
    /// There are keys before the first section header.
    TopLevelKeys,
    /// A host section has a key other than `A` and `AAAA`.
    UnknownRecordKey { section: String },
    /// `bind` is not a socket address; the reason.
    InvalidBind(String),
    /// `upstream` is not a socket address; the reason.
    InvalidUpstream(String),
    /// A record value is not an IP address; the reason.
    InvalidRecordIp(String),
}

/// What reading the INI text finds: the address texts to read, in order, up
/// to the first structural problem of the file, and that problem if any.
#[derive(Debug)]
pub struct IniOutline {
    pub entries: Vec<AddressText>,
    pub error: Option<IniError>,
}

/// An address text after reading it as an address.
#[derive(Debug)]
pub enum ParsedAddress {
    Socket(SocketAddress),
    Ip(IpAddress),
    Invalid(String),
}

impl IniError {
    /// The message that reports this error; for the INI reader's refusal, the
    /// reader's own message.
    pub fn message(&self) -> (text: String)
        ensures
            match self {
                IniError::Syntax(reason) => text@ == reason@,
                IniError::MissingServer => text@ == "DNS INI configuration requires a [server] section"@,
                IniError::UnknownServerKey => text@ == "DNS [server] section contains an unknown key"@,
                IniError::MissingBind => text@ == "DNS [server] section requires bind"@,
                IniError::TopLevelKeys => text@ == "DNS INI configuration does not allow top-level keys"@,
                IniError::UnknownRecordKey { section } => text@ == "DNS INI section ["@ + section@
                    + "] only accepts A and AAAA keys"@,
                IniError::InvalidBind(reason) => text@ == "invalid DNS bind address: "@ + reason@,
                IniError::InvalidUpstream(reason) => text@ == "invalid DNS upstream address: "@
                    + reason@,
                IniError::InvalidRecordIp(reason) => text@ == "invalid DNS record IP: "@ + reason@,
            },
    {
        match self {
            IniError::Syntax(reason) => reason.clone(),
            IniError::MissingServer => String::from_str(
                "DNS INI configuration requires a [server] section",
            ),
            IniError::UnknownServerKey => String::from_str("DNS [server] section contains an unknown key"),
            IniError::MissingBind => String::from_str("DNS [server] section requires bind"),
            IniError::TopLevelKeys => String::from_str(
                "DNS INI configuration does not allow top-level keys",
            ),
            IniError::UnknownRecordKey { section } => {
                let mut text = String::from_str("DNS INI section [");
                text.append(section.as_str());
                text.append("] only accepts A and AAAA keys");
                text
            },
            IniError::InvalidBind(reason) => {
                let mut text = String::from_str("invalid DNS bind address: ");
                text.append(reason.as_str());
                text
            },
            IniError::InvalidUpstream(reason) => {
                let mut text = String::from_str("invalid DNS upstream address: ");
                text.append(reason.as_str());
                text
            },
            IniError::InvalidRecordIp(reason) => {
                let mut text = String::from_str("invalid DNS record IP: ");
                text.append(reason.as_str());
                text
            },
        }
    }
}

/// An address text as a value.
pub enum EntryView {
    Bind(Seq<char>),
    Upstream(Seq<char>),
    Record(Seq<char>, RecordType, Seq<char>),
}

/// An INI error as a value.
pub enum IniErrorView {
    Syntax(Seq<char>),
    MissingServer,
    UnknownServerKey,
    MissingBind,
    TopLevelKeys,
    UnknownRecordKey(Seq<char>),
    InvalidBind(Seq<char>),
    InvalidUpstream(Seq<char>),
    InvalidRecordIp(Seq<char>),
}

/// A read address as a value.
pub enum ParsedView {
    Socket(SocketAddress),
    Ip(IpAddress),
    Invalid(Seq<char>),
}

impl View for AddressText {
    type V = EntryView;

    open spec fn view(&self) -> EntryView {
        match self {
            AddressText::Bind(text) => EntryView::Bind(text@),
            AddressText::Upstream(text) => EntryView::Upstream(text@),
            AddressText::Record { name, record_type, value } => EntryView::Record(
                name@,
                *record_type,
                value@,
            ),
        }
    }
}

impl View for IniError {
    type V = IniErrorView;

    open spec fn view(&self) -> IniErrorView {
        match self {
            IniError::Syntax(reason) => IniErrorView::Syntax(reason@),
            IniError::MissingServer => IniErrorView::MissingServer,
            IniError::UnknownServerKey => IniErrorView::UnknownServerKey,
            IniError::MissingBind => IniErrorView::MissingBind,
            IniError::TopLevelKeys => IniErrorView::TopLevelKeys,
            IniError::UnknownRecordKey { section } => IniErrorView::UnknownRecordKey(section@),
            IniError::InvalidBind(reason) => IniErrorView::InvalidBind(reason@),
            IniError::InvalidUpstream(reason) => IniErrorView::InvalidUpstream(reason@),
            IniError::InvalidRecordIp(reason) => IniErrorView::InvalidRecordIp(reason@),
        }
    }
}

impl View for ParsedAddress {
    type V = ParsedView;

    open spec fn view(&self) -> ParsedView {
        match self {
            ParsedAddress::Socket(address) => ParsedView::Socket(*address),
            ParsedAddress::Ip(address) => ParsedView::Ip(*address),
            ParsedAddress::Invalid(reason) => ParsedView::Invalid(reason@),
        }
    }
}

/// The values of address texts.
pub open spec fn entry_views(entries: Seq<AddressText>) -> Seq<EntryView> {
    entries.map_values(|entry: AddressText| entry@)
}

/// The value of an optional error.
pub open spec fn error_view(error: Option<IniError>) -> Option<IniErrorView> {
    match error {
        Some(error) => Some(error@),
        None => None,
    }
}

impl View for IniOutline {
    type V = (Seq<EntryView>, Option<IniErrorView>);

    open spec fn view(&self) -> (Seq<EntryView>, Option<IniErrorView>) {
        (entry_views(self.entries@), error_view(self.error))
    }
}

/// The address texts of `[server]`: `bind`, then `upstream` when it is
/// present and not empty; or why `[server]` is refused.
pub open spec fn server_entries(sections: SectionsView) -> Result<Seq<EntryView>, IniErrorView> {
    match first_section(sections, "server"@) {
        None => Err(IniErrorView::MissingServer),
        Some(i) => {
            let pairs = sections[i].1;
            if exists|k: int|
                0 <= k < pairs.len() && #[trigger] pairs[k].0 != "bind"@ && pairs[k].0
                    != "upstream"@ {
                Err(IniErrorView::UnknownServerKey)
            } else {
                match first_pair(pairs, "bind"@) {
                    None => Err(IniErrorView::MissingBind),
                    Some(b) => {
                        let base = seq![EntryView::Bind(pairs[b].1)];
                        match first_pair(pairs, "upstream"@) {
                            Some(u) => if pairs[u].1.len() > 0 {
                                Ok(base.push(EntryView::Upstream(pairs[u].1)))
                            } else {
                                Ok(base)
                            },
                            None => Ok(base),
                        }
                    },
                }
            }
        },
    }
}

/// The record texts of one host section from pair `j` on, after `entries`;
/// a key other than `A` or `AAAA` stops the reading with an error.
pub open spec fn walk_pairs(name: Seq<char>, pairs: PairsView, j: int, entries: Seq<EntryView>) -> (
    Seq<EntryView>,
    Option<IniErrorView>,
)
    decreases pairs.len() - j,
{
    if j < 0 || j >= pairs.len() {
        (entries, None)
    } else if pairs[j].0 == "A"@ {
        walk_pairs(name, pairs, j + 1, entries.push(EntryView::Record(name, RecordType::A, pairs[j].1)))
    } else if pairs[j].0 == "AAAA"@ {
        walk_pairs(
            name,
            pairs,
            j + 1,
            entries.push(EntryView::Record(name, RecordType::Aaaa, pairs[j].1)),
        )
    } else {
        (entries, Some(IniErrorView::UnknownRecordKey(name)))
    }
}

/// The record texts of the sections from `i` on, after `entries`: the
/// unnamed section must be empty and `[server]` is skipped.
pub open spec fn walk_sections(sections: SectionsView, i: int, entries: Seq<EntryView>) -> (
    Seq<EntryView>,
    Option<IniErrorView>,
)
    decreases sections.len() - i,
{
    if i < 0 || i >= sections.len() {
        (entries, None)
    } else {
        match sections[i].0 {
            None => if sections[i].1.len() == 0 {
                walk_sections(sections, i + 1, entries)
            } else {
                (entries, Some(IniErrorView::TopLevelKeys))
            },
            Some(name) => if name == "server"@ {
                walk_sections(sections, i + 1, entries)
            } else {
                let read = walk_pairs(name, sections[i].1, 0, entries);
                if read.1 is Some {
                    read
                } else {
                    walk_sections(sections, i + 1, read.0)
                }
            },
        }
    }
}

/// What reading an INI text finds.
pub open spec fn outline_spec(source: Seq<char>) -> (Seq<EntryView>, Option<IniErrorView>) {
    match ini_document(source) {
        Err(reason) => (Seq::empty(), Some(IniErrorView::Syntax(reason))),
        Ok(sections) => match server_entries(sections) {
            Err(error) => (Seq::empty(), Some(error)),
            Ok(base) => walk_sections(sections, 0, base),
        },
    }
}

/// Whether some key is neither `bind` nor `upstream`.
fn has_unknown_server_key(pairs: &Vec<(String, String)>) -> (unknown: bool)
    ensures
        unknown == exists|k: int|
            0 <= k < pairs@.len() && #[trigger] pairs@[k].0@ != "bind"@ && pairs@[k].0@
                != "upstream"@,
{
    let mut k: usize = 0;
    while k < pairs.len()
        invariant
            k <= pairs.len(),
            forall|i: int|
                0 <= i < k ==> (#[trigger] pairs@[i]).0@ == "bind"@ || pairs@[i].0@ == "upstream"@,
        decreases pairs.len() - k,
    {
        let key = pairs[k].0.as_str();
        if !same_text(key, "bind") && !same_text(key, "upstream") {
            return true;
        }
        k = k + 1;
    }
    false
}

/// Appends the record texts of one host section, in file order; stops at the
/// first key other than `A` or `AAAA` and reports it.
fn read_host_section(
    name: &String,
    properties: &ini::Properties,
    entries: &mut Vec<AddressText>,
) -> (error: Option<IniError>)
    ensures
        (entry_views(final(entries)@), error_view(error)) == walk_pairs(
            name@,
            ini_pairs(*properties),
            0,
            entry_views(old(entries)@),
        ),
{
    let pairs = ini_pair_list(properties);
    let ghost all = ini_pairs(*properties);
    let ghost start = entry_views(entries@);
    let mut j: usize = 0;
    while j < pairs.len()
        invariant
            j <= pairs.len(),
            pairs@.len() == all.len(),
            all == ini_pairs(*properties),
            start == entry_views(old(entries)@),
            forall|k: int|
                0 <= k < pairs@.len() ==> (#[trigger] pairs@[k]).0@ == all[k].0 && pairs@[k].1@
                    == all[k].1,
            walk_pairs(name@, all, 0, start) == walk_pairs(name@, all, j as int, entry_views(entries@)),
        decreases pairs.len() - j,
    {
        let key = pairs[j].0.as_str();
        let record_type = if same_text(key, "A") {
            RecordType::A
        } else if same_text(key, "AAAA") {
            RecordType::Aaaa
        } else {
            return Some(IniError::UnknownRecordKey { section: name.clone() });
        };
        let ghost before = entry_views(entries@);
        entries.push(
            AddressText::Record { name: name.clone(), record_type, value: pairs[j].1.clone() },
        );
        assert(entry_views(entries@) =~= before.push(
            EntryView::Record(name@, record_type, all[j as int].1),
        ));
        j = j + 1;
    }
    None
}

/// Reads the `[server]` section of a loaded document.
fn read_server(document: &ini::Ini) -> (result: Result<Vec<AddressText>, IniError>)
    ensures
        match (result, server_entries(ini_sections(*document))) {
            (Ok(entries), Ok(wanted)) => entry_views(entries@) == wanted,
            (Err(error), Err(wanted)) => error@ == wanted,
            _ => false,
        },
{
    let ghost sections = ini_sections(*document);
    let server = match ini_section(document, "server") {
        Some(properties) => properties,
        None => return Err(IniError::MissingServer),
    };
    let ghost index = first_section(sections, "server"@)->Some_0;
    let pairs = ini_pair_list(server);
    if has_unknown_server_key(&pairs) {
        let ghost k = choose|k: int|
            0 <= k < pairs@.len() && #[trigger] pairs@[k].0@ != "bind"@ && pairs@[k].0@
                != "upstream"@;
        assert(ini_pairs(*server)[k].0 != "bind"@);
        return Err(IniError::UnknownServerKey);
    }
    assert forall|k: int|
        0 <= k < ini_pairs(*server).len() implies !(#[trigger] ini_pairs(*server)[k].0 != "bind"@
        && ini_pairs(*server)[k].0 != "upstream"@) by {
        assert(pairs@[k].0@ == ini_pairs(*server)[k].0);
    }
    let bind = match ini_value(server, "bind") {
        Some(value) => value,
        None => return Err(IniError::MissingBind),
    };
    let mut entries: Vec<AddressText> = Vec::new();
    entries.push(AddressText::Bind(String::from_str(bind)));
    match ini_value(server, "upstream") {
        Some(value) => {
            if value.unicode_len() > 0 {
                entries.push(AddressText::Upstream(String::from_str(value)));
            }
        },
        None => {},
    }
    assert(entry_views(entries@) =~= server_entries(sections)->Ok_0);
    Ok(entries)
}

/// Reads the configuration's INI text: the address texts to read, in file
/// order, and the first structural problem of the file, if any.
pub fn parse_ini(source: &str) -> (outline: IniOutline)
    ensures
        outline@ == outline_spec(source@),
        outline_wf(outline@),
{
    proof {
        lemma_outline_wf(source@);
    }
    let document = match load_ini(source) {
        Ok(document) => document,
        Err(reason) => {
            let outline = IniOutline { entries: Vec::new(), error: Some(IniError::Syntax(reason)) };
            assert(outline@.0 =~= Seq::<EntryView>::empty());
            return outline;
        },
    };
    let ghost sections = ini_sections(document);
    let mut entries = match read_server(&document) {
        Ok(entries) => entries,
        Err(error) => {
            let outline = IniOutline { entries: Vec::new(), error: Some(error) };
            assert(outline@.0 =~= Seq::<EntryView>::empty());
            return outline;
        },
    };
    let list = ini_section_list(&document);
    let mut i: usize = 0;
    while i < list.len()
        invariant
            i <= list.len(),
            sections == ini_sections(document),
            sections == ini_document(source@)->Ok_0,
            ini_document(source@) is Ok,
            list@.len() == sections.len(),
            forall|k: int|
                0 <= k < list@.len() ==> match (#[trigger] list@[k]).0 {
                    Some(name) => sections[k].0 == Some(name@),
                    None => sections[k].0 is None,
                } && ini_pairs(*list@[k].1) == sections[k].1,
            outline_spec(source@) == walk_sections(sections, i as int, entry_views(entries@)),
            outline_wf(outline_spec(source@)),
        decreases list.len() - i,
    {
        let properties = list[i].1;
        match &list[i].0 {
            None => {
                if !ini_pairs_empty(properties) {
                    return IniOutline { entries, error: Some(IniError::TopLevelKeys) };
                }
            },
            Some(name) => {
                if !same_text(name.as_str(), "server") {
                    let error = read_host_section(name, properties, &mut entries);
                    if error.is_some() {
                        return IniOutline { entries, error };
                    }
                }
            },
        }
        i = i + 1;
    }
    IniOutline { entries, error: None }
}


/// The shape of an outline: the listening address first, the upstream next
/// if there is one, then records only; without a problem, at least the
/// listening address.
pub open spec fn outline_wf(outline: (Seq<EntryView>, Option<IniErrorView>)) -> bool {
    let entries = outline.0;
    &&& outline.1 is None ==> entries.len() > 0
    &&& entries.len() > 0 ==> entries[0] is Bind
    &&& forall|i: int| 1 <= i < entries.len() ==> !(#[trigger] entries[i] is Bind)
    &&& forall|i: int| 2 <= i < entries.len() ==> !(#[trigger] entries[i] is Upstream)
}

/// Reading pairs only appends records.
proof fn lemma_walk_pairs_appends(name: Seq<char>, pairs: PairsView, j: int, entries: Seq<EntryView>)
    ensures
        ({
            let read = walk_pairs(name, pairs, j, entries);
            &&& read.0.len() >= entries.len()
            &&& read.0.subrange(0, entries.len() as int) == entries
            &&& forall|i: int| entries.len() <= i < read.0.len() ==> #[trigger] read.0[i] is Record
        }),
    decreases pairs.len() - j,
{
    if 0 <= j < pairs.len() {
        if pairs[j].0 == "A"@ || pairs[j].0 == "AAAA"@ {
            let t = if pairs[j].0 == "A"@ { RecordType::A } else { RecordType::Aaaa };
            let next = entries.push(EntryView::Record(name, t, pairs[j].1));
            lemma_walk_pairs_appends(name, pairs, j + 1, next);
            let read = walk_pairs(name, pairs, j + 1, next);
            assert(read.0.subrange(0, entries.len() as int) =~= next.subrange(
                0,
                entries.len() as int,
            ));
            assert(read.0[entries.len() as int] == next[entries.len() as int]);
        }
    }
    assert(entries.subrange(0, entries.len() as int) =~= entries);
}

/// Reading sections only appends records.
proof fn lemma_walk_sections_appends(sections: SectionsView, i: int, entries: Seq<EntryView>)
    ensures
        ({
            let read = walk_sections(sections, i, entries);
            &&& read.0.len() >= entries.len()
            &&& read.0.subrange(0, entries.len() as int) == entries
            &&& forall|k: int| entries.len() <= k < read.0.len() ==> #[trigger] read.0[k] is Record
        }),
    decreases sections.len() - i,
{
    assert(entries.subrange(0, entries.len() as int) =~= entries);
    if 0 <= i < sections.len() {
        match sections[i].0 {
            None => {
                if sections[i].1.len() == 0 {
                    lemma_walk_sections_appends(sections, i + 1, entries);
                }
            },
            Some(name) => {
                if name == "server"@ {
                    lemma_walk_sections_appends(sections, i + 1, entries);
                } else {
                    lemma_walk_pairs_appends(name, sections[i].1, 0, entries);
                    let read = walk_pairs(name, sections[i].1, 0, entries);
                    if read.1 is None {
                        lemma_walk_sections_appends(sections, i + 1, read.0);
                        let all = walk_sections(sections, i + 1, read.0);
                        assert(all.0.subrange(0, entries.len() as int) =~= read.0.subrange(
                            0,
                            entries.len() as int,
                        ));
                        assert forall|k: int| entries.len() <= k < all.0.len() implies #[trigger] all.0[k] is Record by {
                            if k < read.0.len() {
                                assert(all.0[k] == all.0.subrange(0, read.0.len() as int)[k]);
                            }
                        }
                    }
                }
            },
        }
    }
}

/// Every outline has the shape `finish_config` expects.
pub proof fn lemma_outline_wf(source: Seq<char>)
    ensures
        outline_wf(outline_spec(source)),
{
    if let Ok(sections) = ini_document(source) {
        if let Ok(base) = server_entries(sections) {
            lemma_walk_sections_appends(sections, 0, base);
            let read = walk_sections(sections, 0, base);
            assert(1 <= base.len() <= 2 && base[0] is Bind && (base.len() == 2 ==> base[1] is Upstream));
            assert forall|i: int| 0 <= i < base.len() implies read.0[i] == #[trigger] base[i] by {
                assert(read.0.subrange(0, base.len() as int)[i] == read.0[i]);
            }
            assert forall|i: int| 1 <= i < read.0.len() implies !(#[trigger] read.0[i] is Bind) by {
                if i < base.len() {
                    assert(read.0[i] == base[i]);
                }
            }
            assert forall|i: int| 2 <= i < read.0.len() implies !(#[trigger] read.0[i] is Upstream) by {
                if i < base.len() {
                    assert(read.0[i] == base[i]);
                }
            }
        }
    }
}

/// Whether each read address fits the text it was read from: a socket
/// address for `bind` and `upstream`, an IP address for a record, or a
/// reason it is not one.
pub open spec fn parsed_fits(entries: Seq<EntryView>, parsed: Seq<ParsedView>) -> bool {
    &&& entries.len() == parsed.len()
    &&& forall|i: int|
        0 <= i < entries.len() ==> match (#[trigger] entries[i], parsed[i]) {
            (EntryView::Record(..), ParsedView::Socket(_)) => false,
            (EntryView::Record(..), _) => true,
            (_, ParsedView::Ip(_)) => false,
            _ => true,
        }
}

/// The values of read addresses.
pub open spec fn parsed_views(parsed: Seq<ParsedAddress>) -> Seq<ParsedView> {
    parsed.map_values(|address: ParsedAddress| address@)
}

/// The first address, from `from` on, that could not be read.
pub open spec fn first_invalid(parsed: Seq<ParsedView>, from: int) -> Option<int>
    decreases parsed.len() - from,
{
    if from < 0 || from >= parsed.len() {
        None
    } else if parsed[from] is Invalid {
        Some(from)
    } else {
        first_invalid(parsed, from + 1)
    }
}

/// The error for an address text that could not be read.
pub open spec fn address_error(entry: EntryView, reason: Seq<char>) -> IniErrorView {
    match entry {
        EntryView::Bind(_) => IniErrorView::InvalidBind(reason),
        EntryView::Upstream(_) => IniErrorView::InvalidUpstream(reason),
        EntryView::Record(..) => IniErrorView::InvalidRecordIp(reason),
    }
}

/// Where the records start among the address texts.
pub open spec fn record_start(entries: Seq<EntryView>) -> int {
    if entries.len() > 1 && entries[1] is Upstream {
        2
    } else {
        1
    }
}

/// The configuration the address texts and their addresses describe.
pub open spec fn config_from(entries: Seq<EntryView>, parsed: Seq<ParsedView>) -> ConfigView {
    let start = record_start(entries);
    ConfigView {
        bind: parsed[0]->Socket_0,
        upstream: if start == 2 {
            Some(parsed[1]->Socket_0)
        } else {
            None
        },
        records: Seq::new(
            (entries.len() - start) as nat,
            |k: int|
                RecordView {
                    name: entries[k + start]->Record_0,
                    record_type: entries[k + start]->Record_1,
                    ip: parsed[k + start]->Ip_0,
                },
        ),
    }
}

/// The configuration an outline gives once its address texts are read:
/// the first address that could not be read is reported before a problem
/// found later in the file.
pub open spec fn finish_spec(
    outline: (Seq<EntryView>, Option<IniErrorView>),
    parsed: Seq<ParsedView>,
) -> Result<ConfigView, IniErrorView> {
    match first_invalid(parsed, 0) {
        Some(k) => Err(address_error(outline.0[k], parsed[k]->Invalid_0)),
        None => match outline.1 {
            Some(error) => Err(error),
            None => Ok(config_from(outline.0, parsed)),
        },
    }
}

/// Builds the configuration from an outline and its addresses, read in the
/// same order (`parsed[i]` from `outline.entries[i]`).
pub fn finish_config(outline: IniOutline, parsed: Vec<ParsedAddress>) -> (result: Result<
    DnsConfig,
    IniError,
>)
    requires
        outline_wf(outline@),
        parsed_fits(outline@.0, parsed_views(parsed@)),
    ensures
        match (result, finish_spec(outline@, parsed_views(parsed@))) {
            (Ok(config), Ok(wanted)) => config@ == wanted,
            (Err(error), Err(wanted)) => error@ == wanted,
            _ => false,
        },
{
    let ghost entries = outline@.0;
    let ghost views = parsed_views(parsed@);
    let n = parsed.len();
    let mut k: usize = 0;
    while k < n
        invariant
            k <= n,
            n == parsed@.len(),
            views == parsed_views(parsed@),
            entries == outline@.0,
            entries.len() == n,
            first_invalid(views, 0) == first_invalid(views, k as int),
        decreases n - k,
    {
        assert(views[k as int] == parsed@[k as int]@);
        match &parsed[k] {
            ParsedAddress::Invalid(reason) => {
                assert(entries[k as int] == outline.entries@[k as int]@);
                let error = match &outline.entries[k] {
                    AddressText::Bind(_) => IniError::InvalidBind(reason.clone()),
                    AddressText::Upstream(_) => IniError::InvalidUpstream(reason.clone()),
                    AddressText::Record { .. } => IniError::InvalidRecordIp(reason.clone()),
                };
                return Err(error);
            },
            _ => {},
        }
        k = k + 1;
    }
    let IniOutline { entries: texts, error } = outline;
    match error {
        Some(error) => return Err(error),
        None => {},
    }
    assert(views[0] == parsed@[0]@);
    assert(entries[0] == texts@[0]@);
    proof {
        lemma_no_invalid_before(views, 0, 0);
    }
    let bind = match &parsed[0] {
        ParsedAddress::Socket(address) => *address,
        _ => vstd::pervasive::unreached(),
    };
    let mut start: usize = 1;
    let mut upstream: Option<SocketAddress> = None;
    if n > 1 {
        proof {
            lemma_no_invalid_before(views, 0, 1);
        }
        assert(views[1] == parsed@[1]@);
        assert(entries[1] == texts@[1]@);
        match &texts[1] {
            AddressText::Upstream(_) => {
                match &parsed[1] {
                    ParsedAddress::Socket(address) => {
                        upstream = Some(*address);
                    },
                    _ => {},
                }
                start = 2;
            },
            _ => {},
        }
    }
    assert(start == record_start(entries));
    let mut records: Vec<DnsRecord> = Vec::new();
    let mut i = start;
    while i < n
        invariant
            start <= i <= n,
            start == record_start(entries),
            n == parsed@.len(),
            views == parsed_views(parsed@),
            entries == entry_views(texts@),
            entries.len() == n,
            outline_wf((entries, None)),
            parsed_fits(entries, views),
            first_invalid(views, 0) == first_invalid(views, n as int),
            record_views(records@) == config_from(entries, views).records.take(i - start),
        decreases n - i,
    {
        assert(views[i as int] == parsed@[i as int]@);
        assert(entries[i as int] == texts@[i as int]@);
        proof {
            lemma_no_invalid_before(views, 0, i as int);
        }
        let ip = match &parsed[i] {
            ParsedAddress::Ip(address) => *address,
            _ => vstd::pervasive::unreached(),
        };
        match &texts[i] {
            AddressText::Record { name, record_type, .. } => {
                let record = DnsRecord { name: name.clone(), record_type: *record_type, ip };
                assert(record@ == config_from(entries, views).records[i - start]);
                let ghost before = record_views(records@);
                records.push(record);
                assert(record_views(records@) =~= before.push(record@));
                assert(config_from(entries, views).records.take(i + 1 - start) =~= config_from(
                    entries,
                    views,
                ).records.take(i - start).push(config_from(entries, views).records[i - start]));
            },
            _ => vstd::pervasive::unreached(),
        }
        assert(record_views(records@) =~= config_from(entries, views).records.take(i + 1 - start));
        i = i + 1;
    }
    let config = DnsConfig { bind, upstream, records };
    assert(config_from(entries, views).records.take(n - start) =~= config_from(entries, views).records);
    assert(config@ =~= config_from(entries, views));
    Ok(config)
}

/// Without a first unreadable address, every address is read.
proof fn lemma_no_invalid_before(parsed: Seq<ParsedView>, from: int, i: int)
    requires
        0 <= from <= i < parsed.len(),
        first_invalid(parsed, from) is None,
    ensures
        !(parsed[i] is Invalid),
    decreases i - from,
{
    if from < i {
        lemma_no_invalid_before(parsed, from + 1, i);
    }
}


/// The line written for one record: its type key, ` = `, its address text.
pub open spec fn record_line(record: RecordView, address: Seq<char>) -> Seq<char> {
    ini_name_text(record.record_type) + " = "@ + address + "\n"@
}

/// The lines of the first `k` records that are named `name`, in order.
pub open spec fn name_lines(
    records: Seq<RecordView>,
    addresses: Seq<Seq<char>>,
    name: Seq<char>,
    k: int,
) -> Seq<char>
    decreases k,
{
    if k <= 0 {
        Seq::empty()
    } else {
        name_lines(records, addresses, name, k - 1) + if records[k - 1].name == name {
            record_line(records[k - 1], addresses[k - 1])
        } else {
            Seq::empty()
        }
    }
}

/// The section written for one host name: a blank line, its header, and
/// the lines of all its records.
pub open spec fn group_text(records: Seq<RecordView>, addresses: Seq<Seq<char>>, name: Seq<char>) -> Seq<
    char,
> {
    "\n["@ + name + "]\n"@ + name_lines(records, addresses, name, records.len() as int)
}

/// The sections for the names of `order`, in that order.
pub open spec fn groups_text(
    records: Seq<RecordView>,
    addresses: Seq<Seq<char>>,
    order: Seq<Seq<char>>,
) -> Seq<char>
    decreases order.len(),
{
    if order.len() == 0 {
        Seq::empty()
    } else {
        groups_text(records, addresses, order.drop_last()) + group_text(
            records,
            addresses,
            order.last(),
        )
    }
}

/// The `[server]` section: `bind`, and `upstream` when there is one.
pub open spec fn server_text(bind: Seq<char>, upstream: Option<Seq<char>>) -> Seq<char> {
    "[server]\nbind = "@ + bind + "\n"@ + match upstream {
        Some(text) => "upstream = "@ + text + "\n"@,
        None => Seq::empty(),
    }
}

/// Whether some record has the name `name`.
pub open spec fn has_record_name(records: Seq<RecordView>, name: Seq<char>) -> bool {
    exists|i: int| 0 <= i < records.len() && #[trigger] records[i].name == name
}

/// Whether `order` lists every record name once, in increasing order.
pub open spec fn name_order(order: Seq<Seq<char>>, records: Seq<RecordView>) -> bool {
    &&& strictly_sorted(order)
    &&& forall|name: Seq<char>| #[trigger] order.contains(name) <==> has_record_name(records, name)
}

/// The texts of a list of strings.
pub open spec fn string_texts(strings: Seq<String>) -> Seq<Seq<char>> {
    strings.map_values(|s: String| s@)
}

/// The name order is determined by the records: any two such orders are
/// the same, so the written text is determined too.
pub proof fn law_name_order_unique(records: Seq<RecordView>, a: Seq<Seq<char>>, b: Seq<Seq<char>>)
    requires
        name_order(a, records),
        name_order(b, records),
    ensures
        a == b,
{
    assert forall|x: Seq<char>| a.contains(x) <==> b.contains(x) by {
        assert(a.contains(x) <==> has_record_name(records, x));
        assert(b.contains(x) <==> has_record_name(records, x));
    }
    lemma_sorted_unique(a, b);
}

/// Whether record `j` comes after the names already written, whose last is
/// that of record `last`.
pub open spec fn after_last(records: Seq<RecordView>, last: Option<usize>, name: Seq<char>) -> bool {
    match last {
        None => true,
        Some(l) => name_less(records[l as int].name, name),
    }
}

/// How many records still come after the names already written.
pub open spec fn remaining(records: Seq<RecordView>, last: Option<usize>) -> int {
    match last {
        None => records.len() as int + 1,
        Some(l) => records.filter(|r: RecordView| name_less(records[l as int].name, r.name)).len()
            as int,
    }
}

/// Writes the configuration as INI text: `[server]` with `bind` and
/// `upstream`, then one section per host name in increasing byte order of
/// the names, each listing its records in their order. The addresses are
/// given as texts: `bind_text`, `upstream_text` (present exactly when there is
/// an upstream) and one text per record.
pub fn encode_ini(
    configuration: &DnsConfig,
    bind_text: &str,
    upstream_text: Option<&str>,
    addresses: &Vec<String>,
) -> (text: String)
    requires
        addresses@.len() == configuration.records@.len(),
    ensures
        exists|order: Seq<Seq<char>>|
            name_order(order, configuration@.records) && text@ == server_text(
                bind_text@,
                match upstream_text {
                    Some(upstream) => Some(upstream@),
                    None => None,
                },
            ) + groups_text(configuration@.records, string_texts(addresses@), order),
{
    let ghost views = configuration@.records;
    let ghost texts = string_texts(addresses@);
    let ghost head = server_text(
        bind_text@,
        match upstream_text {
            Some(upstream) => Some(upstream@),
            None => None,
        },
    );
    let mut text = String::from_str("[server]\nbind = ");
    text.append(bind_text);
    text.append("\n");
    match upstream_text {
        Some(upstream) => {
            text.append("upstream = ");
            text.append(upstream);
            text.append("\n");
        },
        None => {},
    }
    assert(text@ =~= head);
    let records = &configuration.records;
    let n = records.len();
    let mut last: Option<usize> = None;
    let ghost mut order: Seq<Seq<char>> = Seq::empty();
    assert(groups_text(views, texts, order) =~= Seq::<char>::empty());
    loop
        invariant
            n == records@.len() == views.len() == texts.len(),
            records@ == configuration.records@,
            views == configuration@.records,
            texts == string_texts(addresses@),
            head == server_text(
                bind_text@,
                match upstream_text {
                    Some(upstream) => Some(upstream@),
                    None => None,
                },
            ),
            text@ == head + groups_text(views, texts, order),
            strictly_sorted(order),
            forall|x: Seq<char>|
                #[trigger] order.contains(x) <==> (has_record_name(views, x) && last is Some
                    && !after_last(views, last, x)),
            last is None ==> order.len() == 0,
            last matches Some(l) ==> l < n && order.len() > 0 && order.last() == views[l as int].name,
        decreases remaining(views, last),
    {
        let mut best: Option<usize> = None;
        let mut j: usize = 0;
        while j < n
            invariant
                j <= n,
                n == records@.len() == views.len(),
                records@ == configuration.records@,
                views == configuration@.records,
                last matches Some(l) ==> l < n,
                best matches Some(b) ==> b < j && after_last(views, last, views[b as int].name)
                    && forall|k: int|
                    0 <= k < j && after_last(views, last, views[k].name) ==> !name_less(
                        #[trigger] views[k].name,
                        views[b as int].name,
                    ),
                best is None ==> forall|k: int|
                    0 <= k < j ==> !after_last(views, last, #[trigger] views[k].name),
            decreases n - j,
        {
            assert(records@[j as int]@ == views[j as int]);
            let name = records[j].name.as_str().as_bytes();
            let above = match last {
                None => true,
                Some(l) => {
                    assert(records@[l as int]@ == views[l as int]);
                    bytes_less(records[l].name.as_str().as_bytes(), name)
                },
            };
            if above {
                match best {
                    None => {
                        best = Some(j);
                    },
                    Some(b) => {
                        assert(records@[b as int]@ == views[b as int]);
                        if bytes_less(name, records[b].name.as_str().as_bytes()) {
                            proof {
                                assert forall|k: int|
                                    0 <= k < j && after_last(views, last, views[k].name) implies !name_less(
                                    #[trigger] views[k].name,
                                    views[j as int].name,
                                ) by {
                                    lemma_name_order(views[k].name, views[j as int].name, views[b as int].name);
                                    lemma_name_order(views[j as int].name, views[b as int].name, views[k].name);
                                }
                                lemma_name_order(views[j as int].name, views[j as int].name, views[j as int].name);
                            }
                            best = Some(j);
                        }
                    },
                }
            }
            proof {
                if let Some(b) = best {
                    if b < j {
                        lemma_name_order(views[j as int].name, views[b as int].name, views[j as int].name);
                    } else {
                        lemma_name_order(views[j as int].name, views[j as int].name, views[j as int].name);
                    }
                }
            }
            j = j + 1;
        }
        let b = match best {
            None => {
                proof {
                    assert(name_order(order, views)) by {
                        assert forall|x: Seq<char>| #[trigger] order.contains(x) <==> has_record_name(views, x) by {
                            if has_record_name(views, x) {
                                let i = choose|i: int| 0 <= i < views.len() && #[trigger] views[i].name == x;
                                assert(!after_last(views, last, views[i].name));
                            }
                        }
                    }
                }
                return text;
            },
            Some(b) => b,
        };
        assert(records@[b as int]@ == views[b as int]);
        let ghost name_b = views[b as int].name;
        let ghost before_group = text@;
        text.append("\n[");
        text.append(records[b].name.as_str());
        text.append("]\n");
        let ghost opened = text@;
        assert(name_lines(views, texts, name_b, 0) =~= Seq::<char>::empty());
        let mut k: usize = 0;
        while k < n
            invariant
                k <= n,
                n == records@.len() == views.len() == texts.len() == addresses@.len(),
                records@ == configuration.records@,
                views == configuration@.records,
                texts == string_texts(addresses@),
                name_b == views[b as int].name,
                b < n,
                text@ == opened + name_lines(views, texts, name_b, k as int),
            decreases n - k,
        {
            assert(records@[k as int]@ == views[k as int]);
            assert(texts[k as int] == addresses@[k as int]@);
            let ghost written = text@;
            if records[k].name == records[b].name {
                text.append(records[k].record_type.ini_name());
                text.append(" = ");
                text.append(addresses[k].as_str());
                text.append("\n");
                assert(text@ =~= written + record_line(views[k as int], texts[k as int]));
            }
            assert(text@ =~= opened + name_lines(views, texts, name_b, k + 1));
            k = k + 1;
        }
        let ghost next_order = order.push(name_b);
        proof {
            assert(next_order.drop_last() =~= order);
            assert(text@ =~= head + groups_text(views, texts, next_order));
            lemma_name_order(name_b, name_b, name_b);
            assert forall|i: int, j2: int| 0 <= i < j2 < next_order.len() implies name_less(
                #[trigger] next_order[i],
                #[trigger] next_order[j2],
            ) by {
                if j2 == next_order.len() - 1 {
                    let x = next_order[i];
                    assert(order.contains(x));
                    if let Some(l) = last {
                        let lname = views[l as int].name;
                        lemma_name_order(x, lname, name_b);
                        lemma_name_order(lname, x, name_b);
                    }
                } else {
                    assert(next_order[i] == order[i] && next_order[j2] == order[j2]);
                }
            }
            assert forall|x: Seq<char>| #[trigger] next_order.contains(x) <==> (has_record_name(views, x)
                && !after_last(views, Some(b), x)) by {
                if next_order.contains(x) {
                    if x == name_b {
                        assert(views[b as int].name == x);
                    } else {
                        let i = choose|i: int| 0 <= i < next_order.len() && next_order[i] == x;
                        assert(order[i] == x);
                        assert(order.contains(x));
                        if let Some(l) = last {
                            let lname = views[l as int].name;
                            lemma_name_order(x, lname, name_b);
                            lemma_name_order(lname, x, name_b);
                            lemma_name_order(name_b, x, lname);
                        }
                    }
                }
                if has_record_name(views, x) && !after_last(views, Some(b), x) {
                    let i = choose|i: int| 0 <= i < views.len() && #[trigger] views[i].name == x;
                    lemma_name_order(x, name_b, x);
                    if x != name_b {
                        assert(name_less(x, name_b));
                        if after_last(views, last, x) {
                            assert(!name_less(views[i].name, name_b));
                            assert(false);
                        }
                        if let Some(l) = last {
                            assert(!name_less(views[l as int].name, x));
                        }
                        assert(order.contains(x));
                        let m = choose|m: int| 0 <= m < order.len() && order[m] == x;
                        assert(next_order[m] == x);
                    } else {
                        assert(next_order[next_order.len() - 1] == x);
                    }
                }
            }
            let wide = |r: RecordView| after_last(views, last, r.name);
            let narrow = |r: RecordView| name_less(name_b, r.name);
            assert forall|r: RecordView| #[trigger] narrow(r) implies wide(r) by {
                if let Some(l) = last {
                    lemma_name_order(views[l as int].name, name_b, r.name);
                }
            }
            lemma_filter_narrower(views, wide, narrow);
            assert(wide(views[b as int]) && !narrow(views[b as int]));
            views.lemma_filter_len(narrow);
            match last {
                None => {},
                Some(l) => {
                    let current = |r: RecordView| name_less(views[l as int].name, r.name);
                    assert(wide =~= current);
                },
            }
            let next = |r: RecordView| name_less(views[b as int].name, r.name);
            assert(narrow =~= next);
        }
        proof {
            order = next_order;
        }
        last = Some(b);
    }
}

} // verus!
