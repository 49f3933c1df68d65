//! The record-management protocol: requests from the command line, the
//! decisions the service takes on them, and how replies are read back.

use crate::config::{
    config_error_message, config_error_text, config_valid, first_problem,
    lemma_validate_error_in_range, lowered, record_problem, record_views, validate, validate_spec,
    validated, ConfigView, DnsConfig, DnsRecord, RecordType, RecordView,
};
use crate::ini_config::{group_text, has_record_name, name_lines, name_order, record_line};
use crate::text::{ascii_lower, lemma_ascii_lower_idempotent, to_ascii_lowercase};
use vstd::prelude::*;

verus! {

/// A request sent to the running service.
#[derive(Debug)]
pub enum Request {
    List,
    Add { record: DnsRecord },
    Delete { name: String },
    Restart,
}

/// The service's reply to a request.
#[derive(Debug)]
pub struct Response {
    pub ok: bool,
    pub result: String,
    pub records: Option<Vec<DnsRecord>>,
    pub detail: Option<String>,
}

/// What the service does after deciding on a request.
#[derive(Debug)]
pub enum Outcome {
    /// Send the response; the configuration stays as it is.
    Reply(Response),
    /// Store the configuration, then send the response if that succeeded.
    Save { configuration: DnsConfig, response: Response },
    /// Send the response and stop the service so that it is started again.
    Restart(Response),
}

/// A request as a value.
pub enum RequestView {
    List,
    Add(RecordView),
    Delete(Seq<char>),
    Restart,
}

/// A response as a value.
pub struct ResponseView {
    pub ok: bool,
    pub result: Seq<char>,
    pub records: Option<Seq<RecordView>>,
    pub detail: Option<Seq<char>>,
}

/// An outcome as a value.
pub enum OutcomeView {
    Reply(ResponseView),
    Save(ConfigView, ResponseView),
    Restart(ResponseView),
}

impl View for Request {
    type V = RequestView;

    open spec fn view(&self) -> RequestView {
        match self {
            Request::List => RequestView::List,
            Request::Add { record } => RequestView::Add(record@),
            Request::Delete { name } => RequestView::Delete(name@),
            Request::Restart => RequestView::Restart,
        }
    }
}

impl View for Response {
    type V = ResponseView;

    open spec fn view(&self) -> ResponseView {
        ResponseView {
            ok: self.ok,
            result: self.result@,
            records: match self.records {
                Some(records) => Some(record_views(records@)),
                None => None,
            },
            detail: match self.detail {
                Some(detail) => Some(detail@),
                None => None,
            },
        }
    }
}

impl View for Outcome {
    type V = OutcomeView;

    open spec fn view(&self) -> OutcomeView {
        match self {
            Outcome::Reply(response) => OutcomeView::Reply(response@),
            Outcome::Save { configuration, response } => OutcomeView::Save(
                configuration@,
                response@,
            ),
            Outcome::Restart(response) => OutcomeView::Restart(response@),
        }
    }
}

/// A successful reply.
pub open spec fn success_view(result: Seq<char>, records: Option<Seq<RecordView>>) -> ResponseView {
    ResponseView { ok: true, result, records, detail: None }
}

/// A refusal, with its reason.
pub open spec fn error_view(result: Seq<char>, detail: Seq<char>) -> ResponseView {
    ResponseView { ok: false, result, records: None, detail: Some(detail) }
}

/// A successful reply carrying `result` and, for a listing, the records.
pub fn success(result: &str, records: Option<Vec<DnsRecord>>) -> (response: Response)
    ensures
        response@ == success_view(
            result@,
            match records {
                Some(records) => Some(record_views(records@)),
                None => None,
            },
        ),
{
    Response { ok: true, result: String::from_str(result), records, detail: None }
}

/// A refusal carrying `result` and the reason `detail`.
pub fn error_response(result: &str, detail: &str) -> (response: Response)
    ensures
        response@ == error_view(result@, detail@),
{
    Response {
        ok: false,
        result: String::from_str(result),
        records: None,
        detail: Some(String::from_str(detail)),
    }
}

/// The first record with the same name, compared ASCII case-insensitively,
/// and the same type.
pub open spec fn first_with_key(
    records: Seq<RecordView>,
    name: Seq<char>,
    record_type: RecordType,
) -> Option<RecordView>
    decreases records.len(),
{
    if records.len() == 0 {
        None
    } else if ascii_lower(records[0].name) == ascii_lower(name) && records[0].record_type
        == record_type {
        Some(records[0])
    } else {
        first_with_key(records.drop_first(), name, record_type)
    }
}

/// Store `config` and answer `result` when it validates; answer `FAILED` with
/// the reason when it does not.
pub open spec fn save_or_fail(config: ConfigView, result: Seq<char>) -> OutcomeView {
    match validate_spec(config) {
        Ok(()) => OutcomeView::Save(validated(config), success_view(result, None)),
        Err(error) => OutcomeView::Reply(
            error_view("FAILED"@, config_error_text(error, validated(config).records)),
        ),
    }
}

/// The records that a deletion keeps: those whose name is not `name`.
pub open spec fn kept_records(records: Seq<RecordView>, name: Seq<char>) -> Seq<RecordView> {
    records.filter(|record: RecordView| record.name != name)
}

/// What the service decides on a request against the stored configuration.
pub open spec fn apply_spec(config: ConfigView, request: RequestView) -> OutcomeView {
    match request {
        RequestView::List => OutcomeView::Reply(success_view("LISTED"@, Some(config.records))),
        RequestView::Restart => OutcomeView::Restart(success_view("RESTARTING"@, None)),
        RequestView::Add(record) => {
            let added = lowered(record);
            match first_with_key(config.records, added.name, added.record_type) {
                Some(existing) => if existing.ip == added.ip {
                    OutcomeView::Reply(success_view("UNCHANGED"@, None))
                } else {
                    OutcomeView::Reply(
                        error_view(
                            "CONFLICT"@,
                            "record name and type already exist with a different IP"@,
                        ),
                    )
                },
                None => save_or_fail(
                    ConfigView { records: config.records.push(added), ..config },
                    "ADDED"@,
                ),
            }
        },
        RequestView::Delete(name) => {
            let target = ascii_lower(name);
            let kept = kept_records(config.records, target);
            if kept.len() == config.records.len() {
                OutcomeView::Reply(error_view("NOT_FOUND"@, "record does not exist"@))
            } else {
                save_or_fail(ConfigView { records: kept, ..config }, "DELETED"@)
            }
        },
    }
}

/// Validates `configuration` and decides to store it, or refuses with the
/// reason.
fn save_or_fail_exec(configuration: DnsConfig, result: &str) -> (outcome: Outcome)
    ensures
        outcome@ == save_or_fail(configuration@, result@),
{
    let mut configuration = configuration;
    let ghost before = configuration@;
    proof {
        lemma_validate_error_in_range(before);
    }
    let checked = validate(&mut configuration);
    assert(configuration.records@.len() == configuration@.records.len());
    match checked {
        Ok(()) => Outcome::Save { configuration, response: success(result, None) },
        Err(error) => {
            let detail = config_error_message(error, &configuration.records);
            Outcome::Reply(error_response("FAILED", detail.as_str()))
        },
    }
}

/// Whether two names are equal when ASCII case is ignored.
fn same_name_ignoring_case(a: &str, b: &str) -> (same: bool)
    ensures
        same == (ascii_lower(a@) == ascii_lower(b@)),
{
    to_ascii_lowercase(a) == to_ascii_lowercase(b)
}

/// Adds `record` (name lower-cased) unless a record of that name and type
/// exists: then the request is answered as unchanged when the address is the
/// same, and refused as a conflict when it differs.
#[verifier::loop_isolation(false)]
fn apply_add(configuration: DnsConfig, record: DnsRecord) -> (outcome: Outcome)
    ensures
        outcome@ == apply_spec(configuration@, RequestView::Add(record@)),
{
    let mut configuration = configuration;
    let mut record = record;
    let ghost original = record@;
    record.name = to_ascii_lowercase(record.name.as_str());
    assert(record@ == lowered(original));
    let ghost records = configuration@.records;
    let n = configuration.records.len();
    let mut i: usize = 0;
    assert(records.skip(0) =~= records);
    while i < n
        invariant
            i <= n,
            n == records.len(),
            records == configuration@.records,
            first_with_key(records, record@.name, record.record_type) == first_with_key(
                records.skip(i as int),
                record@.name,
                record.record_type,
            ),
        decreases n - i,
    {
        assert(records.skip(i as int).drop_first() =~= records.skip(i + 1));
        assert(configuration.records@[i as int]@ == records[i as int]);
        if same_name_ignoring_case(configuration.records[i].name.as_str(), record.name.as_str())
            && configuration.records[i].record_type == record.record_type {
            if configuration.records[i].ip.same(&record.ip) {
                return Outcome::Reply(success("UNCHANGED", None));
            }
            return Outcome::Reply(
                error_response("CONFLICT", "record name and type already exist with a different IP"),
            );
        }
        i = i + 1;
    }
    configuration.records.push(record);
    assert(configuration@.records =~= records.push(record@));
    save_or_fail_exec(configuration, "ADDED")
}

/// Deletes every record whose name is `name` lower-cased; refused as not
/// found when there is none.
fn apply_delete(configuration: DnsConfig, name: String) -> (outcome: Outcome)
    ensures
        outcome@ == apply_spec(configuration@, RequestView::Delete(name@)),
{
    let mut configuration = configuration;
    let target = to_ascii_lowercase(name.as_str());
    let ghost records = configuration@.records;
    let ghost keep = |record: RecordView| record.name != target@;
    let n = configuration.records.len();
    let mut kept: Vec<DnsRecord> = Vec::new();
    let mut i: usize = 0;
    assert(records.take(0) =~= Seq::<RecordView>::empty());
    assert(record_views(kept@) =~= Seq::<RecordView>::empty());
    while i < n
        invariant
            i <= n,
            n == records.len(),
            records == configuration@.records,
            keep == (|record: RecordView| record.name != target@),
            record_views(kept@) == records.take(i as int).filter(keep),
        decreases n - i,
    {
        proof {
            reveal_with_fuel(Seq::filter, 1);
            assert(records.take(i + 1).drop_last() =~= records.take(i as int));
        }
        assert(configuration.records@[i as int]@ == records[i as int]);
        if configuration.records[i].name != target {
            let copy = configuration.records[i].clone();
            kept.push(copy);
            assert(record_views(kept@) =~= records.take(i as int).filter(keep).push(
                records[i as int],
            ));
        }
        i = i + 1;
    }
    assert(records.take(n as int) =~= records);
    if kept.len() == n {
        return Outcome::Reply(error_response("NOT_FOUND", "record does not exist"));
    }
    configuration.records = kept;
    assert(configuration@.records == kept_records(records, target@));
    save_or_fail_exec(configuration, "DELETED")
}

/// Decides on one request against the stored configuration: lists the
/// records, adds a record (unchanged when it is already there, refused when
/// its name and type exist with another address), deletes every record of a
/// name, or asks for a restart. A changed configuration is validated before
/// it is handed back for storage.
pub fn apply_request(configuration: DnsConfig, request: Request) -> (outcome: Outcome)
    ensures
        outcome@ == apply_spec(configuration@, request@),
{
    match request {
        Request::List => Outcome::Reply(success("LISTED", Some(configuration.records))),
        Request::Restart => Outcome::Restart(success("RESTARTING", None)),
        Request::Add { record } => apply_add(configuration, record),
        Request::Delete { name } => apply_delete(configuration, name),
    }
}


/// The largest request frame, in bytes, that the service reads.
pub const MAX_FRAME: usize = 1048576;

/// Whether a frame that was read (`size` bytes, text `frame`) is one request:
/// not empty, at most `MAX_FRAME` bytes, ending with a newline.
pub fn frame_accepted(size: usize, frame: &str) -> (accepted: bool)
    ensures
        accepted == (0 < size <= MAX_FRAME && frame@.len() > 0 && frame@.last() == '\n'),
{
    if size == 0 || size > MAX_FRAME {
        return false;
    }
    let length = frame.unicode_len();
    length > 0 && frame.get_char(length - 1) == '\n'
}

/// The request that lists the records.
pub fn list() -> (request: Request)
    ensures
        request@ == RequestView::List,
{
    Request::List
}

/// The request that adds `record`.
pub fn add(record: DnsRecord) -> (request: Request)
    ensures
        request@ == RequestView::Add(record@),
{
    Request::Add { record }
}

/// The request that deletes every record of `name`.
pub fn delete(name: String) -> (request: Request)
    ensures
        request@ == RequestView::Delete(name@),
{
    Request::Delete { name }
}

/// The request that restarts the service.
pub fn restart() -> (request: Request)
    ensures
        request@ == RequestView::Restart,
{
    Request::Restart
}

/// The reason a refusal gives: its detail, or its result code when it has no
/// detail.
pub open spec fn refusal_reason(response: ResponseView) -> Seq<char> {
    match response.detail {
        Some(detail) => detail,
        None => response.result,
    }
}

/// Reads a reply to a request that carries no data: `Ok` when the service
/// succeeded, otherwise the reason it gave.
pub fn ensure_success(response: Response) -> (result: Result<(), String>)
    ensures
        match result {
            Ok(()) => response.ok,
            Err(reason) => !response.ok && reason@ == refusal_reason(response@),
        },
{
    if response.ok {
        Ok(())
    } else {
        match response.detail {
            Some(detail) => Err(detail),
            None => Err(response.result),
        }
    }
}

/// Reads the reply to a listing: the records, or why there are none.
pub fn listed_records(response: Response) -> (result: Result<Vec<DnsRecord>, String>)
    ensures
        match result {
            Ok(records) => response.ok && response.records == Some(records),
            Err(reason) => if response.ok {
                response.records is None && reason@ == "DNS control response is missing records"@
            } else {
                reason@ == refusal_reason(response@)
            },
        },
{
    if response.ok {
        match response.records {
            Some(records) => Ok(records),
            None => Err(String::from_str("DNS control response is missing records")),
        }
    } else {
        match response.detail {
            Some(detail) => Err(detail),
            None => Err(response.result),
        }
    }
}

/// An added record is stored: after `ADDED` the stored configuration holds
/// the earlier records (names lower-cased) followed by the new record with
/// its name lower-cased, and the listening and upstream addresses unchanged.
pub proof fn law_added_record_is_stored(config: ConfigView, record: RecordView)
    requires
        apply_spec(config, RequestView::Add(record)) is Save,
    ensures
        ({
            let stored = apply_spec(config, RequestView::Add(record))->Save_0;
            let response = apply_spec(config, RequestView::Add(record))->Save_1;
            &&& response == success_view("ADDED"@, None)
            &&& stored.bind == config.bind
            &&& stored.upstream == config.upstream
            &&& stored.records.len() == config.records.len() + 1
            &&& stored.records.last() == lowered(record)
            &&& forall|i: int|
                0 <= i < config.records.len() ==> #[trigger] stored.records[i] == lowered(
                    config.records[i],
                )
        }),
{
    lemma_ascii_lower_idempotent(record.name);
    assert(lowered(lowered(record)) =~= lowered(record));
}

/// In an accepted configuration every record is free of problems.
pub(crate) proof fn lemma_valid_records_have_no_problem(records: Seq<RecordView>, from: int, i: int)
    requires
        0 <= from <= i < records.len(),
        first_problem(records, from) is None,
    ensures
        record_problem(records, i) is None,
    decreases i - from,
{
    if from < i {
        lemma_valid_records_have_no_problem(records, from + 1, i);
    }
}

/// In an accepted configuration the first record with a record's name and
/// type is that record itself.
proof fn lemma_first_with_key_finds(records: Seq<RecordView>, k: int)
    requires
        0 <= k < records.len(),
        first_problem(records, 0) is None,
    ensures
        first_with_key(records, records[k].name, records[k].record_type) == Some(records[k]),
    decreases records.len(),
{
    lemma_valid_records_have_no_problem(records, 0, k);
    let name = records[k].name;
    if k > 0 {
        if ascii_lower(records[0].name) == ascii_lower(name) && records[0].record_type
            == records[k].record_type {
            assert(ascii_lower(records[0].name) == ascii_lower(records[k].name));
            assert(false);
        }
        let rest = records.drop_first();
        assert(rest[k - 1] == records[k]);
        assert forall|i: int| 0 <= i < rest.len() implies #[trigger] record_problem(rest, i) is None by {
            lemma_valid_records_have_no_problem(records, 0, i + 1);
            if exists|j: int|
                0 <= j < i && #[trigger] ascii_lower(rest[j].name) == ascii_lower(rest[i].name)
                    && rest[j].record_type == rest[i].record_type {
                let j = choose|j: int|
                    0 <= j < i && #[trigger] ascii_lower(rest[j].name) == ascii_lower(
                        rest[i].name,
                    ) && rest[j].record_type == rest[i].record_type;
                assert(ascii_lower(records[j + 1].name) == ascii_lower(records[i + 1].name));
            }
        }
        lemma_no_problem_means_none(rest, 0);
        lemma_first_with_key_finds(rest, k - 1);
    }
}

/// Records that each have no problem have no first problem.
pub(crate) proof fn lemma_no_problem_means_none(records: Seq<RecordView>, from: int)
    requires
        0 <= from,
        forall|i: int| 0 <= i < records.len() ==> #[trigger] record_problem(records, i) is None,
    ensures
        first_problem(records, from) is None,
    decreases records.len() - from,
{
    if from < records.len() {
        lemma_no_problem_means_none(records, from + 1);
    }
}

/// Adding a record that is already stored changes nothing: the request is
/// answered `UNCHANGED` and no configuration is stored.
pub proof fn law_adding_stored_record_is_unchanged(config: ConfigView, k: int)
    requires
        config_valid(config),
        0 <= k < config.records.len(),
    ensures
        apply_spec(config, RequestView::Add(config.records[k])) == OutcomeView::Reply(
            success_view("UNCHANGED"@, None),
        ),
{
    let record = config.records[k];
    assert(config.upstream != Some(config.bind));
    lemma_first_with_key_finds(config.records, k);
    assert(lowered(record).name == record.name);
    assert(lowered(record) =~= record);
}

/// Deleting a name removes every record of that name and keeps all the
/// others in order: after `DELETED` the stored configuration holds exactly
/// the records whose name differs from the lower-cased name.
pub proof fn law_delete_removes_every_record_of_the_name(config: ConfigView, name: Seq<char>)
    requires
        config_valid(config),
        apply_spec(config, RequestView::Delete(name)) is Save,
    ensures
        ({
            let stored = apply_spec(config, RequestView::Delete(name))->Save_0;
            let response = apply_spec(config, RequestView::Delete(name))->Save_1;
            &&& response == success_view("DELETED"@, None)
            &&& stored.bind == config.bind
            &&& stored.upstream == config.upstream
            &&& stored.records == kept_records(config.records, ascii_lower(name))
            &&& forall|i: int|
                0 <= i < stored.records.len() ==> #[trigger] stored.records[i].name != ascii_lower(
                    name,
                )
        }),
{
    broadcast use vstd::seq_lib::group_filter_ensures;

    let target = ascii_lower(name);
    let keep = |record: RecordView| record.name != target;
    let kept = kept_records(config.records, target);
    let reduced = ConfigView { records: kept, ..config };
    assert forall|i: int| 0 <= i < kept.len() implies #[trigger] ascii_lower(kept[i].name)
        == kept[i].name by {
        assert(kept.contains(kept[i]));
        config.records.lemma_filter_contains_rev(keep, kept[i]);
        let j = choose|j: int| 0 <= j < config.records.len() && config.records[j] == kept[i];
        assert(ascii_lower(config.records[j].name) == config.records[j].name);
    }
    assert(validated(reduced).records =~= kept);
    assert forall|i: int| 0 <= i < kept.len() implies #[trigger] kept[i].name != target by {
        assert(keep(kept[i]));
    }
}


/// Filtering keeps a sequence whole when every element passes.
proof fn lemma_filter_keeps_all(s: Seq<RecordView>, keep: spec_fn(RecordView) -> bool)
    requires
        forall|i: int| 0 <= i < s.len() ==> keep(#[trigger] s[i]),
    ensures
        s.filter(keep) == s,
    decreases s.len(),
{
    reveal_with_fuel(Seq::filter, 1);
    if s.len() > 0 {
        assert forall|i: int| 0 <= i < s.drop_last().len() implies keep(#[trigger] s.drop_last()[i]) by {
            assert(s.drop_last()[i] == s[i]);
        }
        lemma_filter_keeps_all(s.drop_last(), keep);
        assert(s.drop_last().push(s.last()) =~= s);
    }
}

/// Deleting a name that no record has is refused as not found, and nothing
/// is stored.
pub proof fn law_delete_of_unknown_name_is_not_found(config: ConfigView, name: Seq<char>)
    requires
        forall|i: int| 0 <= i < config.records.len() ==> #[trigger] config.records[i].name != ascii_lower(name),
    ensures
        apply_spec(config, RequestView::Delete(name)) == OutcomeView::Reply(
            error_view("NOT_FOUND"@, "record does not exist"@),
        ),
{
    let target = ascii_lower(name);
    lemma_filter_keeps_all(config.records, |record: RecordView| record.name != target);
}

/// After `DELETED` the written file has no section for the deleted name and
/// one for every other name it had: any name order of the stored records
/// (the sections that `encode_ini` writes, one per name) lists exactly the
/// names of the configuration before, less the lower-cased deleted name.
pub proof fn law_deleted_name_leaves_the_file(
    config: ConfigView,
    name: Seq<char>,
    order: Seq<Seq<char>>,
)
    requires
        config_valid(config),
        apply_spec(config, RequestView::Delete(name)) is Save,
        name_order(order, apply_spec(config, RequestView::Delete(name))->Save_0.records),
    ensures
        !order.contains(ascii_lower(name)),
        forall|other: Seq<char>|
            other != ascii_lower(name) ==> (#[trigger] order.contains(other) <==> has_record_name(
                config.records,
                other,
            )),
{
    broadcast use vstd::seq_lib::group_filter_ensures;

    law_delete_removes_every_record_of_the_name(config, name);
    let target = ascii_lower(name);
    let keep = |record: RecordView| record.name != target;
    let stored = apply_spec(config, RequestView::Delete(name))->Save_0.records;
    assert(stored == config.records.filter(keep));
    if order.contains(target) {
        let i = choose|i: int| 0 <= i < stored.len() && #[trigger] stored[i].name == target;
        assert(stored[i].name != target);
    }
    assert forall|other: Seq<char>| other != target implies (#[trigger] order.contains(other)
        <==> has_record_name(config.records, other)) by {
        if has_record_name(stored, other) {
            let i = choose|i: int| 0 <= i < stored.len() && #[trigger] stored[i].name == other;
            assert(stored.contains(stored[i]));
            config.records.lemma_filter_contains_rev(keep, stored[i]);
            let j = choose|j: int| 0 <= j < config.records.len() && config.records[j] == stored[i];
            assert(config.records[j].name == other);
        }
        if has_record_name(config.records, other) {
            let j = choose|j: int|
                0 <= j < config.records.len() && #[trigger] config.records[j].name == other;
            assert(keep(config.records[j]));
            assert(stored.contains(config.records[j]));
            let i = choose|i: int| 0 <= i < stored.len() && stored[i] == config.records[j];
            assert(stored[i].name == other);
        }
    }
}

/// After `ADDED` the written file has a section for the record's lower-cased
/// name, and that section ends with the new record's line: for any address
/// texts of the stored records and any name order of them, the name is in
/// the order and its section is its header, the lines of the records before,
/// and the line of the added record with the last address text.
pub proof fn law_added_record_is_written(
    config: ConfigView,
    record: RecordView,
    addresses: Seq<Seq<char>>,
    order: Seq<Seq<char>>,
)
    requires
        apply_spec(config, RequestView::Add(record)) is Save,
        addresses.len() == config.records.len() + 1,
        name_order(order, apply_spec(config, RequestView::Add(record))->Save_0.records),
    ensures
        ({
            let stored = apply_spec(config, RequestView::Add(record))->Save_0.records;
            let added = lowered(record);
            &&& order.contains(added.name)
            &&& group_text(stored, addresses, added.name) == "\n["@ + added.name + "]\n"@
                + name_lines(stored, addresses, added.name, config.records.len() as int)
                + record_line(added, addresses.last())
        }),
{
    law_added_record_is_stored(config, record);
    let stored = apply_spec(config, RequestView::Add(record))->Save_0.records;
    let added = lowered(record);
    let last = config.records.len() as int;
    assert(stored[last].name == added.name);
    assert(has_record_name(stored, added.name));
}

/// A listing answers with every stored record, in stored order: `LISTED`,
/// success, the records exactly as stored, no detail, and nothing stored.
pub proof fn law_list_answers_the_stored_records(config: ConfigView)
    ensures
        apply_spec(config, RequestView::List) == OutcomeView::Reply(
            ResponseView { ok: true, result: "LISTED"@, records: Some(config.records), detail: None },
        ),
{
}

/// Adding a record whose lower-cased name and type are stored with another
/// address is refused as a conflict, and nothing is stored.
pub proof fn law_adding_other_address_conflicts(config: ConfigView, record: RecordView, k: int)
    requires
        config_valid(config),
        0 <= k < config.records.len(),
        config.records[k].name == ascii_lower(record.name),
        config.records[k].record_type == record.record_type,
        config.records[k].ip != record.ip,
    ensures
        apply_spec(config, RequestView::Add(record)) == OutcomeView::Reply(
            ResponseView {
                ok: false,
                result: "CONFLICT"@,
                records: None,
                detail: Some("record name and type already exist with a different IP"@),
            },
        ),
{
    assert(config.upstream != Some(config.bind));
    lemma_first_with_key_finds(config.records, k);
}

/// Adding a record whose lower-cased name, type and address are stored
/// answers `UNCHANGED`, and nothing is stored.
pub proof fn law_adding_same_address_is_unchanged(config: ConfigView, record: RecordView, k: int)
    requires
        config_valid(config),
        0 <= k < config.records.len(),
        config.records[k].name == ascii_lower(record.name),
        config.records[k].record_type == record.record_type,
        config.records[k].ip == record.ip,
    ensures
        apply_spec(config, RequestView::Add(record)) == OutcomeView::Reply(
            ResponseView { ok: true, result: "UNCHANGED"@, records: None, detail: None },
        ),
{
    assert(config.upstream != Some(config.bind));
    lemma_first_with_key_finds(config.records, k);
}

/// A restart request is answered with success `RESTARTING` and stops the
/// service, storing nothing.
pub proof fn law_restart_answers_and_stops(config: ConfigView)
    ensures
        apply_spec(config, RequestView::Restart) == OutcomeView::Restart(
            ResponseView { ok: true, result: "RESTARTING"@, records: None, detail: None },
        ),
{
}

} // verus!
