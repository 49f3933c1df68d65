//! Reading back a written configuration: the document that the written INI
//! text lays out, and what `parse_ini` and `finish_config` make of it.

use crate::config::{
    config_valid, first_problem, ini_name_text, law_validate_keeps_valid_config, record_problem,
    validate_spec, validated, ConfigView, RecordType, RecordView,
};
use crate::control::{
    apply_spec, law_delete_removes_every_record_of_the_name, lemma_no_problem_means_none,
    lemma_valid_records_have_no_problem, RequestView,
};
use crate::ini_config::{
    config_from, finish_spec, first_invalid, has_record_name, name_order, outline_spec,
    record_start, server_entries, walk_pairs, walk_sections, EntryView, IniErrorView, ParsedView,
};
use crate::ini_file::{first_pair, first_section, ini_document, PairsView, SectionsView};
use crate::ordering::{lemma_lex_irreflexive, name_less, strictly_sorted};
use crate::text::ascii_lower;
use vstd::prelude::*;
use vstd::seq_lib::lemma_no_dup_in_concat;

verus! {

/// Each record beside the address text written for it.
pub open spec fn with_texts(records: Seq<RecordView>, addresses: Seq<Seq<char>>) -> Seq<
    (RecordView, Seq<char>),
> {
    Seq::new(records.len(), |i: int| (records[i], addresses[i]))
}

/// The records named `name`, in stored order, with their address texts.
pub open spec fn named(written: Seq<(RecordView, Seq<char>)>, name: Seq<char>) -> Seq<
    (RecordView, Seq<char>),
> {
    written.filter(|w: (RecordView, Seq<char>)| w.0.name == name)
}

/// The pairs of a host section: each record's type key and address text.
pub open spec fn host_pairs(group: Seq<(RecordView, Seq<char>)>) -> PairsView {
    group.map_values(|w: (RecordView, Seq<char>)| (ini_name_text(w.0.record_type), w.1))
}

/// The address texts read from a host section.
pub open spec fn host_entries(name: Seq<char>, group: Seq<(RecordView, Seq<char>)>) -> Seq<
    EntryView,
> {
    group.map_values(|w: (RecordView, Seq<char>)| EntryView::Record(name, w.0.record_type, w.1))
}

/// The pairs of the `[server]` section: `bind`, and `upstream` when there
/// is one.
pub open spec fn server_pairs(bind: Seq<char>, upstream: Option<Seq<char>>) -> PairsView {
    match upstream {
        Some(text) => seq![("bind"@, bind), ("upstream"@, text)],
        None => seq![("bind"@, bind)],
    }
}

/// The document that a written configuration lays out: the empty unnamed
/// section that every loaded document begins with, `[server]`, then one
/// section per name of `order` holding that name's records in stored order.
pub open spec fn written_document(
    bind: Seq<char>,
    upstream: Option<Seq<char>>,
    written: Seq<(RecordView, Seq<char>)>,
    order: Seq<Seq<char>>,
) -> SectionsView {
    seq![(None, Seq::empty()), (Some("server"@), server_pairs(bind, upstream))]
        + order.map_values(|name: Seq<char>| (Some(name), host_pairs(named(written, name))))
}

/// The address texts of `[server]`: the listening address, then the
/// upstream when there is one.
pub open spec fn server_texts(bind: Seq<char>, upstream: Option<Seq<char>>) -> Seq<EntryView> {
    match upstream {
        Some(text) => seq![EntryView::Bind(bind), EntryView::Upstream(text)],
        None => seq![EntryView::Bind(bind)],
    }
}

/// The address texts of the host sections, name after name of `order`.
pub open spec fn host_texts(written: Seq<(RecordView, Seq<char>)>, order: Seq<Seq<char>>) -> Seq<
    EntryView,
>
    decreases order.len(),
{
    if order.len() == 0 {
        Seq::empty()
    } else {
        host_texts(written, order.drop_last()) + host_entries(
            order.last(),
            named(written, order.last()),
        )
    }
}

/// The records grouped by name, names in the order of `order`, each name's
/// records in stored order.
pub open spec fn grouped_records(
    written: Seq<(RecordView, Seq<char>)>,
    order: Seq<Seq<char>>,
) -> Seq<RecordView>
    decreases order.len(),
{
    if order.len() == 0 {
        Seq::empty()
    } else {
        grouped_records(written, order.drop_last()) + named(written, order.last()).map_values(
            |w: (RecordView, Seq<char>)| w.0,
        )
    }
}

/// Reading the pairs of a host section yields one record text per pair.
proof fn lemma_walk_host_pairs(
    name: Seq<char>,
    group: Seq<(RecordView, Seq<char>)>,
    j: int,
    entries: Seq<EntryView>,
)
    requires
        0 <= j <= group.len(),
    ensures
        walk_pairs(name, host_pairs(group), j, entries) == (
            entries + host_entries(name, group).skip(j),
            None::<IniErrorView>,
        ),
    decreases group.len() - j,
{
    reveal_strlit("A");
    reveal_strlit("AAAA");
    let pairs = host_pairs(group);
    if j == group.len() {
        assert(host_entries(name, group).skip(j) =~= Seq::<EntryView>::empty());
        assert(entries + Seq::<EntryView>::empty() =~= entries);
    } else {
        let w = group[j];
        let entry = EntryView::Record(name, w.0.record_type, w.1);
        assert(pairs[j] == (ini_name_text(w.0.record_type), w.1));
        assert("A"@ =~= seq!['A']);
        assert("AAAA"@ =~= seq!['A', 'A', 'A', 'A']);
        assert("A"@.len() != "AAAA"@.len());
        match w.0.record_type {
            RecordType::A => assert(pairs[j].0 == "A"@),
            RecordType::Aaaa => assert(pairs[j].0 == "AAAA"@ && pairs[j].0 != "A"@),
        }
        lemma_walk_host_pairs(name, group, j + 1, entries.push(entry));
        assert(host_entries(name, group)[j] == entry);
        assert(entries.push(entry) + host_entries(name, group).skip(j + 1) =~= entries
            + host_entries(name, group).skip(j));
    }
}

/// Reading the host sections from the one of `order[j]` on yields the
/// address texts of those names in turn.
proof fn lemma_walk_host_sections(
    bind: Seq<char>,
    upstream: Option<Seq<char>>,
    written: Seq<(RecordView, Seq<char>)>,
    order: Seq<Seq<char>>,
    j: int,
    entries: Seq<EntryView>,
)
    requires
        0 <= j <= order.len(),
        !order.contains("server"@),
    ensures
        walk_sections(
            written_document(bind, upstream, written, order),
            2 + j,
            entries + host_texts(written, order.take(j)),
        ) == (entries + host_texts(written, order), None::<IniErrorView>),
    decreases order.len() - j,
{
    let document = written_document(bind, upstream, written, order);
    assert(document.len() == 2 + order.len());
    if j == order.len() {
        assert(order.take(j) =~= order);
    } else {
        let name = order[j];
        let group = named(written, name);
        assert(document[2 + j] == (Some(name), host_pairs(group)));
        assert(name != "server"@);
        let before = entries + host_texts(written, order.take(j));
        lemma_walk_host_pairs(name, group, 0, before);
        assert(host_entries(name, group).skip(0) =~= host_entries(name, group));
        assert(order.take(j + 1).drop_last() =~= order.take(j));
        assert(before + host_entries(name, group) =~= entries + host_texts(
            written,
            order.take(j + 1),
        ));
        lemma_walk_host_sections(bind, upstream, written, order, j + 1, entries);
    }
}

/// `[server]` as written reads as its listening address and upstream.
proof fn lemma_written_server(
    bind: Seq<char>,
    upstream: Option<Seq<char>>,
    written: Seq<(RecordView, Seq<char>)>,
    order: Seq<Seq<char>>,
)
    requires
        upstream matches Some(text) ==> text.len() > 0,
    ensures
        server_entries(written_document(bind, upstream, written, order)) == Ok::<
            Seq<EntryView>,
            IniErrorView,
        >(server_texts(bind, upstream)),
{
    reveal_strlit("bind");
    reveal_strlit("upstream");
    let document = written_document(bind, upstream, written, order);
    let pairs = server_pairs(bind, upstream);
    assert(document[0].0 is None);
    assert(document[1] == (Some("server"@), pairs));
    assert(first_section(document, "server"@) == Some(1int));
    assert("bind"@.len() != "upstream"@.len());
    assert(pairs[0].0 == "bind"@);
    assert(first_pair(pairs, "bind"@) == Some(0int));
    match upstream {
        Some(text) => {
            assert(pairs[1].0 == "upstream"@);
            assert(first_pair(pairs, "upstream"@) == Some(1int));
            assert(seq![EntryView::Bind(bind)].push(EntryView::Upstream(text)) =~= server_texts(
                bind,
                upstream,
            ));
        },
        None => {
            assert(first_pair(pairs, "upstream"@) is None);
        },
    }
}

/// The addresses that the written texts read as: the listening address, the
/// upstream when there is one, then the address of each grouped record.
pub open spec fn read_addresses(config: ConfigView, grouped: Seq<RecordView>) -> Seq<ParsedView> {
    let head = match config.upstream {
        Some(upstream) => seq![ParsedView::Socket(config.bind), ParsedView::Socket(upstream)],
        None => seq![ParsedView::Socket(config.bind)],
    };
    head + grouped.map_values(|record: RecordView| ParsedView::Ip(record.ip))
}

/// The host texts and the grouped records come in the same order: one text
/// per record, with its name and type.
proof fn lemma_texts_follow_records(written: Seq<(RecordView, Seq<char>)>, order: Seq<Seq<char>>)
    ensures
        host_texts(written, order).len() == grouped_records(written, order).len(),
        forall|k: int|
            0 <= k < host_texts(written, order).len() ==> {
                let text = #[trigger] host_texts(written, order)[k];
                &&& text is Record
                &&& text->Record_0 == grouped_records(written, order)[k].name
                &&& text->Record_1 == grouped_records(written, order)[k].record_type
            },
    decreases order.len(),
{
    broadcast use vstd::seq_lib::group_filter_ensures;

    if order.len() > 0 {
        let rest = order.drop_last();
        let name = order.last();
        let group = named(written, name);
        lemma_texts_follow_records(written, rest);
        let before = host_texts(written, rest).len();
        assert forall|k: int| 0 <= k < host_texts(written, order).len() implies {
            let text = #[trigger] host_texts(written, order)[k];
            &&& text is Record
            &&& text->Record_0 == grouped_records(written, order)[k].name
            &&& text->Record_1 == grouped_records(written, order)[k].record_type
        } by {
            if k >= before {
                let i = k - before;
                assert(group.contains(group[i]));
                assert(group[i].0.name == name);
                assert(host_texts(written, order)[k] == host_entries(name, group)[i]);
                assert(grouped_records(written, order)[k] == group[i].0);
            } else {
                assert(host_texts(written, order)[k] == host_texts(written, rest)[k]);
                assert(grouped_records(written, order)[k] == grouped_records(written, rest)[k]);
            }
        }
    }
}

/// No address failed to read, so none is reported.
proof fn lemma_none_invalid(parsed: Seq<ParsedView>, from: int)
    requires
        0 <= from,
        forall|i: int| 0 <= i < parsed.len() ==> !(#[trigger] parsed[i] is Invalid),
    ensures
        first_invalid(parsed, from) is None,
    decreases parsed.len() - from,
{
    if from < parsed.len() {
        lemma_none_invalid(parsed, from + 1);
    }
}

/// The written document reads as the server texts, then the host texts.
proof fn lemma_written_outline(
    bind_text: Seq<char>,
    upstream_text: Option<Seq<char>>,
    written: Seq<(RecordView, Seq<char>)>,
    order: Seq<Seq<char>>,
    source: Seq<char>,
)
    requires
        !order.contains("server"@),
        upstream_text matches Some(text) ==> text.len() > 0,
        ini_document(source) == Ok::<SectionsView, Seq<char>>(
            written_document(bind_text, upstream_text, written, order),
        ),
    ensures
        outline_spec(source) == (
            server_texts(bind_text, upstream_text) + host_texts(written, order),
            None::<IniErrorView>,
        ),
{
    let document = written_document(bind_text, upstream_text, written, order);
    let base = server_texts(bind_text, upstream_text);
    lemma_written_server(bind_text, upstream_text, written, order);
    assert(document[0] == (None::<Seq<char>>, Seq::<(Seq<char>, Seq<char>)>::empty()));
    assert(document[1].0 == Some("server"@));
    assert(order.take(0) =~= Seq::<Seq<char>>::empty());
    assert(base + host_texts(written, order.take(0)) =~= base);
    lemma_walk_host_sections(bind_text, upstream_text, written, order, 0, base);
    assert(walk_sections(document, 2, base) == (base + host_texts(written, order), None::<IniErrorView>));
    assert(walk_sections(document, 1, base) == walk_sections(document, 2, base));
    assert(walk_sections(document, 0, base) == walk_sections(document, 1, base));
}

/// The written texts, read as the addresses they were written for, build the
/// configuration with its records grouped.
proof fn lemma_written_config(
    config: ConfigView,
    bind_text: Seq<char>,
    upstream_text: Option<Seq<char>>,
    written: Seq<(RecordView, Seq<char>)>,
    order: Seq<Seq<char>>,
)
    requires
        upstream_text is Some <==> config.upstream is Some,
    ensures
        finish_spec(
            (server_texts(bind_text, upstream_text) + host_texts(written, order), None::<IniErrorView>),
            read_addresses(config, grouped_records(written, order)),
        ) == Ok::<ConfigView, IniErrorView>(
            ConfigView { records: grouped_records(written, order), ..config },
        ),
{
    let grouped = grouped_records(written, order);
    let base = server_texts(bind_text, upstream_text);
    let entries = base + host_texts(written, order);
    lemma_texts_follow_records(written, order);
    let parsed = read_addresses(config, grouped);
    let start = base.len() as int;
    assert(record_start(entries) == start);
    assert forall|i: int| 0 <= i < parsed.len() implies !(#[trigger] parsed[i] is Invalid) by {
        if i >= start {
            assert(parsed[i] == ParsedView::Ip(grouped[i - start].ip));
        }
    }
    lemma_none_invalid(parsed, 0);
    let built = config_from(entries, parsed);
    assert forall|k: int| 0 <= k < grouped.len() implies #[trigger] built.records[k] == grouped[k] by {
        assert(entries[k + start] == host_texts(written, order)[k]);
        assert(parsed[k + start] == ParsedView::Ip(grouped[k].ip));
    }
    assert(built.records =~= grouped);
    assert(built =~= ConfigView { records: grouped, ..config });
}

/// What is written reads back. Where the INI reader reads the written text
/// as the document laid out above (the unnamed section, `[server]`, then one
/// section per host name in name order) and each address text reads as the
/// address it was written for, `parse_ini` finds the written address texts
/// and no problem, and `finish_config` builds the same listening address,
/// the same upstream, and the records grouped by name in name order, each
/// name's records in their stored order. A record named `server` is the
/// exception: its section would be read as `[server]`.
pub proof fn law_written_configuration_reads_back(
    config: ConfigView,
    bind_text: Seq<char>,
    upstream_text: Option<Seq<char>>,
    addresses: Seq<Seq<char>>,
    order: Seq<Seq<char>>,
    source: Seq<char>,
)
    requires
        addresses.len() == config.records.len(),
        name_order(order, config.records),
        !has_record_name(config.records, "server"@),
        upstream_text is Some <==> config.upstream is Some,
        upstream_text matches Some(text) ==> text.len() > 0,
        ini_document(source) == Ok::<SectionsView, Seq<char>>(
            written_document(bind_text, upstream_text, with_texts(config.records, addresses), order),
        ),
    ensures
        ({
            let written = with_texts(config.records, addresses);
            let grouped = grouped_records(written, order);
            &&& outline_spec(source) == (
                server_texts(bind_text, upstream_text) + host_texts(written, order),
                None::<IniErrorView>,
            )
            &&& finish_spec(outline_spec(source), read_addresses(config, grouped)) == Ok::<
                ConfigView,
                IniErrorView,
            >(ConfigView { records: grouped, ..config })
        }),
{
    let written = with_texts(config.records, addresses);
    lemma_written_outline(bind_text, upstream_text, written, order, source);
    lemma_written_config(config, bind_text, upstream_text, written, order);
}

/// Whether `record` is one of the written records.
spec fn was_written(written: Seq<(RecordView, Seq<char>)>, record: RecordView) -> bool {
    exists|i: int| 0 <= i < written.len() && written[i].0 == record
}

/// Every grouped record is one of the written records.
proof fn lemma_grouped_were_written(written: Seq<(RecordView, Seq<char>)>, order: Seq<Seq<char>>)
    ensures
        forall|k: int|
            0 <= k < grouped_records(written, order).len() ==> was_written(
                written,
                #[trigger] grouped_records(written, order)[k],
            ),
    decreases order.len(),
{
    broadcast use vstd::seq_lib::group_filter_ensures;

    if order.len() > 0 {
        let rest = order.drop_last();
        let name = order.last();
        let group = named(written, name);
        lemma_grouped_were_written(written, rest);
        let before = grouped_records(written, rest).len();
        assert forall|k: int| 0 <= k < grouped_records(written, order).len() implies was_written(
            written,
            #[trigger] grouped_records(written, order)[k],
        ) by {
            if k >= before {
                let m = k - before;
                assert(group.contains(group[m]));
                written.lemma_filter_contains_rev(
                    |w: (RecordView, Seq<char>)| w.0.name == name,
                    group[m],
                );
                let i = choose|i: int| 0 <= i < written.len() && written[i] == group[m];
                assert(grouped_records(written, order)[k] == group[m].0);
                assert(written[i].0 == grouped_records(written, order)[k]);
            } else {
                assert(grouped_records(written, order)[k] == grouped_records(written, rest)[k]);
            }
        }
    }
}

/// A deletion persists. After `DELETED`, where the file saved from the
/// stored configuration reads back as `law_written_configuration_reads_back`
/// describes, the configuration read back has no record of the lower-cased
/// deleted name, and every record in it was in the configuration before.
pub proof fn law_deletion_survives_reading_back(
    config: ConfigView,
    name: Seq<char>,
    bind_text: Seq<char>,
    upstream_text: Option<Seq<char>>,
    addresses: Seq<Seq<char>>,
    order: Seq<Seq<char>>,
    source: Seq<char>,
)
    requires
        config_valid(config),
        apply_spec(config, RequestView::Delete(name)) is Save,
        addresses.len() == apply_spec(config, RequestView::Delete(name))->Save_0.records.len(),
        name_order(order, apply_spec(config, RequestView::Delete(name))->Save_0.records),
        !has_record_name(config.records, "server"@),
        upstream_text is Some <==> config.upstream is Some,
        upstream_text matches Some(text) ==> text.len() > 0,
        ini_document(source) == Ok::<SectionsView, Seq<char>>(
            written_document(
                bind_text,
                upstream_text,
                with_texts(apply_spec(config, RequestView::Delete(name))->Save_0.records, addresses),
                order,
            ),
        ),
    ensures
        ({
            let stored = apply_spec(config, RequestView::Delete(name))->Save_0;
            let grouped = grouped_records(with_texts(stored.records, addresses), order);
            &&& finish_spec(outline_spec(source), read_addresses(stored, grouped)) == Ok::<
                ConfigView,
                IniErrorView,
            >(ConfigView { records: grouped, ..config })
            &&& forall|k: int| 0 <= k < grouped.len() ==> #[trigger] grouped[k].name != ascii_lower(name)
            &&& forall|k: int| 0 <= k < grouped.len() ==> config.records.contains(#[trigger] grouped[k])
        }),
{
    broadcast use vstd::seq_lib::group_filter_ensures;

    law_delete_removes_every_record_of_the_name(config, name);
    let stored = apply_spec(config, RequestView::Delete(name))->Save_0;
    let written = with_texts(stored.records, addresses);
    let grouped = grouped_records(written, order);
    let target = ascii_lower(name);
    let keep = |record: RecordView| record.name != target;
    assert(stored.records == config.records.filter(keep));
    if has_record_name(stored.records, "server"@) {
        let i = choose|i: int| 0 <= i < stored.records.len() && #[trigger] stored.records[i].name == "server"@;
        assert(stored.records.contains(stored.records[i]));
        config.records.lemma_filter_contains_rev(keep, stored.records[i]);
    }
    law_written_configuration_reads_back(stored, bind_text, upstream_text, addresses, order, source);
    assert(ConfigView { records: grouped, ..stored } == ConfigView { records: grouped, ..config });
    lemma_grouped_were_written(written, order);
    assert forall|k: int| 0 <= k < grouped.len() implies #[trigger] grouped[k].name != target
        && config.records.contains(grouped[k]) by {
        assert(was_written(written, grouped[k]));
        let i = choose|i: int| 0 <= i < written.len() && written[i].0 == grouped[k];
        assert(written[i].0 == stored.records[i]);
        assert(stored.records.contains(stored.records[i]));
        config.records.lemma_filter_contains_rev(keep, stored.records[i]);
    }
}

/// Every grouped record has a name of `order`.
proof fn lemma_grouped_names(written: Seq<(RecordView, Seq<char>)>, order: Seq<Seq<char>>)
    ensures
        forall|k: int|
            0 <= k < grouped_records(written, order).len() ==> order.contains(
                (#[trigger] grouped_records(written, order)[k]).name,
            ),
    decreases order.len(),
{
    broadcast use vstd::seq_lib::group_filter_ensures;

    if order.len() > 0 {
        let rest = order.drop_last();
        let name = order.last();
        let group = named(written, name);
        lemma_grouped_names(written, rest);
        let before = grouped_records(written, rest).len();
        assert forall|k: int| 0 <= k < grouped_records(written, order).len() implies order.contains(
            (#[trigger] grouped_records(written, order)[k]).name,
        ) by {
            if k >= before {
                assert(grouped_records(written, order)[k] == group[k - before].0);
                assert(order[order.len() - 1] == name);
            } else {
                let g = grouped_records(written, rest)[k];
                assert(grouped_records(written, order)[k] == g);
                assert(rest.contains(g.name));
                let x = choose|x: int| 0 <= x < rest.len() && rest[x] == g.name;
                assert(order[x] == g.name);
            }
        }
    }
}

/// Grouping by names in increasing order puts the records in name order.
proof fn lemma_grouped_sorted(written: Seq<(RecordView, Seq<char>)>, order: Seq<Seq<char>>)
    requires
        strictly_sorted(order),
    ensures
        forall|a: int, b: int|
            0 <= a < b < grouped_records(written, order).len() ==> {
                let first = #[trigger] grouped_records(written, order)[a];
                let second = #[trigger] grouped_records(written, order)[b];
                first.name == second.name || name_less(first.name, second.name)
            },
    decreases order.len(),
{
    broadcast use vstd::seq_lib::group_filter_ensures;

    if order.len() > 0 {
        let rest = order.drop_last();
        let name = order.last();
        let group = named(written, name);
        assert(strictly_sorted(rest)) by {
            assert forall|i: int, j: int| 0 <= i < j < rest.len() implies name_less(
                #[trigger] rest[i],
                #[trigger] rest[j],
            ) by {
                assert(rest[i] == order[i] && rest[j] == order[j]);
            }
        }
        lemma_grouped_sorted(written, rest);
        lemma_grouped_names(written, rest);
        let grouped = grouped_records(written, order);
        let before = grouped_records(written, rest).len();
        assert forall|a: int, b: int| 0 <= a < b < grouped.len() implies {
            let first = #[trigger] grouped[a];
            let second = #[trigger] grouped[b];
            first.name == second.name || name_less(first.name, second.name)
        } by {
            if b >= before {
                assert(grouped[b] == group[b - before].0);
                assert(group[b - before].0.name == name);
                if a >= before {
                    assert(grouped[a] == group[a - before].0);
                    assert(group[a - before].0.name == name);
                } else {
                    let g = grouped_records(written, rest)[a];
                    assert(grouped[a] == g);
                    assert(rest.contains(g.name));
                    let x = choose|x: int| 0 <= x < rest.len() && rest[x] == g.name;
                    assert(name_less(order[x], order[order.len() - 1]));
                }
            } else {
                assert(grouped[a] == grouped_records(written, rest)[a]);
                assert(grouped[b] == grouped_records(written, rest)[b]);
            }
        }
    }
}

/// A written record whose name is in `order` is among the grouped records.
proof fn lemma_written_are_grouped(
    written: Seq<(RecordView, Seq<char>)>,
    order: Seq<Seq<char>>,
    i: int,
)
    requires
        0 <= i < written.len(),
        order.contains(written[i].0.name),
    ensures
        grouped_records(written, order).contains(written[i].0),
    decreases order.len(),
{
    broadcast use vstd::seq_lib::group_filter_ensures;

    let rest = order.drop_last();
    let name = order.last();
    let group = named(written, name);
    let before = grouped_records(written, rest).len();
    if written[i].0.name == name {
        assert(group.contains(written[i]));
        let m = choose|m: int| 0 <= m < group.len() && group[m] == written[i];
        assert(grouped_records(written, order)[before + m] == written[i].0);
    } else {
        let x = choose|x: int| 0 <= x < order.len() && order[x] == written[i].0.name;
        assert(x != order.len() - 1);
        assert(rest[x] == written[i].0.name);
        lemma_written_are_grouped(written, rest, i);
        let k = choose|k: int|
            0 <= k < grouped_records(written, rest).len() && grouped_records(written, rest)[k]
                == written[i].0;
        assert(grouped_records(written, order)[k] == written[i].0);
    }
}

/// The grouped records are the stored records sorted by name: each stored
/// record is among them, each of them is a stored record, and their names
/// never decrease in name order (within a name, `grouped_records` keeps the
/// stored order).
pub proof fn law_grouped_records_are_sorted(
    records: Seq<RecordView>,
    addresses: Seq<Seq<char>>,
    order: Seq<Seq<char>>,
)
    requires
        addresses.len() == records.len(),
        name_order(order, records),
    ensures
        ({
            let grouped = grouped_records(with_texts(records, addresses), order);
            &&& forall|i: int| 0 <= i < records.len() ==> grouped.contains(#[trigger] records[i])
            &&& forall|k: int| 0 <= k < grouped.len() ==> records.contains(#[trigger] grouped[k])
            &&& forall|a: int, b: int|
                0 <= a < b < grouped.len() ==> #[trigger] grouped[a].name == #[trigger] grouped[b].name
                    || name_less(grouped[a].name, grouped[b].name)
        }),
{
    let written = with_texts(records, addresses);
    let grouped = grouped_records(written, order);
    assert forall|i: int| 0 <= i < records.len() implies grouped.contains(#[trigger] records[i]) by {
        assert(written[i].0 == records[i]);
        assert(has_record_name(records, records[i].name));
        lemma_written_are_grouped(written, order, i);
    }
    lemma_grouped_were_written(written, order);
    assert forall|k: int| 0 <= k < grouped.len() implies records.contains(#[trigger] grouped[k]) by {
        assert(was_written(written, grouped[k]));
        let i = choose|i: int| 0 <= i < written.len() && written[i].0 == grouped[k];
        assert(records[i] == grouped[k]);
    }
    lemma_grouped_sorted(written, order);
}

/// Whether no two entries hold the same record.
spec fn distinct_records(written: Seq<(RecordView, Seq<char>)>) -> bool {
    forall|i: int, j: int| 0 <= i < j < written.len() ==> #[trigger] written[i].0 != #[trigger] written[j].0
}

/// Filtering keeps the records distinct.
proof fn lemma_filter_keeps_distinct(
    written: Seq<(RecordView, Seq<char>)>,
    keep: spec_fn((RecordView, Seq<char>)) -> bool,
)
    requires
        distinct_records(written),
    ensures
        distinct_records(written.filter(keep)),
    decreases written.len(),
{
    reveal_with_fuel(Seq::filter, 1);
    if written.len() > 0 {
        let rest = written.drop_last();
        let last = written.last();
        assert forall|i: int, j: int| 0 <= i < j < rest.len() implies #[trigger] rest[i].0
            != #[trigger] rest[j].0 by {
            assert(rest[i] == written[i] && rest[j] == written[j]);
        }
        lemma_filter_keeps_distinct(rest, keep);
        let kept = rest.filter(keep);
        if keep(last) {
            assert forall|k: int| 0 <= k < kept.len() implies kept[k].0 != last.0 by {
                assert(kept.contains(kept[k]));
                rest.lemma_filter_contains_rev(keep, kept[k]);
                let j = choose|j: int| 0 <= j < rest.len() && rest[j] == kept[k];
                assert(written[j].0 != written[written.len() - 1].0);
            }
            assert(written.filter(keep) == kept.push(last));
            assert forall|i: int, j: int| 0 <= i < j < kept.push(last).len() implies #[trigger] kept.push(
                last,
            )[i].0 != #[trigger] kept.push(last)[j].0 by {
                if j == kept.len() {
                    assert(kept.push(last)[i] == kept[i]);
                } else {
                    assert(kept.push(last)[i] == kept[i] && kept.push(last)[j] == kept[j]);
                }
            }
        } else {
            assert(written.filter(keep) == kept);
        }
    }
}

/// Grouping distinct records by distinct names repeats none of them.
proof fn lemma_grouped_distinct(written: Seq<(RecordView, Seq<char>)>, order: Seq<Seq<char>>)
    requires
        distinct_records(written),
        strictly_sorted(order),
    ensures
        grouped_records(written, order).no_duplicates(),
    decreases order.len(),
{
    broadcast use vstd::seq_lib::group_filter_ensures;

    if order.len() > 0 {
        let rest = order.drop_last();
        let name = order.last();
        let group = named(written, name);
        assert(strictly_sorted(rest)) by {
            assert forall|i: int, j: int| 0 <= i < j < rest.len() implies name_less(
                #[trigger] rest[i],
                #[trigger] rest[j],
            ) by {
                assert(rest[i] == order[i] && rest[j] == order[j]);
            }
        }
        lemma_grouped_distinct(written, rest);
        lemma_grouped_names(written, rest);
        lemma_filter_keeps_distinct(written, |w: (RecordView, Seq<char>)| w.0.name == name);
        let head = grouped_records(written, rest);
        let tail = group.map_values(|w: (RecordView, Seq<char>)| w.0);
        assert forall|i: int, j: int|
            0 <= i < tail.len() && 0 <= j < tail.len() && i != j implies tail[i] != tail[j] by {
            if i < j {
                assert(group[i].0 != group[j].0);
            } else {
                assert(group[j].0 != group[i].0);
            }
        }
        assert forall|i: int, j: int| 0 <= i < head.len() && 0 <= j < tail.len() implies head[i]
            != tail[j] by {
            assert(rest.contains(head[i].name));
            let x = choose|x: int| 0 <= x < rest.len() && rest[x] == head[i].name;
            assert(name_less(order[x], order[order.len() - 1]));
            assert(tail[j].name == name);
            lemma_lex_irreflexive(vstd::utf8::encode_utf8(name));
        }
        lemma_no_dup_in_concat(head, tail);
    }
}

/// What is read back passes validation unchanged: a valid configuration
/// with its records grouped by name is still valid, so validating it
/// accepts it and changes nothing.
pub proof fn law_grouped_configuration_is_valid(
    config: ConfigView,
    addresses: Seq<Seq<char>>,
    order: Seq<Seq<char>>,
)
    requires
        config_valid(config),
        addresses.len() == config.records.len(),
        name_order(order, config.records),
    ensures
        ({
            let read = ConfigView {
                records: grouped_records(with_texts(config.records, addresses), order),
                ..config
            };
            &&& config_valid(read)
            &&& validate_spec(read) is Ok
            &&& validated(read) == read
        }),
{
    let records = config.records;
    let written = with_texts(records, addresses);
    let grouped = grouped_records(written, order);
    let read = ConfigView { records: grouped, ..config };
    assert(records.len() > 0 ==> first_problem(records, 0) is None);
    assert forall|i: int, j: int| 0 <= i < j < written.len() implies #[trigger] written[i].0
        != #[trigger] written[j].0 by {
        lemma_valid_records_have_no_problem(records, 0, j);
        if records[i] == records[j] {
            assert(ascii_lower(records[i].name) == ascii_lower(records[j].name));
        }
    }
    lemma_grouped_distinct(written, order);
    lemma_grouped_were_written(written, order);
    assert forall|k: int| 0 <= k < grouped.len() implies #[trigger] record_problem(grouped, k)
        is None && ascii_lower(grouped[k].name) == grouped[k].name by {
        assert(was_written(written, grouped[k]));
        let p = choose|p: int| 0 <= p < written.len() && written[p].0 == grouped[k];
        assert(records[p] == grouped[k]);
        lemma_valid_records_have_no_problem(records, 0, p);
        if exists|j: int|
            0 <= j < k && #[trigger] ascii_lower(grouped[j].name) == ascii_lower(grouped[k].name)
                && grouped[j].record_type == grouped[k].record_type {
            let j = choose|j: int|
                0 <= j < k && #[trigger] ascii_lower(grouped[j].name) == ascii_lower(
                    grouped[k].name,
                ) && grouped[j].record_type == grouped[k].record_type;
            assert(was_written(written, grouped[j]));
            let q = choose|q: int| 0 <= q < written.len() && written[q].0 == grouped[j];
            assert(records[q] == grouped[j]);
            assert(grouped[j] != grouped[k]);
            assert(q != p);
            if q < p {
                assert(ascii_lower(records[q].name) == ascii_lower(records[p].name));
            } else {
                lemma_valid_records_have_no_problem(records, 0, q);
                assert(ascii_lower(records[p].name) == ascii_lower(records[q].name));
            }
        }
    }
    lemma_no_problem_means_none(grouped, 0);
    assert(config_valid(read));
    law_validate_keeps_valid_config(read);
}

} // verus!
