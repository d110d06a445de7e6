//! What holds of every report.

use vstd::prelude::*;
use crate::aggregate::{
    enrich_pid, fold_records, has_pid, lemma_enrich_pid_wf, lemma_fold_records_wf,
    lemma_place_of, place_of, run_details, table_wf, AggregateView,
};
use crate::listing::{describes_socket, listing_records, parse_line, records_of_lines, RecordView};
use crate::number::number_or_zero;
use crate::order::{
    arrange, goes_before, is_stable_order, is_total_preorder, lemma_lex_antisymmetric,
    lemma_lex_reflexive, lemma_stable_order_distinct, lemma_stable_order_exists, lex_le,
};
use crate::pipeline::{apply_probes, listed_table, ports_report, ProbeView};
use crate::report::{
    belongs_to, entry_keys, extended_row, folded_names, group_rows, info_of, key_view_le,
    key_view_relation, lemma_key_antisymmetric, lemma_key_total, lemma_key_transitive, new_row, number_relation, port_numbers,
    port_order, report_of, report_order, sorted_ports, KeyView, PortInfoView,
};
use crate::text::{join, lowercase_of};
use crate::tool::{ErrorView, ToolRunView};

verus! {

/// The key of an entry of the table.
pub open spec fn key_of(e: AggregateView) -> KeyView {
    KeyView {
        folded: lowercase_of(e.process_name),
        name: e.process_name,
        command: e.command,
        pid: e.pid,
    }
}

/// The key of a row: that of its name and command line.
pub open spec fn row_key(r: PortInfoView) -> KeyView {
    KeyView { folded: lowercase_of(r.process_name), name: r.process_name, command: r.command, pid: 0 }
}

/// Two rows are for the same name and command line.
pub open spec fn same_group(a: PortInfoView, b: PortInfoView) -> bool {
    a.process_name == b.process_name && a.command == b.command
}

/// The entries stand in the order of the report, and no process id occurs
/// twice.
pub open spec fn in_report_order(s: Seq<AggregateView>) -> bool {
    forall|a: int, b: int|
        0 <= a < b < s.len() ==> key_view_le(key_of(#[trigger] s[a]), key_of(#[trigger] s[b]))
            && s[a].pid != s[b].pid
}

/// The process `e` stands at place `i` of row `r`, and the row is that of
/// its name and command line.
pub open spec fn holds(rows: Seq<PortInfoView>, r: int, i: int, e: AggregateView) -> bool {
    &&& 0 <= r < rows.len()
    &&& 0 <= i < rows[r].pids.len()
    &&& rows[r].pids[i] == info_of(e)
    &&& belongs_to(e, rows[r])
}

/// No row is empty.
pub open spec fn all_filled(rows: Seq<PortInfoView>) -> bool {
    forall|r: int| 0 <= r < rows.len() ==> (#[trigger] rows[r]).pids.len() > 0
}

/// The process at place `i` of row `r` is an entry of `s` of the row's name
/// and command line.
pub open spec fn comes_from(s: Seq<AggregateView>, rows: Seq<PortInfoView>, r: int, i: int) -> bool {
    exists|k: int| 0 <= k < s.len() && holds(rows, r, i, #[trigger] s[k])
}

/// Every process of every row is an entry of `s` of the row's name and
/// command line.
pub open spec fn rows_from(s: Seq<AggregateView>, rows: Seq<PortInfoView>) -> bool {
    forall|r: int, i: int|
        0 <= r < rows.len() && 0 <= i < rows[r].pids.len() ==> #[trigger] comes_from(s, rows, r, i)
}

/// The process `e` stands in a row of its name and command line.
pub open spec fn is_held(rows: Seq<PortInfoView>, e: AggregateView) -> bool {
    exists|r: int, i: int| #[trigger] holds(rows, r, i, e)
}

/// Every entry of `s` stands in a row of its name and command line.
pub open spec fn all_held(s: Seq<AggregateView>, rows: Seq<PortInfoView>) -> bool {
    forall|k: int| 0 <= k < s.len() ==> is_held(rows, #[trigger] s[k])
}

/// The rows are in the order of their keys, and no two are for the same
/// name and command line.
pub open spec fn rows_ascend(rows: Seq<PortInfoView>) -> bool {
    forall|r1: int, r2: int|
        0 <= r1 < r2 < rows.len() ==> key_view_le(
            row_key(#[trigger] rows[r1]),
            row_key(#[trigger] rows[r2]),
        ) && !same_group(rows[r1], rows[r2])
}

/// The processes of each row are in ascending order of their ids.
pub open spec fn pids_ascend(rows: Seq<PortInfoView>) -> bool {
    forall|r: int, i: int, j: int|
        0 <= r < rows.len() && 0 <= i < j < rows[r].pids.len() ==> (#[trigger] rows[r].pids[i]).pid
            < (#[trigger] rows[r].pids[j]).pid
}

/// `rows` is a grouping of the entries `s`: every entry stands in the row
/// of its name and command line, the rows hold nothing else and none is
/// empty, no two rows are for the same name and command line, the rows are
/// in the order of their keys, the processes of each row are in ascending
/// order of their ids, and the last entry stands last in the last row.
pub open spec fn groups(s: Seq<AggregateView>, rows: Seq<PortInfoView>) -> bool {
    &&& (rows.len() == 0 <==> s.len() == 0)
    &&& all_filled(rows)
    &&& rows_from(s, rows)
    &&& all_held(s, rows)
    &&& s.len() > 0 ==> holds(rows, rows.len() - 1, rows.last().pids.len() - 1, s.last())
    &&& rows_ascend(rows)
    &&& pids_ascend(rows)
}

/// A key between two keys of one name and command line is of that name and
/// command line too.
proof fn lemma_between(a: KeyView, b: KeyView, c: KeyView)
    requires
        key_view_le(a, b),
        key_view_le(b, c),
        a.folded == c.folded,
        a.name == c.name,
        a.command == c.command,
    ensures
        b.folded == a.folded,
        b.name == a.name,
        b.command == a.command,
{
    lemma_lex_reflexive(a.folded);
    lemma_lex_reflexive(a.name);
    lemma_lex_reflexive(a.command);
    if b.folded != a.folded {
        lemma_lex_antisymmetric(a.folded, b.folded);
    } else if b.name != a.name {
        lemma_lex_antisymmetric(a.name, b.name);
    } else if b.command != a.command {
        lemma_lex_antisymmetric(a.command, b.command);
    }
}

/// The step of `lemma_group_rows` for an entry that joins the last row.
proof fn lemma_group_rows_join(s: Seq<AggregateView>)
    requires
        s.len() > 0,
        in_report_order(s),
        groups(s.drop_last(), group_rows(s.drop_last())),
        group_rows(s.drop_last()).len() > 0,
        belongs_to(s.last(), group_rows(s.drop_last()).last()),
    ensures
        groups(s, group_rows(s)),
{
    let init = s.drop_last();
    let e = s.last();
    let last = s.len() - 1;
    let old_rows = group_rows(init);
    let rows = group_rows(s);
    let n = old_rows.len() as int;
    let m = n - 1;
    let w = old_rows[m].pids.len() as int;
    assert(rows[m] == extended_row(old_rows[m], e));
    assert(forall|r: int| 0 <= r < m ==> rows[r] == old_rows[r]);
    assert forall|r: int| 0 <= r < rows.len() implies (#[trigger] rows[r]).pids.len() > 0 by {
        assert(old_rows[r].pids.len() > 0);
    }
    assert forall|r: int, i: int|
        0 <= r < rows.len() && 0 <= i < rows[r].pids.len() implies #[trigger] comes_from(
        s,
        rows,
        r,
        i,
    ) by {
        if r == m && i == w {
            assert(holds(rows, r, i, s[last]));
        } else {
            assert(old_rows[r].pids[i] == rows[r].pids[i]);
            assert(comes_from(init, old_rows, r, i));
            let k = choose|k: int| 0 <= k < init.len() && holds(old_rows, r, i, #[trigger] init[k]);
            assert(init[k] == s[k]);
            assert(holds(rows, r, i, s[k]));
        }
    }
    assert forall|k: int| 0 <= k < s.len() implies is_held(rows, #[trigger] s[k]) by {
        if k == last {
            assert(holds(rows, m, w, s[k]));
        } else {
            assert(init[k] == s[k]);
            assert(is_held(old_rows, init[k]));
            let (r, i) = choose|r: int, i: int| #[trigger] holds(old_rows, r, i, init[k]);
            assert(holds(rows, r, i, s[k]));
        }
    }
    assert(all_held(s, rows));
    assert(holds(rows, rows.len() - 1, rows.last().pids.len() - 1, s.last()));
    assert forall|r1: int, r2: int| 0 <= r1 < r2 < rows.len() implies key_view_le(
        row_key(#[trigger] rows[r1]),
        row_key(#[trigger] rows[r2]),
    ) && !same_group(rows[r1], rows[r2]) by {
        assert(key_view_le(row_key(old_rows[r1]), row_key(old_rows[r2])));
        assert(!same_group(old_rows[r1], old_rows[r2]));
    }
    assert forall|r: int, i: int, j: int|
        0 <= r < rows.len() && 0 <= i < j < rows[r].pids.len() implies (
    #[trigger] rows[r].pids[i]).pid < (#[trigger] rows[r].pids[j]).pid by {
        if r == m && j == w {
            assert(old_rows[r].pids[i] == rows[r].pids[i]);
            assert(comes_from(init, old_rows, r, i));
            let k = choose|k: int| 0 <= k < init.len() && holds(old_rows, r, i, #[trigger] init[k]);
            assert(init[k] == s[k]);
            assert(key_view_le(key_of(s[k]), key_of(s[last])));
        } else {
            assert(old_rows[r].pids[i] == rows[r].pids[i]);
            assert(old_rows[r].pids[j] == rows[r].pids[j]);
        }
    }
    assert(all_filled(rows));
    assert(rows_from(s, rows));
    assert(all_held(s, rows));
    assert(rows_ascend(rows));
    assert(pids_ascend(rows));
}

/// The step of `lemma_group_rows` for an entry that starts a row.
proof fn lemma_group_rows_start(s: Seq<AggregateView>)
    requires
        s.len() > 0,
        in_report_order(s),
        groups(s.drop_last(), group_rows(s.drop_last())),
        !(group_rows(s.drop_last()).len() > 0 && belongs_to(
            s.last(),
            group_rows(s.drop_last()).last(),
        )),
    ensures
        groups(s, group_rows(s)),
{
    let init = s.drop_last();
    let e = s.last();
    let last = s.len() - 1;
    let old_rows = group_rows(init);
    let rows = group_rows(s);
    let n = old_rows.len() as int;
    assert(rows == old_rows.push(new_row(e)));
    assert(forall|r: int| 0 <= r < n ==> rows[r] == old_rows[r]);
    assert(rows[n] == new_row(e));
    assert forall|r: int| 0 <= r < rows.len() implies (#[trigger] rows[r]).pids.len() > 0 by {
        if r < n {
            assert(old_rows[r].pids.len() > 0);
        }
    }
    assert forall|r: int, i: int|
        0 <= r < rows.len() && 0 <= i < rows[r].pids.len() implies #[trigger] comes_from(
        s,
        rows,
        r,
        i,
    ) by {
        if r == n {
            assert(holds(rows, r, i, s[last]));
        } else {
            assert(old_rows[r].pids[i] == rows[r].pids[i]);
            assert(comes_from(init, old_rows, r, i));
            let k = choose|k: int| 0 <= k < init.len() && holds(old_rows, r, i, #[trigger] init[k]);
            assert(init[k] == s[k]);
            assert(holds(rows, r, i, s[k]));
        }
    }
    assert forall|k: int| 0 <= k < s.len() implies is_held(rows, #[trigger] s[k]) by {
        if k == last {
            assert(holds(rows, n, 0, s[k]));
        } else {
            assert(init[k] == s[k]);
            assert(is_held(old_rows, init[k]));
            let (r, i) = choose|r: int, i: int| #[trigger] holds(old_rows, r, i, init[k]);
            assert(holds(rows, r, i, s[k]));
        }
    }
    assert(all_held(s, rows));
    assert(holds(rows, rows.len() - 1, rows.last().pids.len() - 1, s.last()));
    assert forall|r1: int, r2: int| 0 <= r1 < r2 < rows.len() implies key_view_le(
        row_key(#[trigger] rows[r1]),
        row_key(#[trigger] rows[r2]),
    ) && !same_group(rows[r1], rows[r2]) by {
        if r2 == n {
            assert(old_rows[r1].pids.len() > 0);
            assert(old_rows[r1].pids[0] == rows[r1].pids[0]);
            assert(comes_from(init, old_rows, r1, 0));
            let k = choose|k: int| 0 <= k < init.len() && holds(old_rows, r1, 0, #[trigger] init[k]);
            assert(init[k] == s[k]);
            assert(key_view_le(key_of(s[k]), key_of(s[last])));
            lemma_lex_reflexive(lowercase_of(e.process_name));
            lemma_lex_reflexive(e.process_name);
            lemma_lex_reflexive(e.command);
            if same_group(rows[r1], rows[r2]) {
                let p = last - 1;
                assert(init.last() == s[p]);
                if k < p {
                    assert(key_view_le(key_of(s[k]), key_of(s[p])));
                } else {
                    lemma_key_total(key_of(s[k]), key_of(s[p]));
                }
                assert(key_view_le(key_of(s[p]), key_of(s[last])));
                lemma_between(key_of(s[k]), key_of(s[p]), key_of(s[last]));
                assert(holds(old_rows, n - 1, old_rows.last().pids.len() - 1, init.last()));
                assert(belongs_to(e, old_rows.last()));
            }
        } else {
            assert(key_view_le(row_key(old_rows[r1]), row_key(old_rows[r2])));
            assert(!same_group(old_rows[r1], old_rows[r2]));
        }
    }
    assert forall|r: int, i: int, j: int|
        0 <= r < rows.len() && 0 <= i < j < rows[r].pids.len() implies (
    #[trigger] rows[r].pids[i]).pid < (#[trigger] rows[r].pids[j]).pid by {
        assert(old_rows[r].pids[i] == rows[r].pids[i]);
        assert(old_rows[r].pids[j] == rows[r].pids[j]);
    }
    assert(all_filled(rows));
    assert(rows_from(s, rows));
    assert(all_held(s, rows));
    assert(rows_ascend(rows));
    assert(pids_ascend(rows));
}

/// Entries in the order of the report are grouped by `group_rows`.
pub proof fn lemma_group_rows(s: Seq<AggregateView>)
    requires
        in_report_order(s),
    ensures
        groups(s, group_rows(s)),
    decreases s.len(),
{
    if s.len() > 0 {
        let init = s.drop_last();
        assert forall|a: int, b: int| 0 <= a < b < init.len() implies key_view_le(
            key_of(#[trigger] init[a]),
            key_of(#[trigger] init[b]),
        ) && init[a].pid != init[b].pid by {
            assert(init[a] == s[a] && init[b] == s[b]);
        }
        lemma_group_rows(init);
        if group_rows(init).len() > 0 && belongs_to(s.last(), group_rows(init).last()) {
            lemma_group_rows_join(s);
        } else {
            lemma_group_rows_start(s);
        }
    }
}

/// The keys of a table are comparable and their order is transitive, so the
/// table has exactly one order of the report.
pub proof fn lemma_report_order(t: Seq<AggregateView>, folded: Seq<Seq<char>>)
    ensures
        is_stable_order(
            key_view_relation(entry_keys(t, folded)),
            t.len(),
            report_order(t, folded),
        ),
{
    let keys = entry_keys(t, folded);
    let le = key_view_relation(keys);
    assert forall|a: int, b: int| 0 <= a < t.len() && 0 <= b < t.len() implies #[trigger] le(a, b)
        || le(b, a) by {
        lemma_key_total(keys[a], keys[b]);
    }
    assert forall|a: int, b: int, c: int|
        0 <= a < t.len() && 0 <= b < t.len() && 0 <= c < t.len() && #[trigger] le(a, b)
            && #[trigger] le(b, c) implies le(a, c) by {
        lemma_key_transitive(keys[a], keys[b], keys[c]);
    }
    lemma_stable_order_exists(le, t.len());
}

/// The entries of a table as the report lists them.
pub open spec fn report_entries(t: Seq<AggregateView>) -> Seq<AggregateView> {
    arrange(t, report_order(t, folded_names(t)))
}

/// The report of a table that is in order is a grouping of its entries,
/// and every entry of the table is among those that the report lists.
pub proof fn lemma_report_groups(t: Seq<AggregateView>)
    requires
        table_wf(t),
    ensures
        groups(report_entries(t), report_of(t)),
        in_report_order(report_entries(t)),
        report_entries(t).len() == t.len(),
        forall|k: int| 0 <= k < t.len() ==> report_entries(t).contains(#[trigger] t[k]),
        forall|k: int| 0 <= k < t.len() ==> t.contains(#[trigger] report_entries(t)[k]),
{
    let folded = folded_names(t);
    let keys = entry_keys(t, folded);
    let le = key_view_relation(keys);
    let order = report_order(t, folded);
    let s = report_entries(t);
    lemma_report_order(t, folded);
    lemma_stable_order_distinct(le, t.len(), order);
    assert forall|a: int, b: int| 0 <= a < b < s.len() implies key_view_le(
        key_of(#[trigger] s[a]),
        key_of(#[trigger] s[b]),
    ) && s[a].pid != s[b].pid by {
        assert(goes_before(le, order[a], order[b]));
        assert(keys[order[a]] == key_of(t[order[a]]));
        assert(keys[order[b]] == key_of(t[order[b]]));
        assert(order[a] != order[b]);
        if order[a] < order[b] {
            assert(t[order[a]].pid != t[order[b]].pid);
        } else {
            assert(t[order[b]].pid != t[order[a]].pid);
        }
    }
    lemma_group_rows(s);
    assert forall|k: int| 0 <= k < t.len() implies s.contains(#[trigger] t[k]) by {
        assert(order.contains(k));
        let i = choose|i: int| 0 <= i < order.len() && order[i] == k;
        assert(s[i] == t[k]);
    }
    assert forall|k: int| 0 <= k < t.len() implies t.contains(#[trigger] s[k]) by {
        assert(s[k] == t[order[k]]);
    }
}

/// Every process of the table stands in the report, in the row of its name
/// and command line, with its ports and with the details that the table
/// holds of it.
pub proof fn lemma_every_process_reported(t: Seq<AggregateView>, k: int)
    requires
        table_wf(t),
        0 <= k < t.len(),
    ensures
        is_held(report_of(t), t[k]),
{
    lemma_report_groups(t);
    let s = report_entries(t);
    assert(s.contains(t[k]));
    let i = choose|i: int| 0 <= i < s.len() && s[i] == t[k];
    assert(is_held(report_of(t), s[i]));
}

/// Every process of the report is a process of the table, and stands in
/// the row of its name and command line.
pub proof fn lemma_only_processes_reported(t: Seq<AggregateView>, r: int, i: int) -> (k: int)
    requires
        table_wf(t),
        0 <= r < report_of(t).len(),
        0 <= i < report_of(t)[r].pids.len(),
    ensures
        0 <= k < t.len(),
        holds(report_of(t), r, i, t[k]),
{
    lemma_report_groups(t);
    let s = report_entries(t);
    let rows = report_of(t);
    assert(comes_from(s, rows, r, i));
    let j = choose|j: int| 0 <= j < s.len() && holds(rows, r, i, #[trigger] s[j]);
    assert(t.contains(s[j]));
    choose|k: int| 0 <= k < t.len() && t[k] == s[j]
}

/// Two processes of the report stand in the same row exactly if they have
/// the same name and the same command line.
pub proof fn lemma_grouping(
    t: Seq<AggregateView>,
    k1: int,
    k2: int,
    r1: int,
    i1: int,
    r2: int,
    i2: int,
)
    requires
        table_wf(t),
        0 <= k1 < t.len(),
        0 <= k2 < t.len(),
        0 <= r1 < report_of(t).len(),
        0 <= i1 < report_of(t)[r1].pids.len(),
        0 <= r2 < report_of(t).len(),
        0 <= i2 < report_of(t)[r2].pids.len(),
        report_of(t)[r1].pids[i1].pid == t[k1].pid,
        report_of(t)[r2].pids[i2].pid == t[k2].pid,
    ensures
        r1 == r2 <==> t[k1].process_name == t[k2].process_name && t[k1].command == t[k2].command,
{
    let rows = report_of(t);
    let j1 = lemma_only_processes_reported(t, r1, i1);
    let j2 = lemma_only_processes_reported(t, r2, i2);
    lemma_place_of(t, j1);
    lemma_place_of(t, k1);
    lemma_place_of(t, j2);
    lemma_place_of(t, k2);
    assert(j1 == k1 && j2 == k2);
    lemma_report_groups(t);
    if r1 < r2 {
        assert(!same_group(rows[r1], rows[r2]));
    } else if r2 < r1 {
        assert(!same_group(rows[r2], rows[r1]));
    }
}

/// No process stands in the report twice.
pub proof fn lemma_each_process_once(t: Seq<AggregateView>, r1: int, i1: int, r2: int, i2: int)
    requires
        table_wf(t),
        0 <= r1 < report_of(t).len(),
        0 <= i1 < report_of(t)[r1].pids.len(),
        0 <= r2 < report_of(t).len(),
        0 <= i2 < report_of(t)[r2].pids.len(),
        report_of(t)[r1].pids[i1].pid == report_of(t)[r2].pids[i2].pid,
    ensures
        r1 == r2 && i1 == i2,
{
    let rows = report_of(t);
    let k1 = lemma_only_processes_reported(t, r1, i1);
    let k2 = lemma_only_processes_reported(t, r2, i2);
    lemma_place_of(t, k1);
    lemma_place_of(t, k2);
    lemma_grouping(t, k1, k2, r1, i1, r2, i2);
    lemma_report_groups(t);
    if i1 < i2 {
        assert(rows[r1].pids[i1].pid < rows[r1].pids[i2].pid);
    } else if i2 < i1 {
        assert(rows[r1].pids[i2].pid < rows[r1].pids[i1].pid);
    }
}

/// The rows of the report never go back in the dictionary order of their
/// names in lower case, no two rows are for the same name and command
/// line, no row is empty, and the processes of each row are in strictly
/// ascending order of their ids.
pub proof fn lemma_report_sorted(t: Seq<AggregateView>)
    requires
        table_wf(t),
    ensures
        forall|r1: int, r2: int|
            0 <= r1 < r2 < report_of(t).len() ==> lex_le(
                lowercase_of((#[trigger] report_of(t)[r1]).process_name),
                lowercase_of((#[trigger] report_of(t)[r2]).process_name),
            ) && !same_group(report_of(t)[r1], report_of(t)[r2]),
        forall|r: int| 0 <= r < report_of(t).len() ==> (#[trigger] report_of(t)[r]).pids.len() > 0,
        forall|r: int, i: int, j: int|
            0 <= r < report_of(t).len() && 0 <= i < j < report_of(t)[r].pids.len() ==> (
            #[trigger] report_of(t)[r].pids[i]).pid < (#[trigger] report_of(t)[r].pids[j]).pid,
{
    lemma_report_groups(t);
    let rows = report_of(t);
    assert forall|r1: int, r2: int| 0 <= r1 < r2 < rows.len() implies lex_le(
        lowercase_of((#[trigger] rows[r1]).process_name),
        lowercase_of((#[trigger] rows[r2]).process_name),
    ) && !same_group(rows[r1], rows[r2]) by {
        assert(key_view_le(row_key(rows[r1]), row_key(rows[r2])));
        lemma_lex_reflexive(lowercase_of(rows[r1].process_name));
    }
}

/// Sorting keeps every port and adds none, never repeats a port that the
/// list held once, and puts the ports in an order in which their numbers
/// never go down.
pub proof fn lemma_sorted_ports(ports: Seq<Seq<char>>)
    ensures
        sorted_ports(ports).len() == ports.len(),
        forall|p: Seq<char>| sorted_ports(ports).contains(p) <==> ports.contains(p),
        ports.no_duplicates() ==> sorted_ports(ports).no_duplicates(),
        forall|i: int, j: int|
            0 <= i < j < ports.len() ==> number_or_zero(#[trigger] sorted_ports(ports)[i])
                <= number_or_zero(#[trigger] sorted_ports(ports)[j]),
{
    let numbers = port_numbers(ports);
    let le = number_relation(numbers);
    let n = ports.len();
    assert(is_total_preorder(le, n));
    lemma_stable_order_exists(le, n);
    let order = port_order(ports);
    let sorted = sorted_ports(ports);
    lemma_stable_order_distinct(le, n, order);
    assert forall|p: Seq<char>| sorted.contains(p) <==> ports.contains(p) by {
        if sorted.contains(p) {
            let i = choose|i: int| 0 <= i < sorted.len() && sorted[i] == p;
            assert(ports[order[i]] == p);
        }
        if ports.contains(p) {
            let j = choose|j: int| 0 <= j < ports.len() && ports[j] == p;
            assert(order.contains(j));
            let i = choose|i: int| 0 <= i < order.len() && order[i] == j;
            assert(sorted[i] == p);
        }
    }
    if ports.no_duplicates() {
        assert forall|i: int, j: int| 0 <= i < sorted.len() && 0 <= j < sorted.len() && i != j implies sorted[i]
            != sorted[j] by {
            if i < j {
                assert(order[i] != order[j]);
            } else {
                assert(order[j] != order[i]);
            }
        }
    }
    assert forall|i: int, j: int| 0 <= i < j < n implies number_or_zero(#[trigger] sorted[i])
        <= number_or_zero(#[trigger] sorted[j]) by {
        assert(goes_before(le, order[i], order[j]));
        assert(numbers[order[i]] == number_or_zero(ports[order[i]]));
        assert(numbers[order[j]] == number_or_zero(ports[order[j]]));
    }
}

/// The ports that the report shows of a process are the ports of its entry
/// in ascending order of their numbers, each once, joined by a comma and a
/// blank.
pub proof fn lemma_reported_ports(t: Seq<AggregateView>, r: int, i: int) -> (k: int)
    requires
        table_wf(t),
        0 <= r < report_of(t).len(),
        0 <= i < report_of(t)[r].pids.len(),
    ensures
        0 <= k < t.len(),
        report_of(t)[r].pids[i].pid == t[k].pid,
        report_of(t)[r].pids[i].ports == join(sorted_ports(t[k].ports), ", "@),
        sorted_ports(t[k].ports).no_duplicates(),
        forall|p: Seq<char>| sorted_ports(t[k].ports).contains(p) <==> t[k].ports.contains(p),
        forall|a: int, b: int|
            0 <= a < b < sorted_ports(t[k].ports).len() ==> number_or_zero(
                #[trigger] sorted_ports(t[k].ports)[a],
            ) <= number_or_zero(#[trigger] sorted_ports(t[k].ports)[b]),
{
    let k = lemma_only_processes_reported(t, r, i);
    assert(t[k].wf());
    lemma_sorted_ports(t[k].ports);
    k
}

/// The records of lines that follow one another are the records of the
/// first lines, then those of the rest.
pub proof fn lemma_records_of_lines_concat(first: Seq<Seq<char>>, rest: Seq<Seq<char>>)
    ensures
        records_of_lines(first + rest) == records_of_lines(first) + records_of_lines(rest),
    decreases rest.len(),
{
    if rest.len() == 0 {
        assert(first + rest == first);
        assert(records_of_lines(first) + Seq::<RecordView>::empty() == records_of_lines(first));
    } else {
        let all = first + rest;
        assert(all.drop_last() == first + rest.drop_last());
        assert(all.last() == rest.last());
        lemma_records_of_lines_concat(first, rest.drop_last());
        match parse_line(rest.last()) {
            Some(rec) => {
                assert((records_of_lines(first) + records_of_lines(rest.drop_last())).push(rec)
                    == records_of_lines(first) + records_of_lines(rest.drop_last()).push(rec));
            },
            None => {},
        }
    }
}

/// A line with too few fields, or with a port that is not numeric, gives
/// no record, and the lines around it give the records that they would
/// give without it.
pub proof fn lemma_malformed_line_skipped(
    first: Seq<Seq<char>>,
    line: Seq<char>,
    rest: Seq<Seq<char>>,
)
    requires
        !describes_socket(line),
    ensures
        parse_line(line) is None,
        records_of_lines(first.push(line) + rest) == records_of_lines(first + rest),
{
    lemma_records_of_lines_concat(first.push(line), rest);
    lemma_records_of_lines_concat(first, rest);
    assert(first.push(line).drop_last() == first);
}

/// A table read from socket records holds no details yet: user, CPU share,
/// memory share and command line of every entry are empty.
pub proof fn lemma_listed_without_details(rs: Seq<RecordView>, k: int)
    requires
        0 <= k < fold_records(rs).len(),
    ensures
        fold_records(rs)[k].user == Seq::<char>::empty(),
        fold_records(rs)[k].cpu == Seq::<char>::empty(),
        fold_records(rs)[k].mem == Seq::<char>::empty(),
        fold_records(rs)[k].command == Seq::<char>::empty(),
    decreases rs.len(),
{
    if rs.len() > 0 {
        let t = fold_records(rs.drop_last());
        let r = rs.last();
        if k < t.len() {
            lemma_listed_without_details(rs.drop_last(), k);
        }
    }
}

/// Probes keep the processes of a table, their names and their ports; and
/// an entry whose probes all failed or held no details stays as it was.
pub proof fn lemma_probes_keep_table(t: Seq<AggregateView>, probes: Seq<ProbeView>, k: int)
    requires
        table_wf(t),
        0 <= k < t.len(),
    ensures
        table_wf(apply_probes(t, probes)),
        apply_probes(t, probes).len() == t.len(),
        apply_probes(t, probes)[k].pid == t[k].pid,
        apply_probes(t, probes)[k].process_name == t[k].process_name,
        apply_probes(t, probes)[k].ports == t[k].ports,
        (forall|j: int|
            0 <= j < probes.len() && (#[trigger] probes[j]).pid == t[k].pid ==> run_details(
                probes[j].run,
            ) is None) ==> apply_probes(t, probes)[k] == t[k],
    decreases probes.len(),
{
    if probes.len() > 0 {
        let init = probes.drop_last();
        let p = probes.last();
        let mid = apply_probes(t, init);
        lemma_probes_keep_table(t, init, k);
        lemma_enrich_pid_wf(mid, p.pid, run_details(p.run));
        if forall|j: int|
            0 <= j < probes.len() && (#[trigger] probes[j]).pid == t[k].pid ==> run_details(
                probes[j].run,
            ) is None {
            assert forall|j: int|
                0 <= j < init.len() && (#[trigger] init[j]).pid == t[k].pid implies run_details(
                init[j].run,
            ) is None by {
                assert(init[j] == probes[j]);
            }
            if has_pid(mid, p.pid) && place_of(mid, p.pid) == k {
                assert(p == probes[probes.len() - 1]);
                assert(run_details(p.run) is None);
            }
        }
    }
}

/// A process whose probes all failed is still reported: with its ports,
/// and with empty user, CPU share, memory share and command line.
pub proof fn lemma_failed_probe_tolerated(text: Seq<char>, probes: Seq<ProbeView>, k: int)
    requires
        0 <= k < listed_table(text).len(),
        forall|j: int|
            0 <= j < probes.len() && (#[trigger] probes[j]).pid == listed_table(text)[k].pid
                ==> run_details(probes[j].run) is None,
    ensures
        apply_probes(listed_table(text), probes)[k] == listed_table(text)[k],
        is_held(report_of(apply_probes(listed_table(text), probes)), listed_table(text)[k]),
        info_of(listed_table(text)[k]).user == Seq::<char>::empty(),
        info_of(listed_table(text)[k]).cpu == Seq::<char>::empty(),
        info_of(listed_table(text)[k]).mem == Seq::<char>::empty(),
        info_of(listed_table(text)[k]).ports == join(
            sorted_ports(listed_table(text)[k].ports),
            ", "@,
        ),
{
    let t = listed_table(text);
    lemma_fold_records_wf(listing_records(text));
    lemma_probes_keep_table(t, probes, k);
    lemma_listed_without_details(listing_records(text), k);
    lemma_every_process_reported(apply_probes(t, probes), k);
}

/// A probe that failed, or whose output holds no details, changes nothing.
pub proof fn lemma_failed_probe_changes_nothing(t: Seq<AggregateView>, pid: u32)
    ensures
        enrich_pid(t, pid, None) == t,
        run_details(ToolRunView::TimedOut) is None,
        forall|detail: Seq<char>| run_details(ToolRunView::Unavailable(detail)) is None,
{
    assert(enrich_pid(t, pid, None) =~= t);
}

/// Two lists in the order of the report that hold the same entries agree on
/// their first `i` places.
proof fn lemma_entries_agree(s1: Seq<AggregateView>, s2: Seq<AggregateView>, i: int)
    requires
        in_report_order(s1),
        in_report_order(s2),
        forall|e: AggregateView| s1.contains(e) <==> s2.contains(e),
        0 <= i <= s1.len(),
        i <= s2.len(),
    ensures
        forall|j: int| 0 <= j < i ==> s1[j] == s2[j],
    decreases i,
{
    if i > 0 {
        lemma_entries_agree(s1, s2, i - 1);
        let x = s1[i - 1];
        let y = s2[i - 1];
        if x != y {
            assert(s1.contains(x));
            assert(s2.contains(y));
            let j2 = choose|j: int| 0 <= j < s2.len() && s2[j] == x;
            let j1 = choose|j: int| 0 <= j < s1.len() && s1[j] == y;
            if j2 < i - 1 {
                assert(s1[j2].pid != s1[i - 1].pid);
            }
            if j1 < i - 1 {
                assert(s2[j1].pid != s2[i - 1].pid);
            }
            assert(key_view_le(key_of(s2[i - 1]), key_of(s2[j2])) && s2[i - 1].pid != s2[j2].pid);
            assert(key_view_le(key_of(s1[i - 1]), key_of(s1[j1])));
            lemma_key_antisymmetric(key_of(x), key_of(y));
        }
    }
}

/// There is only one list in the order of the report that holds given
/// entries.
pub proof fn lemma_report_order_unique(s1: Seq<AggregateView>, s2: Seq<AggregateView>)
    requires
        in_report_order(s1),
        in_report_order(s2),
        forall|e: AggregateView| s1.contains(e) <==> s2.contains(e),
    ensures
        s1 == s2,
{
    if s1.len() <= s2.len() {
        lemma_entries_agree(s1, s2, s1.len() as int);
        if s1.len() < s2.len() {
            let e = s2[s1.len() as int];
            assert(s2.contains(e));
            let j = choose|j: int| 0 <= j < s1.len() && s1[j] == e;
            assert(s2[j].pid != s2[s1.len() as int].pid);
        }
    } else {
        lemma_entries_agree(s1, s2, s2.len() as int);
        let e = s1[s2.len() as int];
        assert(s1.contains(e));
        let j = choose|j: int| 0 <= j < s2.len() && s2[j] == e;
        assert(s1[j].pid != s1[s2.len() as int].pid);
    }
    assert(s1 =~= s2);
}

/// The report does not depend on the order in which the table holds its
/// entries: tables that hold the same entries have the same report.
pub proof fn lemma_report_ignores_table_order(t1: Seq<AggregateView>, t2: Seq<AggregateView>)
    requires
        table_wf(t1),
        table_wf(t2),
        forall|e: AggregateView| t1.contains(e) <==> t2.contains(e),
    ensures
        report_of(t1) == report_of(t2),
{
    lemma_report_groups(t1);
    lemma_report_groups(t2);
    let s1 = report_entries(t1);
    let s2 = report_entries(t2);
    assert forall|e: AggregateView| s1.contains(e) <==> s2.contains(e) by {
        if s1.contains(e) {
            let i = choose|i: int| 0 <= i < s1.len() && s1[i] == e;
            assert(t1.contains(s1[i]));
            assert(t2.contains(e));
            let k = choose|k: int| 0 <= k < t2.len() && t2[k] == e;
            assert(s2.contains(t2[k]));
        }
        if s2.contains(e) {
            let i = choose|i: int| 0 <= i < s2.len() && s2[i] == e;
            assert(t2.contains(s2[i]));
            assert(t1.contains(e));
            let k = choose|k: int| 0 <= k < t1.len() && t1[k] == e;
            assert(s1.contains(t1[k]));
        }
    }
    lemma_report_order_unique(s1, s2);
}

/// The report is a function of what the tools left behind: two reports
/// from the same output of the socket lister and the same probes are the
/// same, row for row and character for character.
pub proof fn lemma_report_determined(
    listing: ToolRunView,
    probes: Seq<ProbeView>,
    first: Result<Seq<PortInfoView>, ErrorView>,
    second: Result<Seq<PortInfoView>, ErrorView>,
)
    requires
        first == ports_report(listing, probes),
        second == ports_report(listing, probes),
    ensures
        first == second,
{
}

} // verus!
