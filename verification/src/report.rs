//! The report: processes grouped by name and command line, rows and their
//! processes in a fixed order.

use vstd::prelude::*;
use crate::aggregate::{aggregate_views, AggregateTable, AggregateView, PidAggregate};
use crate::number::{number_or_zero, parse_number};
use crate::order::{
    arrange, is_stable_order, key_relation, lemma_lex_antisymmetric, lemma_lex_reflexive,
    lemma_lex_total, lemma_lex_transitive, lemma_same_relation, lemma_stable_order_is_named, lex_le,
    places, stable_order, stable_order_of, text_le, Relation, SortKey,
};
use crate::text::{chars_of, join, join_texts, lowercase, lowercase_of, texts};

verus! {

/// One process of a report row.
#[derive(Debug, Clone, PartialEq, Eq)]
pub struct PidInfo {
    pub pid: u32,
    /// The ports of the process in ascending order, joined by `", "`.
    pub ports: String,
    pub user: String,
    pub cpu: String,
    pub mem: String,
}

/// One row of the report: the processes that share a name and a command
/// line.
#[derive(Debug, Clone, PartialEq, Eq)]
pub struct PortInfo {
    pub process_name: String,
    pub command: String,
    pub pids: Vec<PidInfo>,
}

/// The mathematical content of a `PidInfo`.
pub ghost struct PidInfoView {
    pub pid: u32,
    pub ports: Seq<char>,
    pub user: Seq<char>,
    pub cpu: Seq<char>,
    pub mem: Seq<char>,
}

/// The mathematical content of a `PortInfo`.
pub ghost struct PortInfoView {
    pub process_name: Seq<char>,
    pub command: Seq<char>,
    pub pids: Seq<PidInfoView>,
}

impl View for PidInfo {
    type V = PidInfoView;

    open spec fn view(&self) -> PidInfoView {
        PidInfoView {
            pid: self.pid,
            ports: self.ports@,
            user: self.user@,
            cpu: self.cpu@,
            mem: self.mem@,
        }
    }
}

/// The views of a sequence of processes.
pub open spec fn info_views(v: Seq<PidInfo>) -> Seq<PidInfoView> {
    v.map_values(|p: PidInfo| p@)
}

impl View for PortInfo {
    type V = PortInfoView;

    open spec fn view(&self) -> PortInfoView {
        PortInfoView {
            process_name: self.process_name@,
            command: self.command@,
            pids: info_views(self.pids@),
        }
    }
}

/// The views of a sequence of rows.
pub open spec fn row_views(v: Seq<PortInfo>) -> Seq<PortInfoView> {
    v.map_values(|r: PortInfo| r@)
}

/// The number by which each port is ordered: its value, or zero where the
/// port is no number that fits.
pub open spec fn port_numbers(ports: Seq<Seq<char>>) -> Seq<u32> {
    ports.map_values(|p: Seq<char>| number_or_zero(p))
}

/// The order of a list of numbers.
pub open spec fn number_relation(numbers: Seq<u32>) -> Relation {
    |a: int, b: int| numbers[a] <= numbers[b]
}

/// The places of `ports` in ascending order of their numbers; ports with
/// the same number stay in the order in which they were first seen.
pub open spec fn port_order(ports: Seq<Seq<char>>) -> Seq<int> {
    stable_order_of(number_relation(port_numbers(ports)), ports.len())
}

/// The ports in ascending order of their numbers.
pub open spec fn sorted_ports(ports: Seq<Seq<char>>) -> Seq<Seq<char>> {
    arrange(ports, port_order(ports))
}

/// The number by which a port is ordered.
pub fn port_number(port: &str) -> (n: u32)
    ensures
        n == number_or_zero(port@),
{
    match parse_number(port) {
        Some(n) => n,
        None => 0,
    }
}

/// Puts the ports in ascending order of their numbers. None is dropped,
/// whatever its text.
pub fn sort_ports(ports: &Vec<String>) -> (out: Vec<String>)
    ensures
        texts(out@) == sorted_ports(texts(ports@)),
        is_stable_order(
            number_relation(port_numbers(texts(ports@))),
            ports@.len(),
            port_order(texts(ports@)),
        ),
{
    let n = ports.len();
    let ghost all = texts(ports@);
    let mut keys: Vec<u32> = Vec::new();
    let mut i: usize = 0;
    while i < n
        invariant
            i <= n,
            n == ports.len(),
            all == texts(ports@),
            keys@ == port_numbers(all).take(i as int),
        decreases n - i,
    {
        keys.push(port_number(ports[i].as_str()));
        assert(keys@ =~= port_numbers(all).take(i + 1));
        i = i + 1;
    }
    assert(port_numbers(all).take(n as int) == port_numbers(all));
    let order = stable_order(&keys);
    proof {
        lemma_same_relation(
            key_relation(keys@),
            number_relation(keys@),
            n as nat,
            places(order@),
        );
        lemma_stable_order_is_named(number_relation(keys@), n as nat, places(order@));
    }
    let mut out: Vec<String> = Vec::new();
    let mut k: usize = 0;
    while k < n
        invariant
            k <= n,
            n == ports.len(),
            n == order.len(),
            all == texts(ports@),
            places(order@) == port_order(all),
            forall|j: int| 0 <= j < n ==> 0 <= #[trigger] places(order@)[j] < n,
            texts(out@) == sorted_ports(all).take(k as int),
        decreases n - k,
    {
        assert(places(order@)[k as int] == order@[k as int]);
        let ghost before = out@;
        out.push(ports[order[k]].clone());
        assert(texts(out@) == texts(before).push(all[order@[k as int] as int]));
        assert(sorted_ports(all)[k as int] == all[port_order(all)[k as int]]);
        assert(texts(out@) =~= sorted_ports(all).take(k + 1));
        k = k + 1;
    }
    assert(sorted_ports(all).take(n as int) == sorted_ports(all));
    out
}

/// What the report says of one process: its ports in ascending order,
/// joined by a comma and a blank, and the details that the table holds.
pub open spec fn info_of(e: AggregateView) -> PidInfoView {
    PidInfoView {
        pid: e.pid,
        ports: join(sorted_ports(e.ports), ", "@),
        user: e.user,
        cpu: e.cpu,
        mem: e.mem,
    }
}

/// What the report says of one process.
pub fn pid_info(e: &PidAggregate) -> (info: PidInfo)
    ensures
        info@ == info_of(e@),
{
    let sorted = sort_ports(e.ports());
    PidInfo {
        pid: e.pid(),
        ports: join_texts(&sorted, ", "),
        user: e.user().clone(),
        cpu: e.cpu().clone(),
        mem: e.mem().clone(),
    }
}

/// The key by which the entries of the table are put in order.
pub struct EntryKey {
    pub folded: Vec<char>,
    pub name: Vec<char>,
    pub command: Vec<char>,
    pub pid: u32,
}

/// The mathematical content of an `EntryKey`.
pub ghost struct KeyView {
    /// The process name without regard to case.
    pub folded: Seq<char>,
    pub name: Seq<char>,
    pub command: Seq<char>,
    pub pid: u32,
}

impl View for EntryKey {
    type V = KeyView;

    open spec fn view(&self) -> KeyView {
        KeyView { folded: self.folded@, name: self.name@, command: self.command@, pid: self.pid }
    }
}

/// The order of the report: by the name without regard to case; among
/// those that tie, by the name as it is written; then by the command line;
/// then by the process id. Texts are in dictionary order.
pub open spec fn key_view_le(a: KeyView, b: KeyView) -> bool {
    if a.folded != b.folded {
        lex_le(a.folded, b.folded)
    } else if a.name != b.name {
        lex_le(a.name, b.name)
    } else if a.command != b.command {
        lex_le(a.command, b.command)
    } else {
        a.pid <= b.pid
    }
}

/// Of three texts in ascending order the first is at or before the last,
/// and they are the same text only if all three are.
proof fn lemma_text_chain(x: Seq<char>, y: Seq<char>, z: Seq<char>)
    ensures
        lex_le(x, y) && lex_le(y, z) ==> lex_le(x, z) && (x == z ==> x == y),
        lex_le(x, x),
{
    lemma_lex_reflexive(x);
    if lex_le(x, y) && lex_le(y, z) {
        lemma_lex_transitive(x, y, z);
        if x == z {
            lemma_lex_antisymmetric(x, y);
        }
    }
}

/// Any two keys are comparable.
pub proof fn lemma_key_total(a: KeyView, b: KeyView)
    ensures
        key_view_le(a, b) || key_view_le(b, a),
{
    lemma_lex_total(a.folded, b.folded);
    lemma_lex_total(a.name, b.name);
    lemma_lex_total(a.command, b.command);
}

/// The order of the keys is transitive.
pub proof fn lemma_key_transitive(a: KeyView, b: KeyView, c: KeyView)
    requires
        key_view_le(a, b),
        key_view_le(b, c),
    ensures
        key_view_le(a, c),
{
    lemma_text_chain(a.folded, b.folded, c.folded);
    lemma_text_chain(a.name, b.name, c.name);
    lemma_text_chain(a.command, b.command, c.command);
}

/// Keys that are each at or before the other are the same key.
pub proof fn lemma_key_antisymmetric(a: KeyView, b: KeyView)
    requires
        key_view_le(a, b),
        key_view_le(b, a),
    ensures
        a == b,
{
    if a.folded != b.folded {
        lemma_lex_antisymmetric(a.folded, b.folded);
    } else if a.name != b.name {
        lemma_lex_antisymmetric(a.name, b.name);
    } else if a.command != b.command {
        lemma_lex_antisymmetric(a.command, b.command);
    }
}

/// Tells whether two texts are the same.
pub fn text_eq(a: &Vec<char>, b: &Vec<char>) -> (r: bool)
    ensures
        r == (a@ == b@),
{
    proof {
        if lex_le(a@, b@) && lex_le(b@, a@) {
            lemma_lex_antisymmetric(a@, b@);
        }
        lemma_lex_reflexive(a@);
    }
    text_le(a, b) && text_le(b, a)
}

impl SortKey for EntryKey {
    open spec fn key_le(&self, other: &Self) -> bool {
        key_view_le(self@, other@)
    }

    proof fn lemma_total(a: &Self, b: &Self) {
        lemma_key_total(a@, b@);
    }

    proof fn lemma_transitive(a: &Self, b: &Self, c: &Self) {
        lemma_key_transitive(a@, b@, c@);
    }

    fn precedes(&self, other: &Self) -> (r: bool) {
        if !text_eq(&self.folded, &other.folded) {
            text_le(&self.folded, &other.folded)
        } else if !text_eq(&self.name, &other.name) {
            text_le(&self.name, &other.name)
        } else if !text_eq(&self.command, &other.command) {
            text_le(&self.command, &other.command)
        } else {
            self.pid <= other.pid
        }
    }
}

/// The keys of the entries of a table, given the name of each entry
/// without regard to case.
pub open spec fn entry_keys(t: Seq<AggregateView>, folded: Seq<Seq<char>>) -> Seq<KeyView> {
    Seq::new(
        t.len(),
        |i: int|
            KeyView {
                folded: folded[i],
                name: t[i].process_name,
                command: t[i].command,
                pid: t[i].pid,
            },
    )
}

/// The order of a list of keys.
pub open spec fn key_view_relation(keys: Seq<KeyView>) -> Relation {
    |a: int, b: int| key_view_le(keys[a], keys[b])
}

/// The places of the entries of a table in the order of the report.
pub open spec fn report_order(t: Seq<AggregateView>, folded: Seq<Seq<char>>) -> Seq<int> {
    stable_order_of(key_view_relation(entry_keys(t, folded)), t.len())
}

/// The row that holds `e` alone.
pub open spec fn new_row(e: AggregateView) -> PortInfoView {
    PortInfoView { process_name: e.process_name, command: e.command, pids: seq![info_of(e)] }
}

/// The row `r` with the process `e` at its end.
pub open spec fn extended_row(r: PortInfoView, e: AggregateView) -> PortInfoView {
    PortInfoView { pids: r.pids.push(info_of(e)), ..r }
}

/// Whether `e` belongs to the row `r`: it has the row's name and command
/// line.
pub open spec fn belongs_to(e: AggregateView, r: PortInfoView) -> bool {
    r.process_name == e.process_name && r.command == e.command
}

/// The rows of a list of entries that is in the order of the report: each
/// entry joins the row before it where it has that row's name and command
/// line, and starts a new row where it has not.
pub open spec fn group_rows(sorted: Seq<AggregateView>) -> Seq<PortInfoView>
    decreases sorted.len(),
{
    if sorted.len() == 0 {
        Seq::empty()
    } else {
        let rows = group_rows(sorted.drop_last());
        let e = sorted.last();
        if rows.len() > 0 && belongs_to(e, rows.last()) {
            rows.drop_last().push(extended_row(rows.last(), e))
        } else {
            rows.push(new_row(e))
        }
    }
}

/// The report of a table, given the name of each entry without regard to
/// case.
pub open spec fn report_with(t: Seq<AggregateView>, folded: Seq<Seq<char>>) -> Seq<PortInfoView> {
    group_rows(arrange(t, report_order(t, folded)))
}

/// The name of each entry of a table in lower case.
pub open spec fn folded_names(t: Seq<AggregateView>) -> Seq<Seq<char>> {
    Seq::new(t.len(), |i: int| lowercase_of(t[i].process_name))
}

/// The report of a table.
pub open spec fn report_of(t: Seq<AggregateView>) -> Seq<PortInfoView> {
    report_with(t, folded_names(t))
}

/// Builds the report of a table from the name of each entry without regard
/// to case: `folded` holds one text for each entry, in the order of the
/// entries.
pub fn report_rows(table: &AggregateTable, folded: &Vec<String>) -> (rows: Vec<PortInfo>)
    requires
        folded@.len() == table@.len(),
    ensures
        row_views(rows@) == report_with(table@, texts(folded@)),
        is_stable_order(
            key_view_relation(entry_keys(table@, texts(folded@))),
            table@.len(),
            report_order(table@, texts(folded@)),
        ),
{
    let entries = table.entries();
    let n = entries.len();
    let ghost t = table@;
    let ghost key_views = entry_keys(t, texts(folded@));
    let mut keys: Vec<EntryKey> = Vec::new();
    let mut i: usize = 0;
    while i < n
        invariant
            i <= n,
            n == entries.len(),
            n == folded.len(),
            t == aggregate_views(entries@),
            key_views == entry_keys(t, texts(folded@)),
            keys@.len() == i,
            forall|j: int| 0 <= j < i ==> (#[trigger] keys@[j])@ == key_views[j],
        decreases n - i,
    {
        let e = &entries[i];
        keys.push(
            EntryKey {
                folded: chars_of(folded[i].as_str()),
                name: chars_of(e.process_name().as_str()),
                command: chars_of(e.command().as_str()),
                pid: e.pid(),
            },
        );
        i = i + 1;
    }
    let order = stable_order(&keys);
    proof {
        lemma_same_relation(
            key_relation(keys@),
            key_view_relation(key_views),
            n as nat,
            places(order@),
        );
        lemma_stable_order_is_named(key_view_relation(key_views), n as nat, places(order@));
    }
    let ghost sorted = arrange(t, places(order@));
    let mut rows: Vec<PortInfo> = Vec::new();
    let mut k: usize = 0;
    assert(sorted.take(0) =~= Seq::<AggregateView>::empty());
    while k < n
        invariant
            k <= n,
            n == entries.len(),
            n == order.len(),
            t == aggregate_views(entries@),
            sorted == arrange(t, places(order@)),
            forall|j: int| 0 <= j < n ==> 0 <= #[trigger] places(order@)[j] < n,
            row_views(rows@) == group_rows(sorted.take(k as int)),
        decreases n - k,
    {
        assert(places(order@)[k as int] == order@[k as int]);
        let e = &entries[order[k]];
        let info = pid_info(e);
        let ghost before = rows@;
        proof {
            assert(sorted.take(k + 1).drop_last() == sorted.take(k as int));
            assert(sorted.take(k + 1).last() == e@);
        }
        let joins = rows.len() > 0 && rows[rows.len() - 1].process_name == *e.process_name()
            && rows[rows.len() - 1].command == *e.command();
        assert(joins == (row_views(before).len() > 0 && belongs_to(e@, row_views(before).last())));
        if joins {
            let mut row = rows.pop().unwrap();
            let ghost old_row = row@;
            row.pids.push(info);
            assert(row@.pids =~= old_row.pids.push(info_of(e@)));
            rows.push(row);
            assert(row_views(rows@) =~= row_views(before).drop_last().push(
                extended_row(row_views(before).last(), e@),
            ));
        } else {
            let mut pids: Vec<PidInfo> = Vec::new();
            pids.push(info);
            let row = PortInfo {
                process_name: e.process_name().clone(),
                command: e.command().clone(),
                pids,
            };
            assert(row@.pids =~= seq![info_of(e@)]);
            rows.push(row);
            assert(row_views(rows@) =~= row_views(before).push(new_row(e@)));
        }
        k = k + 1;
    }
    assert(sorted.take(n as int) == sorted);
    rows
}

/// Builds the report of a table: one row for each name and command line,
/// the rows in the order of their names without regard to case, the
/// processes of each row in ascending order of their ids.
pub fn build_report(table: &AggregateTable) -> (rows: Vec<PortInfo>)
    ensures
        row_views(rows@) == report_of(table@),
{
    let entries = table.entries();
    let mut folded: Vec<String> = Vec::new();
    let mut i: usize = 0;
    while i < entries.len()
        invariant
            i <= entries.len(),
            aggregate_views(entries@) == table@,
            texts(folded@) == folded_names(table@).take(i as int),
        decreases entries.len() - i,
    {
        let ghost before = folded@;
        folded.push(lowercase(entries[i].process_name().as_str()));
        assert(table@[i as int] == entries@[i as int]@);
        assert(texts(folded@) == texts(before).push(lowercase_of(table@[i as int].process_name)));
        assert(texts(folded@) =~= folded_names(table@).take(i + 1));
        i = i + 1;
    }
    assert(folded_names(table@).take(entries.len() as int) == folded_names(table@));
    report_rows(table, &folded)
}

} // verus!
